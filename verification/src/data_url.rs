//! `data:` URLs that carry a base64-encoded payload.

use base64::Engine;
use vstd::prelude::*;

verus! {

/// The character of the standard base64 alphabet (RFC 4648) for a 6-bit
/// value: `A`-`Z`, `a`-`z`, `0`-`9`, `+`, `/`.
pub open spec fn base64_char(v: int) -> char {
    if v < 26 {
        (65 + v) as char
    } else if v < 52 {
        (97 + (v - 26)) as char
    } else if v < 62 {
        (48 + (v - 52)) as char
    } else if v == 62 {
        '+'
    } else {
        '/'
    }
}

/// Standard base64 with `=` padding (RFC 4648): every group of three bytes
/// becomes four characters of six bits each; a last group of one or two
/// bytes is filled with zero bits and padded with `=` to four characters.
pub open spec fn base64_standard(bytes: Seq<u8>) -> Seq<char>
    decreases bytes.len(),
{
    if bytes.len() == 0 {
        Seq::empty()
    } else if bytes.len() == 1 {
        let b0 = bytes[0] as int;
        seq![base64_char(b0 / 4), base64_char((b0 % 4) * 16), '=', '=']
    } else if bytes.len() == 2 {
        let b0 = bytes[0] as int;
        let b1 = bytes[1] as int;
        seq![
            base64_char(b0 / 4),
            base64_char((b0 % 4) * 16 + b1 / 16),
            base64_char((b1 % 16) * 4),
            '=',
        ]
    } else {
        let b0 = bytes[0] as int;
        let b1 = bytes[1] as int;
        let b2 = bytes[2] as int;
        seq![
            base64_char(b0 / 4),
            base64_char((b0 % 4) * 16 + b1 / 16),
            base64_char((b1 % 16) * 4 + b2 / 64),
            base64_char(b2 % 64),
        ] + base64_standard(bytes.subrange(3, bytes.len() as int))
    }
}

/// Number of characters of a padded base64 encoding of `n` bytes: four for
/// every started group of three bytes.
pub open spec fn padded_base64_len(n: nat) -> nat {
    4 * ((n + 2) / 3)
}

/// A padded encoding has four characters per started group of three bytes.
pub proof fn lemma_base64_standard_len(bytes: Seq<u8>)
    ensures
        base64_standard(bytes).len() == padded_base64_len(bytes.len()),
    decreases bytes.len(),
{
    if bytes.len() >= 3 {
        lemma_base64_standard_len(bytes.subrange(3, bytes.len() as int));
    }
}

/// Distinct 6-bit values have distinct characters, and none of them is the
/// padding character `=`.
proof fn lemma_base64_char_distinct(v1: int, v2: int)
    requires
        0 <= v1 < 64,
        0 <= v2 < 64,
    ensures
        base64_char(v1) == base64_char(v2) ==> v1 == v2,
        base64_char(v1) != '=',
{
    let c1 = base64_char(v1) as int;
    let c2 = base64_char(v2) as int;
    assert(c1 == if v1 < 26 { 65 + v1 } else if v1 < 52 { 97 + (v1 - 26) } else if v1 < 62 { 48 + (v1 - 52) } else if v1 == 62 { 43 } else { 47 });
    assert(c2 == if v2 < 26 { 65 + v2 } else if v2 < 52 { 97 + (v2 - 26) } else if v2 < 62 { 48 + (v2 - 52) } else if v2 == 62 { 43 } else { 47 });
    assert('=' as int == 61);
}

/// The four 6-bit values of a full group give back its three bytes.
proof fn lemma_group_determines_bytes(x0: int, x1: int, x2: int, y0: int, y1: int, y2: int)
    requires
        0 <= x0 < 256,
        0 <= x1 < 256,
        0 <= x2 < 256,
        0 <= y0 < 256,
        0 <= y1 < 256,
        0 <= y2 < 256,
        x0 / 4 == y0 / 4,
        (x0 % 4) * 16 + x1 / 16 == (y0 % 4) * 16 + y1 / 16,
        (x1 % 16) * 4 + x2 / 64 == (y1 % 16) * 4 + y2 / 64,
        x2 % 64 == y2 % 64,
    ensures
        x0 == y0,
        x1 == y1,
        x2 == y2,
{
    assert(x0 % 4 == y0 % 4 && x1 / 16 == y1 / 16);
    assert(x1 % 16 == y1 % 16 && x2 / 64 == y2 / 64);
}

/// Standard base64 loses nothing: equal encodings come from equal bytes.
pub proof fn lemma_base64_standard_injective(a: Seq<u8>, b: Seq<u8>)
    requires
        base64_standard(a) == base64_standard(b),
    ensures
        a == b,
    decreases a.len(),
{
    let e = base64_standard(a);
    lemma_base64_standard_len(a);
    lemma_base64_standard_len(b);
    if a.len() == 0 || b.len() == 0 {
        assert(a.len() == 0 && b.len() == 0);
        assert(a =~= b);
        return;
    }
    // Where the padding stands tells how many bytes the last group holds.
    let x0 = a[0] as int;
    let y0 = b[0] as int;
    lemma_base64_char_distinct(x0 / 4, y0 / 4);
    if a.len() >= 2 {
        let x1 = a[1] as int;
        lemma_base64_char_distinct((x0 % 4) * 16 + x1 / 16, 0);
        lemma_base64_char_distinct((x1 % 16) * 4, 0);
        if a.len() >= 3 {
            let x2 = a[2] as int;
            lemma_base64_char_distinct((x1 % 16) * 4 + x2 / 64, 0);
            lemma_base64_char_distinct(x2 % 64, 0);
        }
    } else {
        lemma_base64_char_distinct((x0 % 4) * 16, 0);
    }
    if b.len() >= 2 {
        let y1 = b[1] as int;
        lemma_base64_char_distinct((y0 % 4) * 16 + y1 / 16, 0);
        lemma_base64_char_distinct((y1 % 16) * 4, 0);
        if b.len() >= 3 {
            let y2 = b[2] as int;
            lemma_base64_char_distinct((y1 % 16) * 4 + y2 / 64, 0);
            lemma_base64_char_distinct(y2 % 64, 0);
        }
    } else {
        lemma_base64_char_distinct((y0 % 4) * 16, 0);
    }
    assert(e[0] == base64_standard(b)[0]);
    assert(e[1] == base64_standard(b)[1]);
    assert(e[2] == base64_standard(b)[2]);
    assert(e[3] == base64_standard(b)[3]);
    if a.len() == 1 {
        assert(b.len() == 1);
        lemma_base64_char_distinct((x0 % 4) * 16, (y0 % 4) * 16);
        assert(x0 == y0);
        assert(a =~= b);
    } else if a.len() == 2 {
        assert(b.len() == 2);
        let x1 = a[1] as int;
        let y1 = b[1] as int;
        lemma_base64_char_distinct((x0 % 4) * 16 + x1 / 16, (y0 % 4) * 16 + y1 / 16);
        lemma_base64_char_distinct((x1 % 16) * 4, (y1 % 16) * 4);
        assert(x0 == y0 && x1 == y1);
        assert(a =~= b);
    } else {
        assert(b.len() >= 3);
        let x1 = a[1] as int;
        let y1 = b[1] as int;
        let x2 = a[2] as int;
        let y2 = b[2] as int;
        lemma_base64_char_distinct((x0 % 4) * 16 + x1 / 16, (y0 % 4) * 16 + y1 / 16);
        lemma_base64_char_distinct((x1 % 16) * 4 + x2 / 64, (y1 % 16) * 4 + y2 / 64);
        lemma_base64_char_distinct(x2 % 64, y2 % 64);
        lemma_group_determines_bytes(x0, x1, x2, y0, y1, y2);
        let ra = a.subrange(3, a.len() as int);
        let rb = b.subrange(3, b.len() as int);
        assert(base64_standard(ra) =~= e.subrange(4, e.len() as int));
        assert(base64_standard(rb) =~= base64_standard(b).subrange(4, e.len() as int));
        lemma_base64_standard_injective(ra, rb);
        assert forall|k: int| 0 <= k < a.len() implies a[k] == b[k] by {
            if k >= 3 {
                assert(a[k] == ra[k - 3]);
                assert(b[k] == rb[k - 3]);
            }
        }
        assert(a =~= b);
    }
}

/// A character of the standard base64 alphabet: `A`-`Z`, `a`-`z`, `0`-`9`,
/// `+` or `/`.
pub open spec fn is_standard_base64_symbol(c: char) -> bool {
    ||| ('A' <= c && c <= 'Z')
    ||| ('a' <= c && c <= 'z')
    ||| ('0' <= c && c <= '9')
    ||| c == '+'
    ||| c == '/'
}

/// Every 6-bit value is written with a symbol of the standard alphabet.
proof fn lemma_base64_char_symbol(v: int)
    requires
        0 <= v < 64,
    ensures
        is_standard_base64_symbol(base64_char(v)),
        (base64_char(v) as int) < 128,
{
}

/// Standard base64 text is made of the symbols `A`-`Z`, `a`-`z`, `0`-`9`,
/// `+` and `/`, followed by at most two `=`, and is therefore plain ASCII.
pub proof fn lemma_base64_standard_alphabet(bytes: Seq<u8>)
    ensures
        forall|k: int|
            0 <= k < base64_standard(bytes).len() ==> is_standard_base64_symbol(
                #[trigger] base64_standard(bytes)[k],
            ) || (base64_standard(bytes)[k] == '=' && k >= base64_standard(bytes).len() - 2),
        forall|k: int|
            0 <= k < base64_standard(bytes).len() ==> (#[trigger] base64_standard(bytes)[k] as int)
                < 128,
    decreases bytes.len(),
{
    let e = base64_standard(bytes);
    if bytes.len() == 0 {
    } else if bytes.len() == 1 {
        let b0 = bytes[0] as int;
        lemma_base64_char_symbol(b0 / 4);
        lemma_base64_char_symbol((b0 % 4) * 16);
    } else if bytes.len() == 2 {
        let b0 = bytes[0] as int;
        let b1 = bytes[1] as int;
        lemma_base64_char_symbol(b0 / 4);
        lemma_base64_char_symbol((b0 % 4) * 16 + b1 / 16);
        lemma_base64_char_symbol((b1 % 16) * 4);
    } else {
        let b0 = bytes[0] as int;
        let b1 = bytes[1] as int;
        let b2 = bytes[2] as int;
        lemma_base64_char_symbol(b0 / 4);
        lemma_base64_char_symbol((b0 % 4) * 16 + b1 / 16);
        lemma_base64_char_symbol((b1 % 16) * 4 + b2 / 64);
        lemma_base64_char_symbol(b2 % 64);
        let rest = bytes.subrange(3, bytes.len() as int);
        lemma_base64_standard_alphabet(rest);
        let er = base64_standard(rest);
        assert forall|k: int| 4 <= k < e.len() implies e[k] == er[k - 4] by {}
    }
}

/// The one-character text of the symbol for a 6-bit value.
fn base64_symbol(v: u8) -> (symbol: &'static str)
    requires
        v < 64,
    ensures
        symbol@ == seq![base64_char(v as int)],
{
    let alphabet = "ABCDEFGHIJKLMNOPQRSTUVWXYZabcdefghijklmnopqrstuvwxyz0123456789+/";
    proof {
        reveal_strlit("ABCDEFGHIJKLMNOPQRSTUVWXYZabcdefghijklmnopqrstuvwxyz0123456789+/");
    }
    let symbol = alphabet.substring_ascii(v as usize, v as usize + 1);
    assert(symbol@ =~= seq![base64_char(v as int)]);
    symbol
}

/// Standard padded base64 of `bytes`, computed here.
fn encode_base64_standard(bytes: &[u8]) -> (encoded: String)
    ensures
        encoded@ == base64_standard(bytes@),
{
    proof {
        reveal_strlit("=");
        reveal_strlit("==");
    }
    let n = bytes.len();
    let mut encoded = String::new();
    let mut i: usize = 0;
    assert(bytes@.subrange(0, n as int) =~= bytes@);
    while n - i >= 3
        invariant
            n == bytes@.len(),
            i <= n,
            base64_standard(bytes@) == encoded@ + base64_standard(bytes@.subrange(i as int, n as int)),
        decreases n - i,
    {
        let b0 = bytes[i];
        let b1 = bytes[i + 1];
        let b2 = bytes[i + 2];
        let ghost rest = bytes@.subrange(i as int, n as int);
        assert(rest.subrange(3, rest.len() as int) =~= bytes@.subrange(i + 3, n as int));
        encoded.append(base64_symbol(b0 / 4));
        encoded.append(base64_symbol((b0 % 4) * 16 + b1 / 16));
        encoded.append(base64_symbol((b1 % 16) * 4 + b2 / 64));
        encoded.append(base64_symbol(b2 % 64));
        i += 3;
    }
    let ghost rest = bytes@.subrange(i as int, n as int);
    if n - i == 1 {
        let b0 = bytes[i];
        encoded.append(base64_symbol(b0 / 4));
        encoded.append(base64_symbol((b0 % 4) * 16));
        encoded.append("==");
    } else if n - i == 2 {
        let b0 = bytes[i];
        let b1 = bytes[i + 1];
        encoded.append(base64_symbol(b0 / 4));
        encoded.append(base64_symbol((b0 % 4) * 16 + b1 / 16));
        encoded.append(base64_symbol((b1 % 16) * 4));
        encoded.append("=");
    }
    assert(encoded@ =~= base64_standard(bytes@));
    encoded
}

/// The ASCII code of the symbol for a 6-bit value.
fn base64_code(v: u8) -> (code: u8)
    requires
        v < 64,
    ensures
        code as int == base64_char(v as int) as int,
        code < 128,
{
    if v < 26 {
        65 + v
    } else if v < 52 {
        97 + (v - 26)
    } else if v < 62 {
        48 + (v - 52)
    } else if v == 62 {
        43
    } else {
        47
    }
}

/// Whether the character at position `k` of an ASCII text has the code `code`.
fn ascii_at_is(text: &str, k: usize, code: u8) -> (same: bool)
    requires
        vstd::string::is_ascii(text),
        k < text@.len(),
        code < 128,
    ensures
        same <==> text@[k as int] as int == code as int,
{
    let b = text.get_ascii(k);
    assert('\0' <= text@[k as int] <= '\u{7f}');
    b == code
}

/// Whether `text` is exactly the standard padded base64 of `bytes`.
pub fn is_base64_standard_of(bytes: &[u8], text: &str) -> (ok: bool)
    ensures
        ok <==> text@ == base64_standard(bytes@),
{
    let ghost e = base64_standard(bytes@);
    proof {
        lemma_base64_standard_len(bytes@);
        lemma_base64_standard_alphabet(bytes@);
    }
    if !text.is_ascii() {
        proof {
            if text@ == e {
                assert forall|k: int| 0 <= k < text@.len() implies '\0' <= #[trigger] text@[k]
                    <= '\u{7f}' by {
                    assert((e[k] as int) < 128);
                }
            }
        }
        return false;
    }
    let n = bytes.len();
    let groups = n / 3 + if n % 3 == 0 {
        0
    } else {
        1
    };
    let len = text.unicode_len();
    if len % 4 != 0 || len / 4 != groups {
        return false;
    }
    let mut i: usize = 0;
    let mut j: usize = 0;
    assert(bytes@.subrange(0, n as int) =~= bytes@);
    assert(e.subrange(0, 0) + e =~= e);
    while n - i >= 3
        invariant
            n == bytes@.len(),
            i <= n,
            vstd::string::is_ascii(text),
            text@.len() == e.len(),
            len == text@.len(),
            e == base64_standard(bytes@),
            e == e.subrange(0, j as int) + base64_standard(bytes@.subrange(i as int, n as int)),
            j <= e.len(),
            text@.subrange(0, j as int) == e.subrange(0, j as int),
        decreases n - i,
    {
        let ghost rest = bytes@.subrange(i as int, n as int);
        proof {
            lemma_base64_standard_len(rest);
            assert(rest.subrange(3, rest.len() as int) =~= bytes@.subrange(i + 3, n as int));
        }
        let b0 = bytes[i];
        let b1 = bytes[i + 1];
        let b2 = bytes[i + 2];
        let v0 = b0 / 4;
        let v1 = (b0 % 4) * 16 + b1 / 16;
        let v2 = (b1 % 16) * 4 + b2 / 64;
        let v3 = b2 % 64;
        assert(e[j as int] == base64_char(v0 as int));
        assert(e[j + 1] == base64_char(v1 as int));
        assert(e[j + 2] == base64_char(v2 as int));
        assert(e[j + 3] == base64_char(v3 as int));
        if !ascii_at_is(text, j, base64_code(v0)) || !ascii_at_is(text, j + 1, base64_code(v1))
            || !ascii_at_is(text, j + 2, base64_code(v2)) || !ascii_at_is(
            text,
            j + 3,
            base64_code(v3),
        ) {
            return false;
        }
        proof {
            assert(text@[j as int] == e[j as int]);
            assert(text@[j + 1] == e[j + 1]);
            assert(text@[j + 2] == e[j + 2]);
            assert(text@[j + 3] == e[j + 3]);
            assert(text@.subrange(0, j + 4) =~= e.subrange(0, j + 4));
            assert(e =~= e.subrange(0, j + 4) + base64_standard(
                bytes@.subrange(i + 3, n as int),
            ));
        }
        i += 3;
        j += 4;
    }
    let ghost rest = bytes@.subrange(i as int, n as int);
    proof {
        lemma_base64_standard_len(rest);
    }
    if n - i == 1 {
        let b0 = bytes[i];
        let v0 = b0 / 4;
        let v1 = (b0 % 4) * 16;
        assert(e[j as int] == base64_char(v0 as int));
        assert(e[j + 1] == base64_char(v1 as int));
        assert(e[j + 2] == '=');
        assert(e[j + 3] == '=');
        if !ascii_at_is(text, j, base64_code(v0)) || !ascii_at_is(text, j + 1, base64_code(v1))
            || !ascii_at_is(text, j + 2, 61) || !ascii_at_is(text, j + 3, 61) {
            return false;
        }
        assert(text@[j as int] == e[j as int]);
        assert(text@[j + 1] == e[j + 1]);
        assert(text@[j + 2] == e[j + 2]);
        assert(text@[j + 3] == e[j + 3]);
        assert(text@ =~= e.subrange(0, j as int) + base64_standard(rest));
    } else if n - i == 2 {
        let b0 = bytes[i];
        let b1 = bytes[i + 1];
        let v0 = b0 / 4;
        let v1 = (b0 % 4) * 16 + b1 / 16;
        let v2 = (b1 % 16) * 4;
        assert(e[j as int] == base64_char(v0 as int));
        assert(e[j + 1] == base64_char(v1 as int));
        assert(e[j + 2] == base64_char(v2 as int));
        assert(e[j + 3] == '=');
        if !ascii_at_is(text, j, base64_code(v0)) || !ascii_at_is(text, j + 1, base64_code(v1))
            || !ascii_at_is(text, j + 2, base64_code(v2)) || !ascii_at_is(text, j + 3, 61) {
            return false;
        }
        assert(text@[j as int] == e[j as int]);
        assert(text@[j + 1] == e[j + 1]);
        assert(text@[j + 2] == e[j + 2]);
        assert(text@[j + 3] == e[j + 3]);
        assert(text@ =~= e.subrange(0, j as int) + base64_standard(rest));
    } else {
        assert(text@ =~= e.subrange(0, j as int));
    }
    true
}

/// Calls `base64::engine::general_purpose::STANDARD.encode` (base64 0.21),
/// the RFC 4648 alphabet with padding. Trusted: the result is the standard
/// padded encoding of the input. The crate panics when the encoded length
/// does not fit in `usize`, which the `requires` rules out.
#[verifier::external_body]
fn base64_standard_encode(bytes: &[u8]) -> (encoded: String)
    requires
        padded_base64_len(bytes@.len()) <= usize::MAX,
    ensures
        encoded@ == base64_standard(bytes@),
{
    base64::engine::general_purpose::STANDARD.encode(bytes)
}

/// The `data:` URL for an already encoded payload: `data:`, the media type,
/// `;base64,`, then the encoded text.
pub open spec fn spec_data_url(media_type: Seq<char>, encoded: Seq<char>) -> Seq<char> {
    "data:"@ + media_type + ";base64,"@ + encoded
}

/// Builds the `data:` URL of a payload that is already base64-encoded.
pub fn data_url_from_encoded(media_type: &str, encoded: &str) -> (url: String)
    ensures
        url@ == spec_data_url(media_type@, encoded@),
{
    let mut url = String::from_str("data:");
    url.append(media_type);
    url.append(";base64,");
    url.append(encoded);
    url
}

/// Builds the `data:` URL that embeds `payload` as standard padded base64,
/// as a page does for an image, a PDF or a video.
pub fn data_url(media_type: &str, payload: &[u8]) -> (url: String)
    requires
        padded_base64_len(payload@.len()) <= usize::MAX,
    ensures
        url@ == spec_data_url(media_type@, base64_standard(payload@)),
        url@.len() == 13 + media_type@.len() + padded_base64_len(payload@.len()),
        forall|k: int|
            13 + media_type@.len() <= k < url@.len() ==> is_standard_base64_symbol(#[trigger] url@[k])
                || (url@[k] == '=' && k >= url@.len() - 2),
{
    let produced = base64_standard_encode(payload);
    // The text from the base64 crate is used once it is checked to be the
    // standard encoding; otherwise the encoding is computed here.
    let encoded = if is_base64_standard_of(payload, produced.as_str()) {
        produced
    } else {
        encode_base64_standard(payload)
    };
    let url = data_url_from_encoded(media_type, encoded.as_str());
    proof {
        reveal_strlit("data:");
        reveal_strlit(";base64,");
        lemma_base64_standard_len(payload@);
        lemma_base64_standard_alphabet(payload@);
        let e = base64_standard(payload@);
        let start = 13 + media_type@.len();
        assert forall|k: int| start <= k < url@.len() implies is_standard_base64_symbol(
            #[trigger] url@[k],
        ) || (url@[k] == '=' && k >= url@.len() - 2) by {
            assert(url@[k] == e[k - start]);
        }
    }
    url
}

/// For one media type, the `data:` URL determines its payload: decoding the
/// URL gives back exactly the bytes that were embedded.
pub proof fn lemma_data_url_determines_payload(media_type: Seq<char>, p1: Seq<u8>, p2: Seq<u8>)
    requires
        spec_data_url(media_type, base64_standard(p1)) == spec_data_url(
            media_type,
            base64_standard(p2),
        ),
    ensures
        p1 == p2,
{
    let prefix = "data:"@ + media_type + ";base64,"@;
    let e1 = base64_standard(p1);
    let e2 = base64_standard(p2);
    let u1 = spec_data_url(media_type, e1);
    let u2 = spec_data_url(media_type, e2);
    assert(u1 == prefix + e1);
    assert(u2 == prefix + e2);
    assert(e1 =~= u1.subrange(prefix.len() as int, u1.len() as int));
    assert(e2 =~= u2.subrange(prefix.len() as int, u2.len() as int));
    lemma_base64_standard_injective(p1, p2);
}

} // verus!
