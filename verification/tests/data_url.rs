use artifacts::data_url::{data_url, data_url_from_encoded};

#[test]
fn data_url_of_three_bytes() {
    assert_eq!(data_url("image/png", b"Man"), "data:image/png;base64,TWFu");
}

#[test]
fn data_url_pads_one_leftover_byte() {
    assert_eq!(data_url("video/mp4", b"M"), "data:video/mp4;base64,TQ==");
}

#[test]
fn data_url_pads_two_leftover_bytes() {
    assert_eq!(data_url("application/pdf", b"Ma"), "data:application/pdf;base64,TWE=");
}

#[test]
fn data_url_of_empty_payload() {
    assert_eq!(data_url("application/pdf", b""), "data:application/pdf;base64,");
}

#[test]
fn data_url_of_binary_bytes() {
    let payload = [0x89u8, 0x50, 0x4e, 0x47, 0x0d, 0x0a, 0x1a, 0x0a];
    assert_eq!(data_url("image/png", &payload), "data:image/png;base64,iVBORw0KGgo=");
}

#[test]
fn data_url_length_is_prefix_plus_padded_encoding() {
    for n in 0..20usize {
        let payload = vec![7u8; n];
        let url = data_url("image/png", &payload);
        assert_eq!(url.len(), 13 + "image/png".len() + 4 * ((n + 2) / 3));
    }
}

#[test]
fn data_url_from_encoded_joins_the_parts() {
    assert_eq!(data_url_from_encoded("image/png", "TWFu"), "data:image/png;base64,TWFu");
    assert_eq!(data_url_from_encoded("", ""), "data:;base64,");
}

#[test]
fn data_url_uses_the_standard_alphabet_ends() {
    assert_eq!(data_url("image/png", &[0xfb, 0xff]), "data:image/png;base64,+/8=");
    assert_eq!(data_url("image/png", &[0x00, 0x00, 0x00]), "data:image/png;base64,AAAA");
}

#[test]
fn different_payloads_give_different_urls() {
    assert_ne!(data_url("image/png", &[1, 2, 3]), data_url("image/png", &[1, 2, 4]));
    assert_ne!(data_url("image/png", &[0]), data_url("image/png", &[0, 0]));
}
