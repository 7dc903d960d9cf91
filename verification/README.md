# artifacts

Verified core of a set of small browser artifacts.

- `src/life.rs`: Conway's Game of Life on a wrapping 64 by 64 board. The board
  is modelled as `Board` (size and row-major cells); `Universe::tick` is proved
  to compute `Board::step`, `Universe::render` to produce `Board::rendered`,
  and `Universe::new` to produce the seeded starting board.
- `src/laws.rs`: properties of the model proved for every board.
- `src/data_url.rs`: `data:` URLs with a base64 payload. Standard padded
  base64 is stated as a spec function; the encoding itself is done by the
  `base64` crate behind one trusted wrapper, and the encoding is proved to
  lose nothing.
- `app/`: the browser side (DOM, canvas, animation loop, three-d scene,
  embedded asset files), which calls the library.
