//! Verified core of a set of browser artifacts: Conway's Game of Life on a
//! toroidal board, and the `data:` URLs that embed binary assets in a page.

pub mod data_url;
pub mod life;
pub mod laws;
