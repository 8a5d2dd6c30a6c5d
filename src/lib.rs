//! Decisions of a small windowed demo that alternates a green and a blue
//! square over a background image, and the byte format of its score file.

pub mod frame;
pub mod scores;
