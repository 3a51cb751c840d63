//! Keeps a music daemon's play queue filled with tracks drawn at random,
//! weighted by scores that a small rule language computes from each track's
//! stickers.
pub mod decimal;
pub mod playlist;
pub mod rng;
pub mod score;
pub mod stickers;
