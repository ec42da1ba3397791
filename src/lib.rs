//! SHA-0, the 1993 predecessor of SHA-1, as an incremental hasher.
//!
//! SHA-0 has known collision attacks: it is unsuitable for integrity checks,
//! signatures or any other security purpose.
mod hasher;

pub mod model;

pub use hasher::Sha0;
