//! A rateless forward-error-correction engine.
//!
//! A byte payload is split into `k` fixed-size source symbols and expanded
//! into encoded packets: systematic packets that copy the source symbols,
//! and repair packets that carry linear combinations of them over GF(256).
//! The decoder accepts any sufficiently large subset of the packets, in any
//! order and with duplicates, and reconstructs the exact original payload.

pub mod canon;
pub mod codec;
pub mod gf;
pub mod params;
pub mod rows;
pub mod solver;
pub mod symbols;
pub mod types;
