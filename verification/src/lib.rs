//! Tight time-series compression: bit-level and nibble-level codecs for
//! integral columns, with their contracts proved.

pub mod bits;
pub mod compress;
pub mod delta;
pub mod delta_zigzag;
pub mod deltadelta_zigzag;
pub mod rows;
pub mod svlq;
pub mod uvlq;
pub mod v2;
