//! Nibble tags of the column format.

pub mod headers;
