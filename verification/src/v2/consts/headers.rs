//! The four-bit tags that start a column or a block.

use vstd::prelude::*;

verus! {

/// Starts a column, and pads the last byte.
pub const START_OF_COLUMN: u8 = 0b1001;

/// Tag of the first row.
pub const FIRST_ROW: u8 = 0b0110;

/// Tag of the second row.
pub const SECOND_ROW: u8 = FIRST_ROW;

/// Ten deltas of three bits.
pub const THREE_BITS_TEN_SAMPLES: u8 = 0b1111;

/// Five deltas of six bits.
pub const SIX_BITS_FIVE_SAMPLES: u8 = 0b1110;

/// Four deltas of eight bits.
pub const EIGHT_BITS_FOUR_SAMPLES: u8 = 0b1100;

/// Three deltas of ten bits.
pub const TEN_BITS_THREE_SAMPLES: u8 = 0b1010;

/// Two deltas of sixteen bits.
pub const SIXTEEN_BITS_TWO_SAMPLES: u8 = 0b1000;

/// One delta of thirty-two bits.
pub const THIRTY_TWO_BITS_ONE_SAMPLE: u8 = 0b1011;

/// One delta of sixty-four bits.
pub const SIXTY_FOUR_BITS_ONE_SAMPLE: u8 = 0b1101;

} // verus!
