//! Conversion between integers and canonical signed digit (CSD) strings, reading a CSD
//! string into its digits, a search for repeated digit patterns, and a generator of
//! shift-and-add multiplier text.
pub mod csd;
pub mod decode;
pub mod encode;
pub mod multiplier;
pub mod pattern;

pub use decode::decode_digits;
pub use encode::{to_csd_i, to_csdnnz_i};
pub use multiplier::{generate_csd_multiplier, MultiplierError};
pub use pattern::longest_repeated_substring;
