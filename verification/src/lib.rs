//! Bit manipulation on 32-bit words without branches: sign, absolute value,
//! minimum and maximum through masks; the test for a power of two and the
//! rounding to one; integer logarithms; counting set bits and trailing zeros;
//! parity; bit reversal through a table; Morton codes of two and three
//! coordinates; and the step from one combination of set bits to the next.
//!
//! Every function is defined on every word. A sum or difference that leaves
//! the range of the word wraps around, and a shift whose amount is a variable
//! uses the five lowest bits of the amount. Each function says in its
//! contract what it returns, over the numbers that the words stand for:
//! [`count::bit_count`], [`power::floor_log2`], [`morton::interleaved2`] and
//! the like; the proof functions beside them state what holds of these.

pub mod branchless;
pub mod combination;
pub mod count;
pub mod morton;
pub mod power;
pub mod reverse;
pub mod word;

pub use crate::branchless::{abs, bi32, bu32, max, min, not, sign, usz};
pub use crate::combination::next_combination;
pub use crate::count::{count_trailing_zeros, parity, pop_count};
pub use crate::morton::{deinterleave2, deinterleave3, interleave2, interleave3};
pub use crate::power::{is_pow2, log10, log2, next_pow2, prev_pow2};
pub use crate::reverse::{reverse, REVERSE_TABLE};
pub use crate::word::{INT_BITS, INT_MAX, INT_MIN};
