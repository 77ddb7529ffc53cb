//! Windowed rank/select over the packed upper bit array of an Elias-Fano encoding.
//!
//! [`select_range`] finds the `nth` set bit and [`select_zero_range`] the `nth` unset bit of a
//! bit range of a `vortex_buffer::BitBuffer`. Their contracts, and those of the word-level
//! functions below them, are stated over the bit strings of [`bits`]; [`laws`] states what holds
//! of them together.

pub mod bits;
pub mod buffer;
pub mod laws;
pub mod load;
pub mod select;
pub mod words;

pub use load::load_bits;
pub use select::{
    check_window, checked_select_range, checked_select_zero_range, select_in_bytes, select_range,
    select_zero_range, WindowError,
};
pub use words::{mask_to, select_in_byte, select_in_word};
