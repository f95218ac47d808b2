//! Run-length codec for one row of nonnegative pixel values.
//!
//! A row is stored as a line list: a short header followed by 16-bit
//! instruction words that describe runs of zero, runs of a constant high
//! value, and changes of that high value.

pub mod layout;
pub mod stream;
pub mod runs;
pub mod decoder;
pub mod encoder;
pub mod data;
pub mod expansion;
pub mod laws;

pub use data::Data;
pub use decoder::pl_l2pi;
pub use encoder::pl_p2li;
pub use layout::{Header, PlioError};
