//! A precision-aware signed day-to-second interval value with a textual
//! codec.
//!
//! The interval stores five signed components (days, hours, minutes,
//! seconds, nanoseconds) together with two display precisions that control
//! only the textual form: the zero-pad width of the day field and the
//! number of fractional-second digits. Equality ignores the precisions.
//!
//! The textual form is `<sign><days> <hh>:<mm>:<ss>[.<fraction>]`; the
//! encoder renders it from a value's own precisions and the decoder
//! derives the precisions back from the digit counts of its input.

pub mod digits;
pub mod scanner;
pub mod interval;
pub mod encode;
pub mod decode;
pub mod laws;

pub use decode::ParseIntervalError;
pub use interval::IntervalDS;
pub use interval::IntervalRecord;
pub use interval::TypeDescriptor;
