//! Renders structured log events as logfmt lines: space-separated
//! `key=value` tokens, with values quoted and escaped only when needed.

pub mod formatter;
pub mod serializer;

pub use crate::formatter::builder::{builder, Builder};
pub use crate::formatter::{EventsFormatter, FieldValue, FieldsFormatter, Level, LogEvent, LogField};
pub use crate::serializer::{Serializer, SerializerError};
