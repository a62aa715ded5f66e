//! Parser for AiM XRK binary telemetry files.
//!
//! The parser gives exactly what is in the file: channel names as stored,
//! raw 16-bit ADC values, lap times and session metadata.
pub mod error;
pub mod laws;
pub mod parser;
pub mod text;
pub mod types;

pub use error::XrkError;
pub use types::{Channel, ChannelId, Lap, Sample, SessionInfo, XrkFile};
