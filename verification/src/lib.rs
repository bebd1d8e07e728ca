//! Screen-to-light synchronisation logic for Philips Hue entertainment streaming:
//! colour extraction from captured frames, the bridge's request and response rules,
//! the streaming packet format, setup decisions and failure recovery.

pub mod text;
pub mod processor;
pub mod hue;
pub mod stream;
pub mod decimal;
pub mod setup;
pub mod recovery;
pub mod capturer;
