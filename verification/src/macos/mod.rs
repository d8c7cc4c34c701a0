//! Recognition on macOS: a recognizer for documents in a sidecar library, and
//! one for plain text to fall back on.

pub mod bridge;
pub mod dispatch;
pub mod documents;
pub mod legacy;
pub mod location;
