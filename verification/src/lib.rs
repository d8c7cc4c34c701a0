//! Text recognition with the recognizers of the operating system: what is
//! decided and computed around the calls into the system.

pub mod error;
pub mod float;
pub mod geometry;
pub mod langs;
pub mod macos;
pub mod output;
pub mod proportion;
pub mod task;
pub mod text;
pub mod windows;

pub use crate::error::OcrError;
pub use crate::geometry::{normalized_bounding_box, normalized_rotated_bounding_box, OcrBoundingBox};
pub use crate::output::{OcrLine, OcrOutput, OcrResult};
pub use crate::task::{recognize, OcrAccuracy, RecognizeTask};
