//! Schema and validators that keep the CivicSense training data honest.
//!
//! - [`classes`]: the seven-class label vocabulary.
//! - [`text`]: splitting label text into numbered lines and whitespace-separated fields.
//! - [`yolo`]: YOLO-format label records and their validation.
//! - [`file_name`]: stems, extensions and ordering of the file names of a listing.
//! - [`dataset`]: the `images/` and `labels/` training layout and its validation.

pub mod classes;
pub mod dataset;
pub mod file_name;
pub mod text;
pub mod yolo;

pub use classes::{CLASS_NAMES, NUM_CLASSES};
