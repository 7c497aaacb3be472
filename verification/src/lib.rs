//! Validation and one-step clockwise rotation of square tables stored as flat,
//! row-major buffers, and the same for tables carried as JSON arrays in the
//! records of a table file.

pub mod double;
pub mod grid;
pub mod json;
pub mod laws;
pub mod model;
pub mod record;
pub mod rotate;
pub mod square;

pub use json::process_json_array;
pub use rotate::{rotate_right, RotationError};
pub use square::square_len;
