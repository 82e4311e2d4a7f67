//! The persisted form of a correspondence map: a JSON object from track to
//! an object from partner to an array of two-element index arrays.

pub mod format;
pub mod laws;
pub mod read;
pub mod write;

pub use read::load;
pub use write::save;
