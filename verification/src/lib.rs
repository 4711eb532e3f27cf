//! Analysis of recorded GPS tracks: great-circle distances, track metrics
//! (length, elapsed time, average speed), detection of anomalous low-speed
//! stretches, segmentation policies, and a text codec for a track-file subset.
//!
//! All quantities are fixed-point integers: coordinates in microdegrees,
//! distances in millimetres, elevations in millimetres, times in milliseconds
//! since 1970-01-01T00:00:00Z.

pub mod cal;
pub mod detect;
pub mod geo;
pub mod num;
pub mod point;
pub mod segment;
pub mod track;
pub mod xml;

pub use point::Point;
pub use track::Track;
pub use track::TrackError;
pub use xml::DecodeError;
pub use xml::DecodeWarning;
