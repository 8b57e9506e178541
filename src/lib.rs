//! Conversion of speed and chroma trigger text into the keyed JSON blobs of a
//! chart document, and back.
//!
//! Numbers of the trigger texts (times, durations, speed multipliers) are
//! held exactly, as whole billionths (`number::Decimal`); a repeat moves times
//! on by exact multiples of its interval. Colors are held by their channels
//! (`color::HslColor` names the channels its saturation and lightness come
//! from, and those its hue comes from), so every comparison the parsers make
//! on them is exact. Keywords, lane names and variable names are matched
//! without regard to ASCII case.

pub mod color;
pub mod error;
pub mod text;
pub mod number;
pub mod difficulty;
pub mod srtb;
pub mod sort;
pub mod speeds;
pub mod chroma;
pub mod integrator;
