//! A reader for a fixed record layout of coordinate pairs.
//!
//! The input is text made of blocks. Each block opens with a brace and a line
//! feed and holds four `key: value` lines, joined by a comma and a line feed:
//! the latitude and longitude of a first point, then those of a second one.
//! This is not a JSON reader: it looks for the literal delimiters only, and
//! ignores the keys.
//!
//! A block with fewer than four lines is passed over. A block with four
//! lines whose values do not all stand for numbers ends the reading with an
//! error. The coordinates are handed out as the numeric texts they were
//! written with; turning them into numbers is left to the caller.

pub mod chars;
pub mod document;
pub mod number;
pub mod parser;
pub mod point;
pub mod record;
pub mod scan;

pub use parser::Haversine;
pub use point::{ParseError, Point, PointPair};
