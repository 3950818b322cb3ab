//! Ranks a fixed set of directories by a frecency score.
//!
//! The library holds the verified core of a small ranking program: parsing
//! the score listing that an external frecency tool prints, joining the
//! parsed scores against a list of directory paths (absent paths get a
//! default score), sorting the joined results so that higher scores come
//! first, and laying out each output line.
//!
//! All text is handled as bytes. A score is carried as a [`table::Score`]:
//! an order key that sorts as the numeric value does, together with the
//! score's rendered text. Producing those two from the tool's floating-point
//! output, and all process, filesystem and environment access, happen in the
//! unverified shell around this library.

pub mod bytes;
pub mod parse;
pub mod report;
pub mod table;
