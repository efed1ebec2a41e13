//! Two-line element (TLE) sets of satellite orbits: an exact fixed-width
//! decoder, the line checksum, and the physical range checks that the mean
//! elements must pass before an orbit is initialized from them.

pub mod checksum;
pub mod elements;
pub mod epoch;
pub mod field;
pub mod tle;
