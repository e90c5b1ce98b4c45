//! Recognising Magic cards in a camera frame: hashing the artwork, looking the hash up, letting
//! several frames vote, and the file format the known hashes ship in.
//!
//! Finding the card's outline and squaring it up are geometry in floating point, done by the
//! application; everything from the squared-up greyscale image onwards stands here.

pub mod archive;
pub mod detect;
pub mod hash;
pub mod matcher;
pub mod rectify;
pub mod vote;
