//! Tabletop dice notation: scanning, rolling and canonical display.
//!
//! A notation such as `3d6+2 2d4` names groups of dice. [`notation`] holds the
//! grammar and the scanner that finds the groups of a text; [`dice`] rolls one
//! group, or every group of a notation; [`results`] holds the outcomes and
//! the form in which they are shown; [`decimal`] reads and writes numbers.
//!
//! Contracts are stated over the characters of a text (`Seq<char>`), over
//! groups with unbounded numbers ([`notation::Group`]) and over the faces
//! that the dice showed (`Seq<usize>`). Which faces fall is left to the
//! random generator: the contracts say what holds whatever it draws.

pub mod decimal;
pub mod dice;
pub mod notation;
pub mod results;
