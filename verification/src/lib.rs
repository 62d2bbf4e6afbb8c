//! Finding UI components in a picture of a design.
//!
//! A component is a small picture, with or without alpha values. The library
//! decides how a component is held against the design, turns the raw scores of
//! all its places into matches, paints over what was found so that a second pass
//! finds what it hid, draws what was found, and puts the design together again
//! from its components. What each function returns is stated in its contract and
//! proved.
//!
//! Numbers that are not whole are binary64 numbers on bit patterns, see [`double`].
pub mod alpha;
pub mod arithmetic;
pub mod descent;
pub mod double;
pub mod entry;
pub mod exact;
pub mod files;
pub mod masking;
pub mod matching;
pub mod nearness;
pub mod overlap;
pub mod overlay;
pub mod passes;
pub mod picture;
pub mod places;
pub mod ranking;
pub mod reconstruct;
pub mod region;
pub mod rounding;
pub mod spread;
pub mod stepping;
pub mod svg;
pub mod text;
pub mod variance;
pub mod venv;
pub mod yolo;
