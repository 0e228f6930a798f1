//! Tells crawlers from other clients by their identifier, the user-agent
//! string of HTTP.
//!
//! A [`BotDetector`] holds a set of regular-expression fragments and one
//! matcher, compiled from the alternation of them all, each in a group of its
//! own. Fragments and identifiers are compared without regard to the case of
//! ASCII letters. The set can grow and shrink; after each change the matcher
//! is the one for the set as it then is, whatever the order in which its
//! fragments came.

pub mod detector;
pub mod engine;
pub mod folding;
pub mod fragments;
pub mod laws;
pub mod lines;
pub mod text;

pub use detector::{BotDetector, PatternCompileError};
