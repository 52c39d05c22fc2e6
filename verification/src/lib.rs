//! Turns a MusicXML score into a flat list of events, one for each measure of
//! each part at the top level of the score, every event naming the instrument
//! that plays it.
//!
//! The work is done in two steps. [`tree::read_tree`] hands the text to the XML
//! parser and keeps what it found as a [`tree::Tree`], a table of nodes in
//! document order. [`extract::extract`] walks that table: it first collects the
//! names that the `score-part` declarations give to part identifiers,
//! wherever they stand, then numbers the measures of every `part` that
//! stands directly under the root element. [`parse_musicxml`] does both.
//! [`laws`] holds what is proved of the events of every document, and
//! [`service`] what a service answers to a request.
pub mod catalog;
pub mod event;
pub mod extract;
pub mod laws;
pub mod service;
pub mod tree;

pub use event::Event;
pub use extract::parse_musicxml;
pub use tree::ParseError;
