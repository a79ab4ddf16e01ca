//! A schema-driven codec for EDIFACT-style delimited messages.
//!
//! Text is handled as sequences of `char`. A [`schema::Schema`] describes the
//! shape of a message: code tables, segments (a tag and fields), and segment
//! groups (members with cardinalities). The engine splits text into lines,
//! parses lines into value trees ([`value`]) and renders value trees back.
//!
//! - [`text`]: splitting, joining and trimming.
//! - [`element`]: components and composite elements.
//! - [`segment`]: segment lines.
//! - [`group`]: segment groups, read with one line of lookahead.
//! - [`message`]: whole messages.
//! - [`laws`], [`group_laws`]: what parsing and rendering satisfy together.
pub mod element;
pub mod error;
pub mod group;
pub mod group_laws;
pub mod laws;
pub mod message;
pub mod schema;
pub mod segment;
pub mod text;
pub mod value;
