//! Conversion of Chinese text between script variants (Simplified,
//! Traditional, the Taiwan and Hong Kong standards, Japanese Shinjitai) by
//! greedy longest-match substitution.
//!
//! - [`model`] is the mathematics: a mapping from keys to replacements, the
//!   longest key that starts a text, greedy conversion, and pipelines of
//!   several mappings. Every contract of the crate is stated over it.
//! - [`table`] reads the plain-text format of mapping tables, and [`dict`]
//!   names the tables and the dictionaries that are read from them.
//! - [`trie`] is the prefix tree that holds a mapping and converts with it;
//!   its nodes keep their children in hash maps ([`edges`]), and a tree can
//!   be moved to and from a flat hash map ([`flat`]).
//! - [`conv`] is the catalog of named conversions and the functions that run
//!   them.
//! - [`laws`] and [`lines`] prove what holds of conversion in general.

pub mod conv;
pub mod dict;
pub mod edges;
pub mod flat;
pub mod laws;
pub mod lines;
pub mod model;
pub mod table;
pub mod text;
pub mod trie;

pub use conv::{
    hk2s, hk2t, jp2t, s2hk, s2t, s2tw, s2twp, t2hk, t2jp, t2s, t2tw, tw2s, tw2sp, tw2t,
};
pub use conv::{Catalog, Converter, Converters, Stage};
pub use dict::{Dictionary, RawDictionary, Tables};
pub use trie::{Node, Trie};
