//! Reads the output of a Japanese morphological analyzer and finds grammar
//! points in it.
//!
//! - `ichiran_extraction`: the line tokenizer, from output lines to words,
//!   conjugations and compound words;
//! - `ichiran`: ruby-style reading annotation of word entries;
//! - `sentence_processing`: the grammar rule table and the rule matcher;
//! - `text`: character-level helpers that the others share.
pub mod ichiran;
pub mod ichiran_extraction;
pub mod rule_text;
pub mod sentence_processing;
pub mod text;
