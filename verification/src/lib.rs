//! A verified converter from wikitext table markup (`{|`, `|-`, `|+`, `!`,
//! `|`, `|}`) to an ordered stream of structural events describing the
//! table, its rows and its cells.
//!
//! The pipeline has two stages: a longest-match tokenizer built over a
//! prefix tree ([`tokenizer::Tokenizer`]), and a finite-state parser
//! ([`parser::WikitextTableParser`]) that consumes the token sequence and
//! emits [`parser::Event`]s, splitting each cell's raw text into a style
//! prefix and content on the way.

pub mod laws;
pub mod parser;
pub mod scan;
pub mod split;
pub mod text;
pub mod tokenizer;
