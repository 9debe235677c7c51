//! A parser for manuscript pages encoded in TEI XML, with the typed
//! document it builds, verified with Verus.
//!
//! [`tei_parser::parse_tei_xml`] reads a document into a
//! [`tei_data::TeiDocument`]: bibliographic metadata, the page image with
//! its named zones, the transcribed lines with their inline markup, and the
//! footnotes.

pub mod inline;
pub mod points;
pub mod project_config;
pub mod tei_data;
pub mod tei_parser;
pub mod text;
pub mod utils;
pub mod xml_events;
