//! Converts a stream of XML parse events into a line-oriented, path-addressed
//! text format: each open element's slash-separated tag path is emitted exactly
//! once, followed by its attributes or text content, with literal whitespace
//! optionally transliterated to visible glyphs and runs of spaces compressed.

pub mod codec;
pub mod config;
pub mod parser_data;
pub mod run_model;
pub mod xml_tag;

pub use codec::is_only_whitespace;
pub use codec::print_string;
pub use config::ProgramOpts;
pub use parser_data::ParserData;
pub use parser_data::XmlTags;
pub use xml_tag::XmlTag;
