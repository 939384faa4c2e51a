//! Per-run configuration for the whitespace codec and the event dispatcher.

use vstd::prelude::*;

verus! {

/// Immutable per-run settings, constructed once from command-line input and
/// threaded by reference into every formatting and dispatch call.
#[derive(Clone, Copy, Debug)]
pub struct ProgramOpts {
    /// Transliterate literal space, tab, and line feed to visible glyphs.
    pub map_whitespace: bool,
    /// Glyph a literal tab is mapped to.
    pub tab_map: char,
    /// Glyph a literal space is mapped to.
    pub space_map: char,
    /// Glyph a literal line feed is mapped to.
    pub newline_map: char,
    /// Run-length compress consecutive literal spaces.
    pub compress_whitespace: bool,
    /// Number of consecutive spaces compressed to a single character.
    pub compress_level: usize,
    /// Keep text nodes that consist of whitespace alone.
    pub keep_all_whitespace: bool,
}

impl ProgramOpts {
    /// The compression threshold is a positive count of spaces.
    pub open spec fn wf(&self) -> bool {
        self.compress_level >= 1
    }
}

impl Default for ProgramOpts {
    fn default() -> (r: Self)
        ensures
            !r.map_whitespace,
            r.tab_map == '\u{bb}',
            r.space_map == '\u{b7}',
            r.newline_map == '\u{21b5}',
            !r.compress_whitespace,
            r.compress_level == 4,
            !r.keep_all_whitespace,
            r.wf(),
    {
        ProgramOpts {
            map_whitespace: false,
            // U+00BB right-pointing double angle quotation mark
            tab_map: '\u{bb}',
            // U+00B7 middle dot
            space_map: '\u{b7}',
            // U+21B5 downwards arrow with corner leftwards
            newline_map: '\u{21b5}',
            compress_whitespace: false,
            compress_level: 4,
            keep_all_whitespace: false,
        }
    }
}

} // verus!
