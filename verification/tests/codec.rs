use xmlparse::print_string;
use xmlparse::ProgramOpts;

#[test]
fn default_options() {
    let opts = ProgramOpts::default();
    assert!(!opts.map_whitespace);
    assert!(!opts.compress_whitespace);
    assert!(!opts.keep_all_whitespace);
    assert_eq!(opts.space_map, '\u{b7}');
    assert_eq!(opts.tab_map, '\u{bb}');
    assert_eq!(opts.newline_map, '\u{21b5}');
    assert_eq!(opts.compress_level, 4);
}

#[test]
fn passthrough_identity() {
    let opts = ProgramOpts::default();
    let mut buf = String::new();
    print_string(&mut buf, "a b\tc\nd  e", &opts);
    assert_eq!(buf, "a b\tc\nd  e");
}

#[test]
fn passthrough_identity_whitespace_only() {
    let opts = ProgramOpts::default();
    let mut buf = String::new();
    print_string(&mut buf, "   \t\n ", &opts);
    assert_eq!(buf, "   \t\n ");
}

#[test]
fn map_whitespace_substitutes_glyphs() {
    let mut opts = ProgramOpts::default();
    opts.map_whitespace = true;
    let mut buf = String::new();
    print_string(&mut buf, "a b\tc\nd", &opts);
    assert_eq!(buf, "a\u{b7}b\u{bb}c\u{21b5}d");
}

#[test]
fn map_whitespace_leaves_other_characters() {
    let mut opts = ProgramOpts::default();
    opts.map_whitespace = true;
    let mut buf = String::new();
    print_string(&mut buf, "xyz-123", &opts);
    assert_eq!(buf, "xyz-123");
}

#[test]
fn compress_four_spaces_to_one_tab() {
    let mut opts = ProgramOpts::default();
    opts.compress_whitespace = true;
    let mut buf = String::new();
    print_string(&mut buf, "    ", &opts);
    assert_eq!(buf, "\t");
}

#[test]
fn compress_three_spaces_then_letter() {
    let mut opts = ProgramOpts::default();
    opts.compress_whitespace = true;
    let mut buf = String::new();
    print_string(&mut buf, "   x", &opts);
    assert_eq!(buf, "   x");
}

#[test]
fn compress_eight_spaces_to_two_tabs() {
    let mut opts = ProgramOpts::default();
    opts.compress_whitespace = true;
    let mut buf = String::new();
    print_string(&mut buf, "        ", &opts);
    assert_eq!(buf, "\t\t");
}

#[test]
fn compress_with_mapping_uses_glyphs() {
    let mut opts = ProgramOpts::default();
    opts.map_whitespace = true;
    opts.compress_whitespace = true;
    let mut buf = String::new();
    print_string(&mut buf, "    ", &opts);
    assert_eq!(buf, "\u{bb}");
}

#[test]
fn compress_with_mapping_flushes_glyph_spaces() {
    let mut opts = ProgramOpts::default();
    opts.map_whitespace = true;
    opts.compress_whitespace = true;
    let mut buf = String::new();
    print_string(&mut buf, "  x", &opts);
    assert_eq!(buf, "\u{b7}\u{b7}x");
}

#[test]
fn compress_maps_tab_and_newline_but_never_compresses_them() {
    let mut opts = ProgramOpts::default();
    opts.map_whitespace = true;
    opts.compress_whitespace = true;
    let mut buf = String::new();
    print_string(&mut buf, "\t\t\n", &opts);
    assert_eq!(buf, "\u{bb}\u{bb}\u{21b5}");
}

#[test]
fn compress_without_mapping_leaves_tabs_and_newlines() {
    let mut opts = ProgramOpts::default();
    opts.compress_whitespace = true;
    let mut buf = String::new();
    print_string(&mut buf, "\t\n", &opts);
    assert_eq!(buf, "\t\n");
}

#[test]
fn compress_mixed_runs() {
    let mut opts = ProgramOpts::default();
    opts.compress_whitespace = true;
    // five spaces: one full run of four, one leftover; then a letter; then
    // two trailing spaces flushed at the end of input
    let mut buf = String::new();
    print_string(&mut buf, "     a  ", &opts);
    assert_eq!(buf, "\t a  ");
}

#[test]
fn compress_level_one_turns_each_space_into_a_tab() {
    let mut opts = ProgramOpts::default();
    opts.compress_whitespace = true;
    opts.compress_level = 1;
    let mut buf = String::new();
    print_string(&mut buf, " a ", &opts);
    assert_eq!(buf, "\ta\t");
}

#[test]
fn print_string_appends_to_existing_buffer() {
    let opts = ProgramOpts::default();
    let mut buf = String::from("head:");
    print_string(&mut buf, "tail", &opts);
    assert_eq!(buf, "head:tail");
}

#[test]
fn is_only_whitespace_cases() {
    assert!(xmlparse::is_only_whitespace(""));
    assert!(xmlparse::is_only_whitespace("   \n  "));
    assert!(xmlparse::is_only_whitespace(" \t\r\n\u{a0}\u{2028}"));
    assert!(!xmlparse::is_only_whitespace(" a "));
    assert!(!xmlparse::is_only_whitespace("."));
}
