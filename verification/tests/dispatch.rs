use xmlparse::ParserData;
use xmlparse::ProgramOpts;

fn no_attrs() -> Vec<(String, String)> {
    Vec::new()
}

#[test]
fn end_to_end_scenario() {
    let opts = ProgramOpts::default();
    let mut data = ParserData::with_capacity(10);
    data.start_element("root", &no_attrs(), &opts);
    data.start_element(
        "child",
        &vec![("attr".to_string(), "v".to_string())],
        &opts,
    );
    data.characters("text", &opts);
    data.end_element("child");
    data.end_element("root");
    assert_eq!(
        data.output(),
        "/root\n/root/child@[attr=\"v\"]\n/root/child=\"text\"\n"
    );
    assert!(data.tags_is_empty());
}

#[test]
fn mismatched_end_tag_is_ignored() {
    let opts = ProgramOpts::default();
    let mut data = ParserData::with_capacity(10);
    data.start_element("a", &no_attrs(), &opts);
    data.start_element("b", &no_attrs(), &opts);
    data.end_element("x");
    assert!(!data.tags_is_empty());
    data.end_element("b");
    data.end_element("a");
    assert_eq!(data.output(), "/a\n/a/b\n");
    assert!(data.tags_is_empty());
}

#[test]
fn whitespace_only_text_is_suppressed() {
    let opts = ProgramOpts::default();
    let mut data = ParserData::with_capacity(10);
    data.start_element("a", &no_attrs(), &opts);
    data.characters("   \n  ", &opts);
    data.end_element("a");
    assert_eq!(data.output(), "/a\n");
}

#[test]
fn whitespace_only_text_kept_on_request() {
    let mut opts = ProgramOpts::default();
    opts.keep_all_whitespace = true;
    let mut data = ParserData::with_capacity(10);
    data.start_element("a", &no_attrs(), &opts);
    data.characters("   \n  ", &opts);
    data.end_element("a");
    assert_eq!(data.output(), "/a=\"   \n  \"\n");
}

#[test]
fn leaf_element_prints_bare_path_at_close() {
    let opts = ProgramOpts::default();
    let mut data = ParserData::with_capacity(10);
    data.start_element("only", &no_attrs(), &opts);
    data.end_element("only");
    assert_eq!(data.output(), "/only\n");
}

#[test]
fn multiple_attributes_are_comma_separated() {
    let opts = ProgramOpts::default();
    let mut data = ParserData::with_capacity(10);
    data.start_element(
        "e",
        &vec![
            ("k1".to_string(), "v1".to_string()),
            ("k2".to_string(), "v2".to_string()),
            ("k3".to_string(), "v3".to_string()),
        ],
        &opts,
    );
    assert_eq!(data.output(), "/e@[k1=\"v1\",k2=\"v2\",k3=\"v3\"]\n");
}

#[test]
fn attribute_values_pass_through_codec() {
    let mut opts = ProgramOpts::default();
    opts.map_whitespace = true;
    let mut data = ParserData::with_capacity(10);
    data.start_element(
        "e",
        &vec![("key".to_string(), "a b".to_string())],
        &opts,
    );
    assert_eq!(data.output(), "/e@[key=\"a\u{b7}b\"]\n");
}

#[test]
fn attribute_keys_are_not_transformed() {
    let mut opts = ProgramOpts::default();
    opts.map_whitespace = true;
    let mut data = ParserData::with_capacity(10);
    data.start_element(
        "e",
        &vec![("k 1".to_string(), "v".to_string())],
        &opts,
    );
    assert_eq!(data.output(), "/e@[k 1=\"v\"]\n");
}

#[test]
fn attributes_mark_element_printed() {
    let opts = ProgramOpts::default();
    let mut data = ParserData::with_capacity(10);
    data.start_element("e", &vec![("a".to_string(), "1".to_string())], &opts);
    data.end_element("e");
    assert_eq!(data.output(), "/e@[a=\"1\"]\n");
}

#[test]
fn repeated_text_events_each_produce_a_line() {
    let opts = ProgramOpts::default();
    let mut data = ParserData::with_capacity(10);
    data.start_element("a", &no_attrs(), &opts);
    data.characters("one", &opts);
    data.characters("two", &opts);
    data.end_element("a");
    assert_eq!(data.output(), "/a=\"one\"\n/a=\"two\"\n");
}

#[test]
fn processing_instruction_line() {
    let opts = ProgramOpts::default();
    let mut data = ParserData::with_capacity(10);
    data.start_element("a", &no_attrs(), &opts);
    data.start_element("b", &no_attrs(), &opts);
    data.processing_instruction("target", "data here", &opts);
    data.end_element("b");
    data.end_element("a");
    assert_eq!(data.output(), "/a\n/a/b/target?[data here]\n/a/b\n");
}

#[test]
fn comment_line() {
    let opts = ProgramOpts::default();
    let mut data = ParserData::with_capacity(10);
    data.start_element("a", &no_attrs(), &opts);
    data.comment("note", &opts);
    data.end_element("a");
    assert_eq!(data.output(), "/a/![note]\n/a\n");
}

#[test]
fn pi_and_comment_do_not_mark_printed() {
    let opts = ProgramOpts::default();
    let mut data = ParserData::with_capacity(10);
    data.start_element("a", &no_attrs(), &opts);
    data.processing_instruction("t", "", &opts);
    data.comment("c", &opts);
    data.end_element("a");
    // the bare path is still owed and appears once, at close
    assert_eq!(data.output(), "/a/t?[]\n/a/![c]\n/a\n");
}

#[test]
fn sibling_elements_print_parent_once() {
    let opts = ProgramOpts::default();
    let mut data = ParserData::with_capacity(10);
    data.start_element("p", &no_attrs(), &opts);
    data.start_element("c1", &no_attrs(), &opts);
    data.end_element("c1");
    data.start_element("c2", &no_attrs(), &opts);
    data.end_element("c2");
    data.end_element("p");
    assert_eq!(data.output(), "/p\n/p/c1\n/p/c2\n");
}

#[test]
fn text_in_compressed_document() {
    let mut opts = ProgramOpts::default();
    opts.map_whitespace = true;
    opts.compress_whitespace = true;
    let mut data = ParserData::with_capacity(10);
    data.start_element("a", &no_attrs(), &opts);
    data.characters("    indented", &opts);
    data.end_element("a");
    assert_eq!(data.output(), "/a=\"\u{bb}indented\"\n");
}
