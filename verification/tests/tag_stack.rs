use xmlparse::ParserData;
use xmlparse::XmlTag;

#[test]
fn display_path_after_pushes_and_pop() {
    let mut data = ParserData::with_capacity(10);
    data.push_tag(XmlTag::from("a", false));
    data.push_tag(XmlTag::from("b", false));
    data.push_tag(XmlTag::from("c", false));
    {
        let (tags, _buf) = data.tags_and_buf_mut();
        assert_eq!(tags.display(), "/a/b/c");
    }
    data.pop_tag();
    {
        let (tags, _buf) = data.tags_and_buf_mut();
        assert_eq!(tags.display(), "/a/b");
    }
}

#[test]
fn display_of_empty_stack_is_empty() {
    let mut data = ParserData::with_capacity(0);
    let (tags, _buf) = data.tags_and_buf_mut();
    assert_eq!(tags.display(), "");
}

#[test]
fn last_tag_and_emptiness() {
    let mut data = ParserData::with_capacity(4);
    assert!(data.tags_is_empty());
    assert!(data.last_tag().is_none());
    assert!(data.pop_tag().is_none());
    data.push_tag(XmlTag::from("root", false));
    assert!(!data.tags_is_empty());
    let last = data.last_tag().unwrap();
    assert_eq!(last.name(), "root");
    assert!(!last.printed());
    let popped = data.pop_tag().unwrap();
    assert_eq!(popped.name(), "root");
    assert!(data.tags_is_empty());
}

#[test]
fn last_tag_mut_updates_printed_flag() {
    let mut data = ParserData::with_capacity(4);
    data.push_tag(XmlTag::from("a", false));
    data.last_tag_mut().unwrap().set_printed(true);
    assert!(data.last_tag().unwrap().printed());
}

#[test]
fn xml_tag_accessors() {
    let mut tag = XmlTag::from("name", false);
    assert_eq!(tag.name(), "name");
    assert!(!tag.printed());
    tag.set_printed(true);
    assert!(tag.printed());
    tag.set_printed(false);
    assert!(!tag.printed());
}

#[test]
fn print_last_tag_emits_once() {
    let mut data = ParserData::with_capacity(4);
    data.print_last_tag();
    assert_eq!(data.output(), "");
    data.push_tag(XmlTag::from("a", false));
    data.push_tag(XmlTag::from("b", false));
    data.print_last_tag();
    assert_eq!(data.output(), "/a/b\n");
    data.print_last_tag();
    assert_eq!(data.output(), "/a/b\n");
    assert!(data.last_tag().unwrap().printed());
}
