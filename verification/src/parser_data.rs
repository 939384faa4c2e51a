//! The tag stack and the event dispatcher.
//!
//! [`XmlTags`] is the ordered ancestor chain from the document root to the
//! innermost open element. [`ParserData`] couples that stack with the output
//! buffer and receives one structural parse event at a time, enforcing the
//! rule that each open element's bare path line is emitted at most once.

use vstd::prelude::*;

use crate::codec::formatted;
use crate::codec::is_only_whitespace;
use crate::codec::print_string;
use crate::codec::push_char;
use crate::codec::whitespace_only;
use crate::config::ProgramOpts;
use crate::xml_tag::TagView;
use crate::xml_tag::XmlTag;

verus! {

/// The path string of the given ancestor chain: each frame's name, root
/// first, preceded by a slash.
pub open spec fn path_of(tags: Seq<TagView>) -> Seq<char>
    decreases tags.len(),
{
    if tags.len() == 0 {
        Seq::empty()
    } else {
        path_of(tags.drop_last()) + seq!['/'] + tags.last().name
    }
}

/// The stack with its innermost frame's printed flag set.
pub open spec fn mark_last(tags: Seq<TagView>) -> Seq<TagView> {
    if tags.len() == 0 {
        tags
    } else {
        tags.update(tags.len() - 1, TagView { name: tags.last().name, printed: true })
    }
}

/// The bare path line the innermost frame is owed: its path and a line feed
/// when it is unprinted, nothing when it is already printed or no element is
/// open.
pub open spec fn bare_line(tags: Seq<TagView>) -> Seq<char> {
    if tags.len() > 0 && !tags.last().printed {
        path_of(tags) + seq!['\n']
    } else {
        Seq::empty()
    }
}

/// One attribute rendered: the key, unchanged, then `="` and the value passed
/// through the codec and a closing quote.
pub open spec fn attr_item(attr: (Seq<char>, Seq<char>), opts: ProgramOpts) -> Seq<char> {
    attr.0 + seq!['=', '"'] + formatted(attr.1, opts) + seq!['"']
}

/// All attributes rendered in order, separated by commas.
pub open spec fn attrs_body(attrs: Seq<(Seq<char>, Seq<char>)>, opts: ProgramOpts) -> Seq<char>
    decreases attrs.len(),
{
    if attrs.len() == 0 {
        Seq::empty()
    } else if attrs.len() == 1 {
        attr_item(attrs[0], opts)
    } else {
        attr_item(attrs[0], opts) + seq![','] + attrs_body(attrs.drop_first(), opts)
    }
}

/// The stack after an element-start event: the previous innermost frame is
/// marked printed, and the new frame is printed already exactly when the
/// element brought attributes.
pub open spec fn start_tags(tags: Seq<TagView>, name: Seq<char>, has_attrs: bool) -> Seq<TagView> {
    mark_last(tags).push(TagView { name, printed: has_attrs })
}

/// The text an element-start event appends: the parent's bare path line if it
/// was still owed, then, when the element brings attributes, its own path
/// annotated with them.
pub open spec fn start_out(
    tags: Seq<TagView>,
    name: Seq<char>,
    attrs: Seq<(Seq<char>, Seq<char>)>,
    opts: ProgramOpts,
) -> Seq<char> {
    bare_line(tags) + (if attrs.len() > 0 {
        path_of(start_tags(tags, name, true)) + seq!['@', '['] + attrs_body(attrs, opts) + seq![
            ']',
            '\n',
        ]
    } else {
        Seq::empty()
    })
}

/// Whether an element-end event's name matches the innermost open frame.
pub open spec fn end_matches(tags: Seq<TagView>, name: Seq<char>) -> bool {
    tags.len() > 0 && tags.last().name == name
}

/// The stack after an element-end event: the innermost frame is popped when
/// the name matches it; a mismatched end is ignored.
pub open spec fn end_tags(tags: Seq<TagView>, name: Seq<char>) -> Seq<TagView> {
    if end_matches(tags, name) {
        tags.drop_last()
    } else {
        tags
    }
}

/// The text an element-end event appends: the closing frame's bare path line
/// if it was still owed, nothing on a mismatch.
pub open spec fn end_out(tags: Seq<TagView>, name: Seq<char>) -> Seq<char> {
    if end_matches(tags, name) {
        bare_line(tags)
    } else {
        Seq::empty()
    }
}

/// Whether a character-data event is suppressed: the text is whitespace alone
/// and whitespace-only text nodes are not being kept.
pub open spec fn text_suppressed(text: Seq<char>, opts: ProgramOpts) -> bool {
    !opts.keep_all_whitespace && whitespace_only(text)
}

/// The stack after a character-data event: the innermost frame is marked
/// printed unless the event is suppressed.
pub open spec fn chars_tags(tags: Seq<TagView>, text: Seq<char>, opts: ProgramOpts) -> Seq<
    TagView,
> {
    if text_suppressed(text, opts) {
        tags
    } else {
        mark_last(tags)
    }
}

/// The text a character-data event appends: the innermost frame's path, `="`,
/// the text passed through the codec, and a closing quote; nothing when the
/// event is suppressed.
pub open spec fn chars_out(tags: Seq<TagView>, text: Seq<char>, opts: ProgramOpts) -> Seq<char> {
    if text_suppressed(text, opts) {
        Seq::empty()
    } else {
        path_of(tags) + seq!['=', '"'] + formatted(text, opts) + seq!['"', '\n']
    }
}

/// The text a processing-instruction event appends: the innermost frame's
/// path, a slash, the target, and the data passed through the codec in
/// `?[...]`.
pub open spec fn pi_out(
    tags: Seq<TagView>,
    target: Seq<char>,
    data: Seq<char>,
    opts: ProgramOpts,
) -> Seq<char> {
    path_of(tags) + seq!['/'] + target + seq!['?', '['] + formatted(data, opts) + seq![']', '\n']
}

/// The text a comment event appends: the innermost frame's path and the
/// comment passed through the codec in `/![...]`.
pub open spec fn comment_out(tags: Seq<TagView>, text: Seq<char>, opts: ProgramOpts) -> Seq<
    char,
> {
    path_of(tags) + seq!['/', '!', '['] + formatted(text, opts) + seq![']', '\n']
}

/// The views of a sequence of frames, in order.
pub open spec fn views_of(v: Seq<XmlTag>) -> Seq<TagView> {
    Seq::new(v.len(), |i: int| v[i]@)
}

pub broadcast proof fn lemma_views_of_update(v: Seq<XmlTag>, i: int, x: XmlTag)
    requires
        0 <= i < v.len(),
    ensures
        #[trigger] views_of(v.update(i, x)) == views_of(v).update(i, x@),
{
    assert(views_of(v.update(i, x)) =~= views_of(v).update(i, x@));
}

/// The ordered sequence of open-element frames, root first.
pub struct XmlTags(Vec<XmlTag>);

impl View for XmlTags {
    type V = Seq<TagView>;

    closed spec fn view(&self) -> Seq<TagView> {
        views_of(self.0@)
    }
}

impl XmlTags {
    /// The path string of the stack: each frame's name, root first, preceded
    /// by a slash.
    pub fn display(&self) -> (r: String)
        ensures
            r@ == path_of(self@),
    {
        let mut out = String::new();
        let n = self.0.len();
        let mut i: usize = 0;
        proof {
            assert(self@.take(0) =~= Seq::<TagView>::empty());
        }
        while i < n
            invariant
                i <= n,
                n == self.0.len(),
                self@.len() == n,
                out@ == path_of(self@.take(i as int)),
            decreases n - i,
        {
            out.append("/");
            out.append(self.0[i].name());
            proof {
                reveal_strlit("/");
                assert(self@[i as int] == self.0@[i as int]@);
                assert(self@.take(i + 1).drop_last() =~= self@.take(i as int));
                assert(self@.take(i + 1).last() == self@[i as int]);
                assert(out@ =~= path_of(self@.take(i as int)) + seq!['/'] + self@[i as int].name);
                assert(out@ =~= path_of(self@.take(i + 1)));
            }
            i += 1;
        }
        proof {
            assert(self@.take(n as int) =~= self@);
        }
        out
    }
}

/// The mathematical view of the dispatcher state: the ancestor chain and the
/// text emitted so far.
#[verifier::ext_equal]
pub struct ParserDataView {
    /// The open-element frames, root first.
    pub tags: Seq<TagView>,
    /// Everything written to the output buffer so far.
    pub out: Seq<char>,
}

/// The dispatcher state for one parse pass: the tag stack and the output
/// buffer the emitted lines are appended to.
pub struct ParserData {
    tags: XmlTags,
    write_buf: String,
}

impl View for ParserData {
    type V = ParserDataView;

    closed spec fn view(&self) -> ParserDataView {
        ParserDataView { tags: self.tags@, out: self.write_buf@ }
    }
}

impl ParserData {
    /// A fresh state: no open element, nothing emitted. The capacity is a
    /// hint for the stack's allocation only.
    pub fn with_capacity(cap: usize) -> (r: Self)
        ensures
            r@.tags == Seq::<TagView>::empty(),
            r@.out == Seq::<char>::empty(),
    {
        let r = ParserData { tags: XmlTags(Vec::with_capacity(cap)), write_buf: String::new() };
        proof {
            assert(r@.tags =~= Seq::<TagView>::empty());
        }
        r
    }

    /// Borrows the tag stack and the output buffer at once.
    pub fn tags_and_buf_mut(&mut self) -> (r: (&mut XmlTags, &mut String))
        ensures
            r.0@ == old(self)@.tags,
            r.1@ == old(self)@.out,
            final(self)@.tags == final(r.0)@,
            final(self)@.out == final(r.1)@,
    {
        (&mut self.tags, &mut self.write_buf)
    }

    /// The innermost open element, or none if the stack is empty.
    pub fn last_tag(&self) -> (r: Option<&XmlTag>)
        ensures
            match r {
                Some(t) => self@.tags.len() > 0 && t@ == self@.tags.last(),
                None => self@.tags.len() == 0,
            },
    {
        let r = self.tags.0.last();
        proof {
            if self.tags.0@.len() > 0 {
                assert(self@.tags.last() == self.tags.0@.last()@);
            }
        }
        r
    }

    /// The innermost open element for mutation, or none if the stack is empty.
    pub fn last_tag_mut(&mut self) -> (r: Option<&mut XmlTag>)
        ensures
            old(self)@.tags.len() == 0 ==> r is None && final(self)@ == old(self)@,
            old(self)@.tags.len() > 0 ==> r is Some && r.unwrap()@ == old(self)@.tags.last()
                && final(self)@.tags == old(self)@.tags.update(
                old(self)@.tags.len() - 1,
                final(r.unwrap())@,
            ) && final(self)@.out == old(self)@.out,
    {
        broadcast use lemma_views_of_update;

        let n = self.tags.0.len();
        if n == 0 {
            None
        } else {
            let t = &mut self.tags.0[n - 1];
            Some(t)
        }
    }

    /// Appends a new frame; the output is unchanged.
    pub fn push_tag(&mut self, node: XmlTag)
        ensures
            final(self)@.tags == old(self)@.tags.push(node@),
            final(self)@.out == old(self)@.out,
    {
        let ghost v = node@;
        self.tags.0.push(node);
        proof {
            assert(self@.tags =~= old(self)@.tags.push(v));
        }
    }

    /// Removes and returns the innermost frame; the output is unchanged.
    pub fn pop_tag(&mut self) -> (r: Option<XmlTag>)
        ensures
            old(self)@.tags.len() == 0 ==> r is None && final(self)@ == old(self)@,
            old(self)@.tags.len() > 0 ==> r is Some && r.unwrap()@ == old(self)@.tags.last()
                && final(self)@.tags == old(self)@.tags.drop_last() && final(self)@.out == old(
                self,
            )@.out,
    {
        let r = self.tags.0.pop();
        proof {
            if old(self)@.tags.len() > 0 {
                assert(self@.tags =~= old(self)@.tags.drop_last());
            } else {
                assert(self@.tags =~= old(self)@.tags);
            }
        }
        r
    }

    /// The text emitted so far.
    pub fn output(&self) -> (r: &String)
        ensures
            r@ == self@.out,
    {
        &self.write_buf
    }

    /// Whether no element is open.
    pub fn tags_is_empty(&self) -> (r: bool)
        ensures
            r == (self@.tags.len() == 0),
    {
        self.tags.0.is_empty()
    }

    /// Emits the innermost frame's bare path line and marks it printed, if the
    /// frame exists and is still unprinted; otherwise does nothing. This is
    /// the only place a bare path line is ever written.
    pub fn print_last_tag(&mut self)
        ensures
            final(self)@.tags == mark_last(old(self)@.tags),
            final(self)@.out == old(self)@.out + bare_line(old(self)@.tags),
    {
        if self.tags_is_empty() {
            proof {
                assert(self@.out =~= old(self)@.out + bare_line(old(self)@.tags));
            }
            return ;
        }
        let n = self.tags.0.len();
        let already = self.tags.0[n - 1].printed();
        proof {
            assert(self@.tags[n - 1] == self.tags.0@[n - 1]@);
            assert(self@.tags.last() == self@.tags[n - 1]);
        }
        if already {
            proof {
                assert(self@.tags =~= mark_last(old(self)@.tags));
                assert(self@.out =~= old(self)@.out + bare_line(old(self)@.tags));
            }
            return ;
        }
        let line = self.tags.display();
        self.write_buf.append(line.as_str());
        push_char(&mut self.write_buf, '\n');
        let t = &mut self.tags.0[n - 1];
        t.set_printed(true);
        proof {
            assert(self@.tags =~= mark_last(old(self)@.tags));
            assert(self@.out =~= old(self)@.out + bare_line(old(self)@.tags));
        }
    }

    /// Marks the innermost frame printed without writing anything.
    fn mark_last_printed(&mut self)
        requires
            old(self)@.tags.len() > 0,
        ensures
            final(self)@.tags == mark_last(old(self)@.tags),
            final(self)@.out == old(self)@.out,
    {
        broadcast use lemma_views_of_update;

        let n = self.tags.0.len();
        let t = &mut self.tags.0[n - 1];
        t.set_printed(true);
    }

    /// Element-start event: the parent's bare path line is emitted if still
    /// owed, a frame for the new element is pushed, and, when the element
    /// brings attributes, its own path is written at once, annotated with the
    /// keys and codec-formatted values, and the new frame is marked printed.
    /// With no attributes the new frame's path emission is deferred to a
    /// future child, text, or its own close.
    pub fn start_element(&mut self, name: &str, attrs: &Vec<(String, String)>, opts: &ProgramOpts)
        requires
            opts.wf(),
        ensures
            final(self)@.tags == start_tags(
                old(self)@.tags,
                name@,
                attrs.deep_view().len() > 0,
            ),
            final(self)@.out == old(self)@.out + start_out(
                old(self)@.tags,
                name@,
                attrs.deep_view(),
                *opts,
            ),
    {
        self.print_last_tag();
        self.push_tag(XmlTag::from(name, false));
        let n_attrs = attrs.len();
        proof {
            assert(attrs.deep_view().len() == attrs@.len());
        }
        if n_attrs == 0 {
            proof {
                assert(self@.out =~= old(self)@.out + start_out(
                    old(self)@.tags,
                    name@,
                    attrs.deep_view(),
                    *opts,
                ));
            }
            return ;
        }
        let ghost mid_tags = self@.tags;
        let path = self.tags.display();
        proof {
            let m = mark_last(old(self)@.tags);
            let t_false = (TagView { name: name@, printed: false });
            let t_true = (TagView { name: name@, printed: true });
            assert(m.push(t_false).drop_last() =~= m);
            assert(m.push(t_true).drop_last() =~= m);
            assert(path_of(m.push(t_false)) == path_of(m) + seq!['/'] + name@);
            assert(path_of(m.push(t_true)) == path_of(m) + seq!['/'] + name@);
            assert(path@ == path_of(start_tags(old(self)@.tags, name@, true)));
        }
        self.write_buf.append(path.as_str());
        push_char(&mut self.write_buf, '@');
        push_char(&mut self.write_buf, '[');
        let ghost base = self.write_buf@;
        let mut i: usize = 0;
        proof {
            assert(attrs.deep_view().skip(0) =~= attrs.deep_view());
        }
        while i < n_attrs
            invariant
                opts.wf(),
                i <= n_attrs,
                n_attrs == attrs@.len(),
                n_attrs == attrs.deep_view().len(),
                self@.tags == mid_tags,
                self@.out + attrs_body(attrs.deep_view().skip(i as int), *opts) == base
                    + attrs_body(attrs.deep_view(), *opts),
            decreases n_attrs - i,
        {
            let ghost ds = attrs.deep_view();
            proof {
                assert(ds[i as int] == (attrs@[i as int].0.deep_view(), attrs@[
                    i as int
                ].1.deep_view()));
                assert(ds.skip(i as int)[0] == ds[i as int]);
                assert(ds.skip(i as int).drop_first() =~= ds.skip(i + 1));
            }
            let pair = &attrs[i];
            let ghost before = self.write_buf@;
            self.write_buf.append(pair.0.as_str());
            push_char(&mut self.write_buf, '=');
            push_char(&mut self.write_buf, '"');
            print_string(&mut self.write_buf, pair.1.as_str(), opts);
            push_char(&mut self.write_buf, '"');
            if i + 1 != n_attrs {
                push_char(&mut self.write_buf, ',');
                proof {
                    assert(attrs_body(ds.skip(i as int), *opts) == attr_item(ds[i as int], *opts)
                        + seq![','] + attrs_body(ds.skip(i + 1), *opts));
                    assert(self.write_buf@ =~= before + attr_item(ds[i as int], *opts) + seq![
                        ',',
                    ]);
                }
            } else {
                proof {
                    assert(ds.skip(i as int).len() == 1);
                    assert(attrs_body(ds.skip(i as int), *opts) == attr_item(ds[i as int], *opts));
                    assert(ds.skip(i + 1).len() == 0);
                    assert(self.write_buf@ =~= before + attr_item(ds[i as int], *opts));
                }
            }
            proof {
                assert(self.write_buf@ + attrs_body(ds.skip(i + 1), *opts) =~= before + attrs_body(
                    ds.skip(i as int),
                    *opts,
                ));
            }
            i += 1;
        }
        push_char(&mut self.write_buf, ']');
        push_char(&mut self.write_buf, '\n');
        self.mark_last_printed();
        proof {
            assert(attrs.deep_view().skip(n_attrs as int) =~= Seq::<(Seq<char>, Seq<char>)>::empty());
            assert(mark_last(mid_tags) =~= start_tags(old(self)@.tags, name@, true));
            assert(self@.out =~= old(self)@.out + start_out(
                old(self)@.tags,
                name@,
                attrs.deep_view(),
                *opts,
            ));
        }
    }

    /// Element-end event: when the supplied name matches the innermost open
    /// frame, its bare path line is emitted if still owed and the frame is
    /// popped; a mismatched end is ignored entirely, a deliberate leniency
    /// toward malformed event streams.
    pub fn end_element(&mut self, name: &str)
        requires
            old(self)@.tags.len() > 0,
        ensures
            final(self)@.tags == end_tags(old(self)@.tags, name@),
            final(self)@.out == old(self)@.out + end_out(old(self)@.tags, name@),
    {
        let is_match = match self.last_tag() {
            Some(t) => str_eq(t.name(), name),
            None => false,
        };
        if !is_match {
            proof {
                assert(self@.out =~= old(self)@.out + end_out(old(self)@.tags, name@));
            }
            return ;
        }
        self.print_last_tag();
        self.pop_tag();
        proof {
            assert(mark_last(old(self)@.tags).drop_last() =~= old(self)@.tags.drop_last());
        }
    }

    /// Character-data event: whitespace-only text is suppressed unless all
    /// whitespace is being kept; otherwise the innermost frame's path is
    /// written with the codec-formatted text in quotes, and the frame is
    /// marked printed, so its bare path line is never emitted separately.
    pub fn characters(&mut self, chars: &str, opts: &ProgramOpts)
        requires
            opts.wf(),
            old(self)@.tags.len() == 0 ==> text_suppressed(chars@, *opts),
        ensures
            final(self)@.tags == chars_tags(old(self)@.tags, chars@, *opts),
            final(self)@.out == old(self)@.out + chars_out(old(self)@.tags, chars@, *opts),
    {
        if !opts.keep_all_whitespace && is_only_whitespace(chars) {
            proof {
                assert(self@.out =~= old(self)@.out + chars_out(old(self)@.tags, chars@, *opts));
            }
            return ;
        }
        let path = self.tags.display();
        self.write_buf.append(path.as_str());
        push_char(&mut self.write_buf, '=');
        push_char(&mut self.write_buf, '"');
        print_string(&mut self.write_buf, chars, opts);
        push_char(&mut self.write_buf, '"');
        push_char(&mut self.write_buf, '\n');
        self.mark_last_printed();
        proof {
            assert(self@.out =~= old(self)@.out + chars_out(old(self)@.tags, chars@, *opts));
        }
    }

    /// Processing-instruction event: the innermost frame's path, a slash, the
    /// target, and the codec-formatted data in `?[...]` are written; no
    /// frame's printed flag changes.
    pub fn processing_instruction(&mut self, target: &str, data: &str, opts: &ProgramOpts)
        requires
            opts.wf(),
        ensures
            final(self)@.tags == old(self)@.tags,
            final(self)@.out == old(self)@.out + pi_out(old(self)@.tags, target@, data@, *opts),
    {
        let path = self.tags.display();
        self.write_buf.append(path.as_str());
        push_char(&mut self.write_buf, '/');
        self.write_buf.append(target);
        push_char(&mut self.write_buf, '?');
        push_char(&mut self.write_buf, '[');
        print_string(&mut self.write_buf, data, opts);
        push_char(&mut self.write_buf, ']');
        push_char(&mut self.write_buf, '\n');
        proof {
            assert(self@.out =~= old(self)@.out + pi_out(old(self)@.tags, target@, data@, *opts));
        }
    }

    /// Comment event: the innermost frame's path and the codec-formatted
    /// comment text in `/![...]` are written; no frame's printed flag changes.
    pub fn comment(&mut self, text: &str, opts: &ProgramOpts)
        requires
            opts.wf(),
        ensures
            final(self)@.tags == old(self)@.tags,
            final(self)@.out == old(self)@.out + comment_out(old(self)@.tags, text@, *opts),
    {
        let path = self.tags.display();
        self.write_buf.append(path.as_str());
        push_char(&mut self.write_buf, '/');
        push_char(&mut self.write_buf, '!');
        push_char(&mut self.write_buf, '[');
        print_string(&mut self.write_buf, text, opts);
        push_char(&mut self.write_buf, ']');
        push_char(&mut self.write_buf, '\n');
        proof {
            assert(self@.out =~= old(self)@.out + comment_out(old(self)@.tags, text@, *opts));
        }
    }
}

/// Whether two strings hold the same characters.
fn str_eq(a: &str, b: &str) -> (r: bool)
    ensures
        r == (a@ == b@),
{
    let la = a.unicode_len();
    let lb = b.unicode_len();
    if la != lb {
        return false;
    }
    let mut i: usize = 0;
    while i < la
        invariant
            i <= la,
            la == a@.len(),
            la == b@.len(),
            forall|j: int| 0 <= j < i ==> a@[j] == b@[j],
        decreases la - i,
    {
        if a.get_char(i) != b.get_char(i) {
            return false;
        }
        i += 1;
    }
    proof {
        assert(a@ =~= b@);
    }
    true
}

} // verus!
