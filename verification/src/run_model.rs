//! A ghost model of one whole parse pass, used to state and prove the
//! document-level laws of the dispatcher.
//!
//! The dispatcher's per-event contracts say what one call does to the stack
//! and the output. This module replays a whole sequence of events over those
//! same transitions, giving each frame a birth identity so that "this
//! element's bare path line" is meaningful across its lifetime, and proves:
//! every element's bare path line is emitted at most once; a frame marked
//! printed has always had its path contributed to the emitted text; and every
//! annotated emission carries the path of the element it is associated with.

use vstd::prelude::*;

use crate::config::ProgramOpts;
use crate::parser_data::attrs_body;
use crate::parser_data::bare_line;
use crate::parser_data::chars_out;
use crate::parser_data::chars_tags;
use crate::parser_data::comment_out;
use crate::parser_data::end_out;
use crate::parser_data::end_tags;
use crate::parser_data::mark_last;
use crate::parser_data::path_of;
use crate::parser_data::pi_out;
use crate::parser_data::start_tags;
use crate::parser_data::start_out;
use crate::parser_data::text_suppressed;
use crate::xml_tag::TagView;

verus! {

/// One structural parse event, as the external parser delivers them in
/// document order.
pub enum ParseEvent {
    /// Element start with its name and attribute key/value pairs.
    Start { name: Seq<char>, attrs: Seq<(Seq<char>, Seq<char>)> },
    /// Element end with the name the parser supplied.
    End { name: Seq<char> },
    /// Character data.
    Text { text: Seq<char> },
    /// Processing instruction with target and data.
    Pi { target: Seq<char>, data: Seq<char> },
    /// Comment text.
    Comment { text: Seq<char> },
}

/// One open element in the model: what the dispatcher tracks, plus a birth
/// identity that tells frames apart across the whole run.
pub struct RunFrame {
    /// The element's tag name.
    pub name: Seq<char>,
    /// Whether the frame's path line has been written already.
    pub printed: bool,
    /// The frame's birth identity: the count of frames pushed before it.
    pub id: nat,
}

/// The model state: the open frames, root first, and the next fresh identity.
pub struct RunState {
    /// The open-element frames, root first.
    pub frames: Seq<RunFrame>,
    /// The identity the next pushed frame receives.
    pub next_id: nat,
}

/// The state a parse pass starts in: no open element, no frame born yet.
pub open spec fn init_state() -> RunState {
    RunState { frames: Seq::empty(), next_id: 0 }
}

/// What the dispatcher sees of a model frame.
pub open spec fn frame_view(f: RunFrame) -> TagView {
    TagView { name: f.name, printed: f.printed }
}

/// The dispatcher's stack corresponding to a model state.
pub open spec fn run_tags(st: RunState) -> Seq<TagView> {
    st.frames.map_values(|f: RunFrame| frame_view(f))
}

/// The frames with the innermost one's printed flag set.
pub open spec fn mark_last_frames(frames: Seq<RunFrame>) -> Seq<RunFrame> {
    if frames.len() == 0 {
        frames
    } else {
        frames.update(
            frames.len() - 1,
            RunFrame { name: frames.last().name, printed: true, id: frames.last().id },
        )
    }
}

/// One step of the model: how an event changes the open frames, mirroring the
/// dispatcher's transitions frame for frame.
pub open spec fn step(st: RunState, ev: ParseEvent, opts: ProgramOpts) -> RunState {
    match ev {
        ParseEvent::Start { name, attrs } => RunState {
            frames: mark_last_frames(st.frames).push(
                RunFrame { name, printed: attrs.len() > 0, id: st.next_id },
            ),
            next_id: st.next_id + 1,
        },
        ParseEvent::End { name } => if st.frames.len() > 0 && st.frames.last().name == name {
            RunState { frames: st.frames.drop_last(), next_id: st.next_id }
        } else {
            st
        },
        ParseEvent::Text { text } => if text_suppressed(text, opts) {
            st
        } else {
            RunState { frames: mark_last_frames(st.frames), next_id: st.next_id }
        },
        ParseEvent::Pi { target, data } => st,
        ParseEvent::Comment { text } => st,
    }
}

/// The identity of the frame whose bare path line the event emits, if any:
/// an element start unlocks its parent's owed line, a matching element end
/// emits the closing frame's owed line. No other event writes a bare line.
pub open spec fn bare_emit(st: RunState, ev: ParseEvent) -> Option<nat> {
    match ev {
        ParseEvent::Start { name, attrs } => if st.frames.len() > 0 && !st.frames.last().printed {
            Some(st.frames.last().id)
        } else {
            None
        },
        ParseEvent::End { name } => if st.frames.len() > 0 && st.frames.last().name == name
            && !st.frames.last().printed {
            Some(st.frames.last().id)
        } else {
            None
        },
        ParseEvent::Text { text } => None,
        ParseEvent::Pi { target, data } => None,
        ParseEvent::Comment { text } => None,
    }
}

/// The model state after a whole event sequence.
pub open spec fn run(st: RunState, evs: Seq<ParseEvent>, opts: ProgramOpts) -> RunState
    decreases evs.len(),
{
    if evs.len() == 0 {
        st
    } else {
        run(step(st, evs[0], opts), evs.drop_first(), opts)
    }
}

/// How many events of the sequence emit the bare path line of the frame with
/// the given identity.
pub open spec fn bare_count(st: RunState, evs: Seq<ParseEvent>, id: nat, opts: ProgramOpts) -> nat
    decreases evs.len(),
{
    if evs.len() == 0 {
        0
    } else {
        (if bare_emit(st, evs[0]) == Some(id) {
            1nat
        } else {
            0nat
        }) + bare_count(step(st, evs[0], opts), evs.drop_first(), id, opts)
    }
}

/// Model well-formedness: every live frame was born before `next_id`, and no
/// two live frames share an identity.
pub open spec fn state_inv(st: RunState) -> bool {
    &&& forall|i: int| 0 <= i < st.frames.len() ==> (#[trigger] st.frames[i].id) < st.next_id
    &&& forall|i: int, j: int|
        0 <= i < j < st.frames.len() ==> (#[trigger] st.frames[i].id) != (#[trigger] st.frames[j].id)
}

/// The frame with this identity, if live, already has its path line printed.
/// A popped or never-born identity is settled vacuously: its line can never
/// be emitted again.
pub open spec fn settled(st: RunState, id: nat) -> bool {
    forall|i: int|
        0 <= i < st.frames.len() && (#[trigger] st.frames[i].id) == id ==> st.frames[i].printed
}

pub proof fn lemma_inv_step(st: RunState, ev: ParseEvent, opts: ProgramOpts)
    requires
        state_inv(st),
    ensures
        state_inv(step(st, ev, opts)),
        st.next_id <= step(st, ev, opts).next_id,
{
}

pub proof fn lemma_settled_step(st: RunState, ev: ParseEvent, id: nat, opts: ProgramOpts)
    requires
        state_inv(st),
        id < st.next_id,
        settled(st, id),
    ensures
        settled(step(st, ev, opts), id),
{
}

pub proof fn lemma_emit_settles(st: RunState, ev: ParseEvent, id: nat, opts: ProgramOpts)
    requires
        state_inv(st),
        bare_emit(st, ev) == Some(id),
    ensures
        id < st.next_id,
        settled(step(st, ev, opts), id),
{
}

/// A settled identity's bare line is never emitted again, whatever events
/// follow.
pub proof fn lemma_settled_no_more(st: RunState, evs: Seq<ParseEvent>, id: nat, opts: ProgramOpts)
    requires
        state_inv(st),
        id < st.next_id,
        settled(st, id),
    ensures
        bare_count(st, evs, id, opts) == 0,
    decreases evs.len(),
{
    if evs.len() > 0 {
        let st2 = step(st, evs[0], opts);
        lemma_inv_step(st, evs[0], opts);
        lemma_settled_step(st, evs[0], id, opts);
        lemma_settled_no_more(st2, evs.drop_first(), id, opts);
    }
}

/// Law: over any event sequence from any well-formed state, each element's
/// bare path line is emitted at most once.
pub proof fn lemma_single_print(st: RunState, evs: Seq<ParseEvent>, id: nat, opts: ProgramOpts)
    requires
        state_inv(st),
    ensures
        bare_count(st, evs, id, opts) <= 1,
    decreases evs.len(),
{
    if evs.len() > 0 {
        let st2 = step(st, evs[0], opts);
        lemma_inv_step(st, evs[0], opts);
        if bare_emit(st, evs[0]) == Some(id) {
            lemma_emit_settles(st, evs[0], id, opts);
            lemma_settled_no_more(st2, evs.drop_first(), id, opts);
        } else {
            lemma_single_print(st2, evs.drop_first(), id, opts);
        }
    }
}

/// Law: over any full event sequence from the start of a document, each
/// element's bare path line is emitted at most once.
pub proof fn lemma_single_print_from_start(evs: Seq<ParseEvent>, id: nat, opts: ProgramOpts)
    ensures
        bare_count(init_state(), evs, id, opts) <= 1,
{
    lemma_single_print(init_state(), evs, id, opts);
}

/// The model's stack, seen through the dispatcher's eyes, moves exactly as
/// the dispatcher's per-event contracts say it does.
pub proof fn lemma_model_matches_dispatcher(st: RunState, ev: ParseEvent, opts: ProgramOpts)
    ensures
        run_tags(step(st, ev, opts)) == (match ev {
            ParseEvent::Start { name, attrs } => start_tags(run_tags(st), name, attrs.len() > 0),
            ParseEvent::End { name } => end_tags(run_tags(st), name),
            ParseEvent::Text { text } => chars_tags(run_tags(st), text, opts),
            ParseEvent::Pi { target, data } => run_tags(st),
            ParseEvent::Comment { text } => run_tags(st),
        }),
{
    let tags = run_tags(st);
    if st.frames.len() > 0 {
        assert(tags.last() == frame_view(st.frames.last()));
    }
    assert(run_tags(RunState { frames: mark_last_frames(st.frames), next_id: st.next_id }) =~=
    mark_last(tags));
    match ev {
        ParseEvent::Start { name, attrs } => {
            assert(run_tags(step(st, ev, opts)) =~= start_tags(tags, name, attrs.len() > 0));
        },
        ParseEvent::End { name } => {
            if st.frames.len() > 0 && st.frames.last().name == name {
                assert(run_tags(step(st, ev, opts)) =~= tags.drop_last());
            }
            assert(run_tags(step(st, ev, opts)) =~= end_tags(tags, name));
        },
        ParseEvent::Text { text } => {
            assert(run_tags(step(st, ev, opts)) =~= chars_tags(tags, text, opts));
        },
        ParseEvent::Pi { target, data } => {
        },
        ParseEvent::Comment { text } => {
        },
    }
}

/// An event emits a bare path line in the model exactly when the text the
/// dispatcher appends for it includes one.
pub proof fn lemma_bare_emit_matches_output(st: RunState, ev: ParseEvent, opts: ProgramOpts)
    ensures
        match ev {
            ParseEvent::Start { name, attrs } => bare_emit(st, ev) is Some <==> bare_line(
                run_tags(st),
            ).len() > 0,
            ParseEvent::End { name } => bare_emit(st, ev) is Some <==> end_out(
                run_tags(st),
                name,
            ).len() > 0,
            ParseEvent::Text { text } => bare_emit(st, ev) is None,
            ParseEvent::Pi { target, data } => bare_emit(st, ev) is None,
            ParseEvent::Comment { text } => bare_emit(st, ev) is None,
        },
{
    let tags = run_tags(st);
    if st.frames.len() > 0 {
        assert(tags.last() == frame_view(st.frames.last()));
    }
}

/// Whether `sub` occurs inside `s` as a contiguous run.
pub open spec fn appears(s: Seq<char>, sub: Seq<char>) -> bool {
    exists|i: int|
        0 <= i && i + sub.len() <= s.len() && #[trigger] s.subrange(i, i + sub.len()) == sub
}

proof fn lemma_appears_witness(s: Seq<char>, k: int, sub: Seq<char>)
    requires
        0 <= k,
        k + sub.len() <= s.len(),
        s.subrange(k, k + sub.len()) == sub,
    ensures
        appears(s, sub),
{
}

proof fn lemma_appears_extend(s: Seq<char>, t: Seq<char>, sub: Seq<char>)
    requires
        appears(s, sub),
    ensures
        appears(s + t, sub),
{
    let k = choose|i: int|
        0 <= i && i + sub.len() <= s.len() && #[trigger] s.subrange(i, i + sub.len()) == sub;
    assert((s + t).subrange(k, k + sub.len()) =~= s.subrange(k, k + sub.len()));
    lemma_appears_witness(s + t, k, sub);
}

/// The path depends on the frames' names alone, never on their printed flags.
proof fn lemma_path_of_names(t1: Seq<TagView>, t2: Seq<TagView>)
    requires
        t1.len() == t2.len(),
        forall|i: int| 0 <= i < t1.len() ==> (#[trigger] t1[i]).name == t2[i].name,
    ensures
        path_of(t1) == path_of(t2),
    decreases t1.len(),
{
    if t1.len() > 0 {
        lemma_path_of_names(t1.drop_last(), t2.drop_last());
    }
}

/// The text the dispatcher appends for one event, per its contracts.
pub open spec fn step_out(st: RunState, ev: ParseEvent, opts: ProgramOpts) -> Seq<char> {
    match ev {
        ParseEvent::Start { name, attrs } => start_out(run_tags(st), name, attrs, opts),
        ParseEvent::End { name } => end_out(run_tags(st), name),
        ParseEvent::Text { text } => chars_out(run_tags(st), text, opts),
        ParseEvent::Pi { target, data } => pi_out(run_tags(st), target, data, opts),
        ParseEvent::Comment { text } => comment_out(run_tags(st), text, opts),
    }
}

/// Everything the dispatcher appends over a whole event sequence.
pub open spec fn run_output(st: RunState, evs: Seq<ParseEvent>, opts: ProgramOpts) -> Seq<char>
    decreases evs.len(),
{
    if evs.len() == 0 {
        Seq::empty()
    } else {
        step_out(st, evs[0], opts) + run_output(step(st, evs[0], opts), evs.drop_first(), opts)
    }
}

/// Every live frame marked printed has its path occurring in the text
/// emitted so far: the meaning of the printed flag.
pub open spec fn printed_paths_appear(st: RunState, out: Seq<char>) -> bool {
    forall|i: int|
        0 <= i < st.frames.len() && (#[trigger] st.frames[i]).printed ==> appears(
            out,
            path_of(run_tags(st).take(i + 1)),
        )
}

proof fn lemma_printed_paths_step(st: RunState, ev: ParseEvent, out: Seq<char>, opts: ProgramOpts)
    requires
        printed_paths_appear(st, out),
    ensures
        printed_paths_appear(step(st, ev, opts), out + step_out(st, ev, opts)),
{
    let tags = run_tags(st);
    let st2 = step(st, ev, opts);
    let tags2 = run_tags(st2);
    let app = step_out(st, ev, opts);
    let out2 = out + app;
    let n = st.frames.len() as int;
    if n > 0 {
        assert(tags.last() == frame_view(st.frames.last()));
    }
    assert forall|i: int|
        0 <= i < st2.frames.len() && (#[trigger] st2.frames[i]).printed implies appears(
        out2,
        path_of(run_tags(st2).take(i + 1)),
    ) by {
        match ev {
            ParseEvent::Start { name, attrs } => {
                if i < n - 1 {
                    assert(st2.frames[i] == st.frames[i]);
                    assert(tags2.take(i + 1) =~= tags.take(i + 1));
                    lemma_appears_extend(out, app, path_of(tags.take(i + 1)));
                } else if i == n - 1 {
                    assert(tags2.take(i + 1).len() == tags.take(i + 1).len());
                    lemma_path_of_names(tags2.take(i + 1), tags.take(i + 1));
                    if st.frames[i].printed {
                        lemma_appears_extend(out, app, path_of(tags.take(i + 1)));
                    } else {
                        assert(tags.take(i + 1) =~= tags);
                        assert(app == (path_of(tags) + seq!['\n']) + (if attrs.len() > 0 {
                            path_of(start_tags(tags, name, true)) + seq!['@', '['] + attrs_body(
                                attrs,
                                opts,
                            ) + seq![']', '\n']
                        } else {
                            Seq::<char>::empty()
                        }));
                        let k = out.len() as int;
                        assert(out2.subrange(k, k + path_of(tags).len()) =~= path_of(tags));
                        lemma_appears_witness(out2, k, path_of(tags));
                    }
                } else {
                    assert(i == n);
                    assert(st2.frames[i].printed == (attrs.len() > 0));
                    let child = path_of(start_tags(tags, name, true));
                    let k = out.len() + bare_line(tags).len();
                    assert(out2.subrange(k as int, k as int + child.len()) =~= child);
                    lemma_appears_witness(out2, k as int, child);
                    assert(tags2.take(i + 1) =~= tags2);
                    lemma_model_matches_dispatcher(st, ev, opts);
                    lemma_path_of_names(tags2, start_tags(tags, name, true));
                }
            },
            ParseEvent::End { name } => {
                if st.frames.len() > 0 && st.frames.last().name == name {
                    assert(st2.frames[i] == st.frames[i]);
                    assert(tags2.take(i + 1) =~= tags.take(i + 1));
                    lemma_appears_extend(out, app, path_of(tags.take(i + 1)));
                } else {
                    assert(st2 == st);
                    lemma_appears_extend(out, app, path_of(tags.take(i + 1)));
                }
            },
            ParseEvent::Text { text } => {
                if text_suppressed(text, opts) {
                    assert(st2 == st);
                    lemma_appears_extend(out, app, path_of(tags.take(i + 1)));
                } else if i < n - 1 {
                    assert(st2.frames[i] == st.frames[i]);
                    assert(tags2.take(i + 1) =~= tags.take(i + 1));
                    lemma_appears_extend(out, app, path_of(tags.take(i + 1)));
                } else {
                    assert(i == n - 1);
                    assert(tags2.take(i + 1).len() == tags.take(i + 1).len());
                    lemma_path_of_names(tags2.take(i + 1), tags.take(i + 1));
                    if st.frames[i].printed {
                        lemma_appears_extend(out, app, path_of(tags.take(i + 1)));
                    } else {
                        assert(tags.take(i + 1) =~= tags);
                        let k = out.len() as int;
                        assert(out2.subrange(k, k + path_of(tags).len()) =~= path_of(tags));
                        lemma_appears_witness(out2, k, path_of(tags));
                    }
                }
            },
            ParseEvent::Pi { target, data } => {
                assert(st2 == st);
                lemma_appears_extend(out, app, path_of(tags.take(i + 1)));
            },
            ParseEvent::Comment { text } => {
                assert(st2 == st);
                lemma_appears_extend(out, app, path_of(tags.take(i + 1)));
            },
        }
    }
}

proof fn lemma_printed_paths_run(
    st: RunState,
    evs: Seq<ParseEvent>,
    out: Seq<char>,
    opts: ProgramOpts,
)
    requires
        printed_paths_appear(st, out),
    ensures
        printed_paths_appear(run(st, evs, opts), out + run_output(st, evs, opts)),
    decreases evs.len(),
{
    if evs.len() == 0 {
        assert(out + run_output(st, evs, opts) =~= out);
    } else {
        let st2 = step(st, evs[0], opts);
        let app = step_out(st, evs[0], opts);
        lemma_printed_paths_step(st, evs[0], out, opts);
        lemma_printed_paths_run(st2, evs.drop_first(), out + app, opts);
        assert((out + app) + run_output(st2, evs.drop_first(), opts) =~= out + run_output(
            st,
            evs,
            opts,
        ));
    }
}

/// Law: after any whole run from the start of a document, every frame marked
/// printed has had its path contributed to the emitted text at least once,
/// bare or annotated.
pub proof fn lemma_printed_implies_path_in_output(evs: Seq<ParseEvent>, opts: ProgramOpts)
    ensures
        printed_paths_appear(run(init_state(), evs, opts), run_output(init_state(), evs, opts)),
{
    lemma_printed_paths_run(init_state(), evs, Seq::empty(), opts);
    assert(Seq::<char>::empty() + run_output(init_state(), evs, opts) =~= run_output(
        init_state(),
        evs,
        opts,
    ));
}

/// Law: every annotated emission carries the path of the element it is
/// associated with — an unsuppressed text line, a processing instruction, and
/// a comment all carry the innermost frame's path, and an element start with
/// attributes carries the new element's path.
pub proof fn lemma_annotated_emission_carries_path(
    tags: Seq<TagView>,
    name: Seq<char>,
    attrs: Seq<(Seq<char>, Seq<char>)>,
    text: Seq<char>,
    target: Seq<char>,
    data: Seq<char>,
    opts: ProgramOpts,
)
    ensures
        !text_suppressed(text, opts) ==> appears(chars_out(tags, text, opts), path_of(tags)),
        appears(pi_out(tags, target, data, opts), path_of(tags)),
        appears(comment_out(tags, text, opts), path_of(tags)),
        attrs.len() > 0 ==> appears(
            start_out(tags, name, attrs, opts),
            path_of(start_tags(tags, name, true)),
        ),
{
    let path = path_of(tags);
    let zero: int = 0;
    if !text_suppressed(text, opts) {
        assert(chars_out(tags, text, opts).subrange(zero, zero + path.len()) =~= path);
    }
    assert(pi_out(tags, target, data, opts).subrange(zero, zero + path.len()) =~= path);
    assert(comment_out(tags, text, opts).subrange(zero, zero + path.len()) =~= path);
    if attrs.len() > 0 {
        let child_path = path_of(start_tags(tags, name, true));
        let line = start_out(tags, name, attrs, opts);
        let off = bare_line(tags).len() as int;
        assert(line.subrange(off, off + child_path.len()) =~= child_path);
    }
}

} // verus!
