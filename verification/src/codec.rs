//! Whitespace codec: a pure transformation of text into its display-safe,
//! optionally run-length-compressed form, driven by [`ProgramOpts`].
//!
//! Policy, in priority order:
//! 1. neither mapping nor compression enabled: the text passes through unchanged;
//! 2. mapping alone: every literal space, tab, and line feed is replaced by its
//!    configured glyph, all other characters pass through;
//! 3. compression (with or without mapping): runs of literal spaces are counted,
//!    each full run of `compress_level` spaces becomes one active tab character,
//!    shorter leftovers are flushed as active space characters; tab and line
//!    feed are never run-length compressed, only transliterated when mapping
//!    is enabled.

use vstd::prelude::*;

use crate::config::ProgramOpts;

verus! {

/// One character transliterated: space, tab, and line feed become the three
/// given characters, everything else passes through.
pub open spec fn translit_char(c: char, space: char, tab: char, newline: char) -> char {
    if c == ' ' {
        space
    } else if c == '\t' {
        tab
    } else if c == '\n' {
        newline
    } else {
        c
    }
}

/// The character standing for a space while compressing: the configured glyph
/// when mapping is enabled, else the literal space.
pub open spec fn active_space(opts: ProgramOpts) -> char {
    if opts.map_whitespace {
        opts.space_map
    } else {
        ' '
    }
}

/// The character standing for a tab while compressing.
pub open spec fn active_tab(opts: ProgramOpts) -> char {
    if opts.map_whitespace {
        opts.tab_map
    } else {
        '\t'
    }
}

/// The character standing for a line feed while compressing.
pub open spec fn active_newline(opts: ProgramOpts) -> char {
    if opts.map_whitespace {
        opts.newline_map
    } else {
        '\n'
    }
}

/// `n` copies of the character `c`.
pub open spec fn spaces(n: nat, c: char) -> Seq<char> {
    Seq::new(n, |i: int| c)
}

/// The text with every whitespace character replaced by its configured glyph.
pub open spec fn mapped_text(s: Seq<char>, opts: ProgramOpts) -> Seq<char> {
    s.map_values(|c: char| translit_char(c, opts.space_map, opts.tab_map, opts.newline_map))
}

/// The text run-length compressed, scanning left to right with `pending`
/// literal spaces carried in from the prefix already consumed: a run reaching
/// `compress_level` spaces becomes one active tab, a shorter run before a
/// non-space (or the end of input) is flushed as active spaces, and every
/// non-space character is transliterated through the active characters.
pub open spec fn compressed_text(s: Seq<char>, pending: nat, opts: ProgramOpts) -> Seq<char>
    decreases s.len(),
{
    let sp = active_space(opts);
    let tb = active_tab(opts);
    let nl = active_newline(opts);
    if s.len() == 0 {
        spaces(pending, sp)
    } else if s[0] == ' ' {
        if pending + 1 == opts.compress_level {
            seq![tb] + compressed_text(s.drop_first(), 0, opts)
        } else {
            compressed_text(s.drop_first(), (pending + 1) as nat, opts)
        }
    } else {
        spaces(pending, sp) + seq![translit_char(s[0], sp, tb, nl)] + compressed_text(
            s.drop_first(),
            0,
            opts,
        )
    }
}

/// What the codec produces for the given text under the given configuration.
pub open spec fn formatted(s: Seq<char>, opts: ProgramOpts) -> Seq<char> {
    if opts.compress_whitespace {
        compressed_text(s, 0, opts)
    } else if opts.map_whitespace {
        mapped_text(s, opts)
    } else {
        s
    }
}

/// Law: with neither mapping nor compression enabled, formatting returns the
/// text unchanged, for every input.
pub proof fn lemma_format_passthrough(s: Seq<char>, opts: ProgramOpts)
    requires
        !opts.map_whitespace,
        !opts.compress_whitespace,
    ensures
        formatted(s, opts) == s,
{
}

/// Helper for the law below: with `pending` spaces already counted toward the
/// current run, a text of `n` further spaces compresses to one active tab per
/// completed run and the leftover spaces flushed at the end of input.
proof fn lemma_compress_spaces_pending(n: nat, pending: nat, opts: ProgramOpts)
    requires
        opts.wf(),
        pending < opts.compress_level,
    ensures
        compressed_text(spaces(n, ' '), pending, opts) == spaces(
            ((pending + n) as int / (opts.compress_level as int)) as nat,
            active_tab(opts),
        ) + spaces(((pending + n) as int % (opts.compress_level as int)) as nat, active_space(opts)),
    decreases n,
{
    let ll = opts.compress_level as int;
    let sp = active_space(opts);
    let tb = active_tab(opts);
    let s = spaces(n, ' ');
    if n == 0 {
        vstd::arithmetic::div_mod::lemma_basic_div(pending as int, ll);
        vstd::arithmetic::div_mod::lemma_small_mod(pending, opts.compress_level as nat);
        assert(compressed_text(s, pending, opts) == spaces(pending, sp));
        assert(spaces(0, tb) + spaces(pending, sp) =~= spaces(pending, sp));
    } else {
        assert(s[0] == ' ');
        assert(s.drop_first() =~= spaces((n - 1) as nat, ' '));
        if pending + 1 == opts.compress_level {
            lemma_compress_spaces_pending((n - 1) as nat, 0, opts);
            vstd::arithmetic::div_mod::lemma_div_plus_one((n - 1) as int, ll);
            vstd::arithmetic::div_mod::lemma_mod_add_multiples_vanish((n - 1) as int, ll);
            assert((pending + n) as int / ll == 1 + (n - 1) as int / ll);
            assert((pending + n) as int % ll == (n - 1) as int % ll);
            assert(seq![tb] + (spaces(((0 + (n - 1)) as int / ll) as nat, tb) + spaces(
                ((0 + (n - 1)) as int % ll) as nat,
                sp,
            )) =~= spaces(((pending + n) as int / ll) as nat, tb) + spaces(
                ((pending + n) as int % ll) as nat,
                sp,
            ));
        } else {
            lemma_compress_spaces_pending((n - 1) as nat, (pending + 1) as nat, opts);
        }
    }
}

/// Law: under compression, a text of nothing but literal spaces becomes one
/// active tab per full run of `compress_level` spaces, followed by the
/// leftover spaces: at level four, four spaces are exactly one active tab,
/// eight are two, and three are flushed as three active spaces.
pub proof fn lemma_compress_space_runs(n: nat, opts: ProgramOpts)
    requires
        opts.wf(),
        opts.compress_whitespace,
    ensures
        formatted(spaces(n, ' '), opts) == spaces(
            (n as int / (opts.compress_level as int)) as nat,
            active_tab(opts),
        ) + spaces((n as int % (opts.compress_level as int)) as nat, active_space(opts)),
{
    lemma_compress_spaces_pending(n, 0, opts);
}

/// A character with the Unicode `White_Space` property, the set the standard
/// library's `char::is_whitespace` recognizes.
pub open spec fn is_whitespace_char(c: char) -> bool {
    ||| c == ' '
    ||| c == '\t'
    ||| c == '\n'
    ||| c == '\r'
    ||| c == '\u{b}'
    ||| c == '\u{c}'
    ||| c == '\u{85}'
    ||| c == '\u{a0}'
    ||| c == '\u{1680}'
    ||| c == '\u{2000}'
    ||| c == '\u{2001}'
    ||| c == '\u{2002}'
    ||| c == '\u{2003}'
    ||| c == '\u{2004}'
    ||| c == '\u{2005}'
    ||| c == '\u{2006}'
    ||| c == '\u{2007}'
    ||| c == '\u{2008}'
    ||| c == '\u{2009}'
    ||| c == '\u{200a}'
    ||| c == '\u{2028}'
    ||| c == '\u{2029}'
    ||| c == '\u{202f}'
    ||| c == '\u{205f}'
    ||| c == '\u{3000}'
}

/// The text holds nothing but whitespace (true of the empty text): trimming
/// it of leading and trailing whitespace would leave it empty.
pub open spec fn whitespace_only(s: Seq<char>) -> bool {
    forall|i: int| 0 <= i < s.len() ==> is_whitespace_char(#[trigger] s[i])
}

fn char_is_whitespace(c: char) -> (r: bool)
    ensures
        r == is_whitespace_char(c),
{
    c == ' ' || c == '\t' || c == '\n' || c == '\r' || c == '\u{b}' || c == '\u{c}' || c
        == '\u{85}' || c == '\u{a0}' || c == '\u{1680}' || c == '\u{2000}' || c == '\u{2001}' || c
        == '\u{2002}' || c == '\u{2003}' || c == '\u{2004}' || c == '\u{2005}' || c == '\u{2006}'
        || c == '\u{2007}' || c == '\u{2008}' || c == '\u{2009}' || c == '\u{200a}' || c
        == '\u{2028}' || c == '\u{2029}' || c == '\u{202f}' || c == '\u{205f}' || c == '\u{3000}'
}

/// Whether the text consists of whitespace characters alone.
pub fn is_only_whitespace(string: &str) -> (r: bool)
    ensures
        r == whitespace_only(string@),
{
    let len = string.unicode_len();
    let mut i: usize = 0;
    while i < len
        invariant
            i <= len,
            len == string@.len(),
            forall|j: int| 0 <= j < i ==> is_whitespace_char(#[trigger] string@[j]),
        decreases len - i,
    {
        let c = string.get_char(i);
        if !char_is_whitespace(c) {
            return false;
        }
        i += 1;
    }
    true
}

/// Relies on std's `String::push`: appends exactly the given character to the
/// end of the string.
#[verifier::external_body]
pub(crate) fn push_char(write_buf: &mut String, c: char)
    ensures
        final(write_buf)@ == old(write_buf)@.push(c),
{
    write_buf.push(c);
}

/// Appends the character transliterated through the three given characters.
fn transliterate_and_print(write_buf: &mut String, c: char, space: char, tab: char, newline: char)
    ensures
        final(write_buf)@ == old(write_buf)@.push(translit_char(c, space, tab, newline)),
{
    if c == ' ' {
        push_char(write_buf, space);
    } else if c == '\t' {
        push_char(write_buf, tab);
    } else if c == '\n' {
        push_char(write_buf, newline);
    } else {
        push_char(write_buf, c);
    }
}

/// Appends `n` copies of the character `c`.
fn push_spaces(write_buf: &mut String, n: usize, c: char)
    ensures
        final(write_buf)@ == old(write_buf)@ + spaces(n as nat, c),
{
    let mut k: usize = 0;
    while k < n
        invariant
            k <= n,
            write_buf@ == old(write_buf)@ + spaces(k as nat, c),
        decreases n - k,
    {
        push_char(write_buf, c);
        proof {
            assert(old(write_buf)@ + spaces((k + 1) as nat, c) =~= (old(write_buf)@ + spaces(
                k as nat,
                c,
            )).push(c));
        }
        k += 1;
    }
    proof {
        assert(write_buf@ =~= old(write_buf)@ + spaces(n as nat, c));
    }
}

/// Appends the text's display-safe form to the buffer: unchanged when neither
/// mapping nor compression is enabled, glyph-substituted when mapping alone is
/// enabled, and run-length compressed when compression is enabled.
pub fn print_string(write_buf: &mut String, string: &str, opts: &ProgramOpts)
    requires
        opts.wf(),
    ensures
        final(write_buf)@ == old(write_buf)@ + formatted(string@, *opts),
{
    if !opts.map_whitespace && !opts.compress_whitespace {
        write_buf.append(string);
        return ;
    }
    // Map whitespace without compressing
    if !opts.compress_whitespace {
        let len = string.unicode_len();
        let mut i: usize = 0;
        while i < len
            invariant
                opts.map_whitespace,
                !opts.compress_whitespace,
                i <= len,
                len == string@.len(),
                write_buf@ == old(write_buf)@ + mapped_text(string@.take(i as int), *opts),
            decreases len - i,
        {
            let c = string.get_char(i);
            transliterate_and_print(write_buf, c, opts.space_map, opts.tab_map, opts.newline_map);
            proof {
                assert(mapped_text(string@.take(i + 1), *opts) =~= mapped_text(
                    string@.take(i as int),
                    *opts,
                ).push(translit_char(string@[i as int], opts.space_map, opts.tab_map,
                opts.newline_map)));
            }
            i += 1;
        }
        proof {
            assert(string@.take(len as int) =~= string@);
        }
        return ;
    }
    let (space_char, tab_char, newline_char) = if opts.map_whitespace {
        (opts.space_map, opts.tab_map, opts.newline_map)
    } else {
        (' ', '\t', '\n')
    };
    let len = string.unicode_len();
    let mut i: usize = 0;
    let mut space_count: usize = 0;
    proof {
        assert(string@.skip(0) =~= string@);
    }
    while i < len
        invariant
            opts.wf(),
            opts.compress_whitespace,
            space_char == active_space(*opts),
            tab_char == active_tab(*opts),
            newline_char == active_newline(*opts),
            i <= len,
            len == string@.len(),
            space_count < opts.compress_level,
            old(write_buf)@ + compressed_text(string@, 0, *opts) == write_buf@ + compressed_text(
                string@.skip(i as int),
                space_count as nat,
                *opts,
            ),
        decreases len - i,
    {
        let ghost rest = string@.skip(i as int);
        proof {
            assert(rest.len() > 0);
            assert(rest[0] == string@[i as int]);
            assert(rest.drop_first() =~= string@.skip(i + 1));
        }
        let c = string.get_char(i);
        if c != ' ' {
            // The run counter stays below the threshold, so the pending run is
            // flushed as active spaces before the character itself.
            let ghost buf_before = write_buf@;
            push_spaces(write_buf, space_count, space_char);
            transliterate_and_print(write_buf, c, space_char, tab_char, newline_char);
            proof {
                assert(compressed_text(rest, space_count as nat, *opts) == spaces(
                    space_count as nat,
                    space_char,
                ) + seq![
                    translit_char(c, space_char, tab_char, newline_char),
                ] + compressed_text(rest.drop_first(), 0, *opts));
                assert(write_buf@ =~= buf_before + spaces(space_count as nat, space_char) + seq![
                    translit_char(c, space_char, tab_char, newline_char),
                ]);
                assert(write_buf@ + compressed_text(string@.skip(i + 1), 0, *opts) =~= buf_before
                    + compressed_text(rest, space_count as nat, *opts));
            }
            space_count = 0;
        } else {
            space_count += 1;
            if space_count == opts.compress_level {
                let ghost buf_before = write_buf@;
                push_char(write_buf, tab_char);
                proof {
                    assert(compressed_text(rest, (space_count - 1) as nat, *opts) == seq![tab_char]
                        + compressed_text(rest.drop_first(), 0, *opts));
                    assert(write_buf@ + compressed_text(string@.skip(i + 1), 0, *opts) =~=
                    buf_before + compressed_text(rest, (space_count - 1) as nat, *opts));
                }
                space_count = 0;
            } else {
                proof {
                    assert(compressed_text(rest, (space_count - 1) as nat, *opts)
                        == compressed_text(rest.drop_first(), space_count as nat, *opts));
                }
            }
        }
        i += 1;
    }
    // Flush any spaces that were pending when the input ended
    proof {
        assert(string@.skip(len as int) =~= Seq::<char>::empty());
        assert(compressed_text(string@.skip(len as int), space_count as nat, *opts) == spaces(
            space_count as nat,
            active_space(*opts),
        ));
    }
    push_spaces(write_buf, space_count, space_char);
    proof {
        assert(write_buf@ =~= old(write_buf)@ + compressed_text(string@, 0, *opts));
    }
}

} // verus!
