//! Laying out text for display.

use vstd::prelude::*;
use crate::chars::chars_of;

verus! {

/// The first index at or after `from` that holds a line feed; the length of
/// the text if there is none.
pub open spec fn line_end(text: Seq<char>, from: int) -> int
    decreases text.len() - from,
{
    if 0 <= from < text.len() && text[from] != '\n' {
        line_end(text, from + 1)
    } else {
        from
    }
}

/// A line without the carriage return that stood before its line feed.
pub open spec fn without_return(line: Seq<char>) -> Seq<char> {
    if line.len() > 0 && line.last() == '\r' {
        line.drop_last()
    } else {
        line
    }
}

/// The lines of `text` from index `from` on. A line ends at a line feed, or
/// at a carriage return directly followed by one; neither belongs to the
/// line. The last line needs no line ending, and a text that ends with one
/// has no empty line after it. A carriage return that no line feed follows
/// is part of its line.
pub open spec fn lines_from(text: Seq<char>, from: int) -> Seq<Seq<char>>
    decreases text.len() - from,
    via lines_from_decreases
{
    if 0 <= from < text.len() {
        let end = line_end(text, from);
        if end < text.len() {
            seq![without_return(text.subrange(from, end))] + lines_from(text, end + 1)
        } else {
            seq![text.subrange(from, end)]
        }
    } else {
        Seq::empty()
    }
}

#[via_fn]
proof fn lines_from_decreases(text: Seq<char>, from: int) {
    if 0 <= from < text.len() {
        lemma_line_end(text, from);
    }
}

/// The lines of `text`.
pub open spec fn lines_of(text: Seq<char>) -> Seq<Seq<char>> {
    lines_from(text, 0)
}

/// `n` spaces.
pub open spec fn spaces(n: nat) -> Seq<char> {
    Seq::new(n, |i: int| ' ')
}

/// Each of `lines` behind `n` spaces and before a line feed, one after the
/// other.
pub open spec fn indented(lines: Seq<Seq<char>>, n: nat) -> Seq<char>
    decreases lines.len(),
{
    if lines.len() == 0 {
        Seq::empty()
    } else {
        spaces(n) + lines.first() + seq!['\n'] + indented(lines.drop_first(), n)
    }
}

/// The line from `from` ends inside the text, holds no line feed, and stops
/// at the first one.
pub proof fn lemma_line_end(text: Seq<char>, from: int)
    requires
        0 <= from <= text.len(),
    ensures
        from <= line_end(text, from) <= text.len(),
        forall|k: int| from <= k < line_end(text, from) ==> #[trigger] text[k] != '\n',
        line_end(text, from) < text.len() ==> text[line_end(text, from)] == '\n',
    decreases text.len() - from,
{
    if from < text.len() && text[from] != '\n' {
        lemma_line_end(text, from + 1);
    }
}

/// The first line feed at or after `from` is where the line ends; so is the
/// length of the text if there is none.
pub proof fn lemma_line_end_is(text: Seq<char>, from: int, end: int)
    requires
        0 <= from <= end <= text.len(),
        forall|k: int| from <= k < end ==> #[trigger] text[k] != '\n',
        end < text.len() ==> text[end] == '\n',
    ensures
        line_end(text, from) == end,
    decreases end - from,
{
    if from < end {
        lemma_line_end_is(text, from + 1, end);
    }
}

/// Appends `n` spaces to `out`.
fn push_spaces(out: &mut String, n: usize)
    ensures
        final(out)@ == old(out)@ + spaces(n as nat),
{
    let mut i: usize = 0;
    while i < n
        invariant
            i <= n,
            out@ == old(out)@ + spaces(i as nat),
        decreases n - i,
    {
        out.push(' ');
        i += 1;
        assert(spaces(i as nat) == spaces((i - 1) as nat).push(' '));
    }
    assert(spaces(0) == Seq::<char>::empty());
}

/// Appends the characters `chars[from..to]` to `out`.
fn push_range(out: &mut String, chars: &Vec<char>, from: usize, to: usize)
    requires
        from <= to <= chars.len(),
    ensures
        final(out)@ == old(out)@ + chars@.subrange(from as int, to as int),
{
    let mut i: usize = from;
    while i < to
        invariant
            from <= i <= to <= chars.len(),
            out@ == old(out)@ + chars@.subrange(from as int, i as int),
        decreases to - i,
    {
        out.push(chars[i]);
        i += 1;
        assert(chars@.subrange(from as int, i as int) == chars@.subrange(
            from as int,
            i - 1,
        ).push(chars@[i - 1]));
    }
}

/// Puts `n` spaces before each line of `s` and a line feed after it.
/// Whatever ended a line in `s`, a single line feed ends it in the result.
pub fn indent(s: &str, n: usize) -> (out: String)
    ensures
        out@ == indented(lines_of(s@), n as nat),
{
    let chars = chars_of(s);
    let mut out = String::new();
    let mut pos: usize = 0;
    while pos < chars.len()
        invariant
            pos <= chars.len(),
            chars@ == s@,
            indented(lines_of(chars@), n as nat) == out@ + indented(
                lines_from(chars@, pos as int),
                n as nat,
            ),
        decreases chars.len() - pos,
    {
        let mut end: usize = pos;
        while end < chars.len() && chars[end] != '\n'
            invariant
                pos <= end <= chars.len(),
                forall|k: int| pos <= k < end ==> #[trigger] chars@[k] != '\n',
            decreases chars.len() - end,
        {
            end += 1;
        }
        let ended = end < chars.len();
        let stop = if ended && end > pos && chars[end - 1] == '\r' {
            end - 1
        } else {
            end
        };
        let next = if ended {
            end + 1
        } else {
            end
        };
        proof {
            lemma_line_end_is(chars@, pos as int, end as int);
            let rest = lines_from(chars@, next as int);
            let line = chars@.subrange(pos as int, stop as int);
            let lines = lines_from(chars@, pos as int);
            assert(lines == seq![line] + rest) by {
                let whole = chars@.subrange(pos as int, end as int);
                if ended {
                    if end > pos && chars@[end - 1] == '\r' {
                        assert(whole.last() == '\r');
                        assert(whole.drop_last() == line);
                    } else {
                        assert(without_return(whole) == whole);
                    }
                } else {
                    assert(rest == Seq::<Seq<char>>::empty());
                }
            }
            assert(lines.first() == line);
            assert(lines.drop_first() == rest);
            assert(out@ + (spaces(n as nat) + line + seq!['\n'] + indented(rest, n as nat))
                == out@ + spaces(n as nat) + line + seq!['\n'] + indented(rest, n as nat));
        }
        push_spaces(&mut out, n);
        push_range(&mut out, &chars, pos, stop);
        out.push('\n');
        pos = next;
    }
    assert(out@ + Seq::<char>::empty() == out@);
    out
}

} // verus!
