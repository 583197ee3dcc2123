//! Tidying markdown: line breaks written as `<br>` tags become empty
//! lines, and every other empty line goes.

use crate::text::{chars_of, push_all, same_chars, slice_of, string_of};
use vstd::prelude::*;

verus! {

/// The character is white space, as Unicode defines it.
pub open spec fn is_whitespace(c: char) -> bool {
    ||| ('\u{9}' <= c && c <= '\u{d}')
    ||| c == ' '
    ||| c == '\u{85}'
    ||| c == '\u{a0}'
    ||| c == '\u{1680}'
    ||| ('\u{2000}' <= c && c <= '\u{200a}')
    ||| c == '\u{2028}'
    ||| c == '\u{2029}'
    ||| c == '\u{202f}'
    ||| c == '\u{205f}'
    ||| c == '\u{3000}'
}

/// `s` without the white space at its start.
pub open spec fn trim_start_of(s: Seq<char>) -> Seq<char>
    decreases s.len(),
{
    if s.len() > 0 && is_whitespace(s[0]) {
        trim_start_of(s.skip(1))
    } else {
        s
    }
}

/// `s` without the white space at its end.
pub open spec fn trim_end_of(s: Seq<char>) -> Seq<char>
    decreases s.len(),
{
    if s.len() > 0 && is_whitespace(s.last()) {
        trim_end_of(s.drop_last())
    } else {
        s
    }
}

/// `s` without the white space at its start and at its end.
pub open spec fn trimmed(s: Seq<char>) -> Seq<char> {
    trim_end_of(trim_start_of(s))
}

/// How many characters stand before the first line feed of `text`; all of
/// them where it holds none.
pub open spec fn line_len(text: Seq<char>) -> int
    decreases text.len(),
{
    if text.len() == 0 || text[0] == '\n' {
        0
    } else {
        1 + line_len(text.skip(1))
    }
}

/// `line` without the carriage return at its end, if it has one.
pub open spec fn without_cr(line: Seq<char>) -> Seq<char> {
    if line.len() > 0 && line.last() == '\r' {
        line.drop_last()
    } else {
        line
    }
}

/// The lines of `text`. A line ends with a line feed, or with a carriage
/// return and a line feed; neither belongs to the line. What follows the
/// last line feed is a line too, unless it is empty.
pub open spec fn lines_of(text: Seq<char>) -> Seq<Seq<char>>
    decreases text.len(),
{
    if text.len() == 0 {
        Seq::empty()
    } else {
        let n = line_len(text);
        if 0 <= n < text.len() {
            seq![without_cr(text.take(n))] + lines_of(text.skip(n + 1))
        } else {
            seq![text]
        }
    }
}

/// The line holds a `<br>` tag and nothing else but white space.
pub open spec fn is_break(line: Seq<char>) -> bool {
    let tag = trimmed(line);
    tag == "<br />"@ || tag == "<br/>"@ || tag == "<br>"@
}

/// The line holds nothing but white space.
pub open spec fn is_blank(line: Seq<char>) -> bool {
    trimmed(line).len() == 0
}

/// The line stands for a break: it holds a `<br>` tag, or is the mark by
/// which such a line is told from an empty one.
pub open spec fn stands_for_break(line: Seq<char>) -> bool {
    is_break(line) || line == "::BR_PLACEHOLDER::"@
}

/// The lines that are kept: a line that stands for a break as an empty
/// line, a blank line not at all, every other line as it is.
pub open spec fn tidy_lines(lines: Seq<Seq<char>>) -> Seq<Seq<char>>
    decreases lines.len(),
{
    if lines.len() == 0 {
        Seq::empty()
    } else {
        let before = tidy_lines(lines.drop_last());
        let line = lines.last();
        if stands_for_break(line) {
            before.push(Seq::empty())
        } else if is_blank(line) {
            before
        } else {
            before.push(line)
        }
    }
}

/// The lines with a line feed between each two.
pub open spec fn joined(lines: Seq<Seq<char>>) -> Seq<char>
    decreases lines.len(),
{
    if lines.len() == 0 {
        Seq::empty()
    } else if lines.len() == 1 {
        lines[0]
    } else {
        joined(lines.drop_last()) + seq!['\n'] + lines.last()
    }
}

/// Markdown tidied: its lines are taken apart; a line that holds only a
/// `<br>` tag becomes an empty line; every other line that holds only white
/// space goes; the lines are put together again. Unless nothing is left,
/// the white space at the end gives way to one line feed.
pub open spec fn tidied(content: Seq<char>) -> Seq<char> {
    let text = joined(tidy_lines(lines_of(content)));
    if text.len() == 0 {
        text
    } else {
        trim_end_of(text).push('\n')
    }
}

/// A line goes on as far as no line feed stands.
pub proof fn lemma_line_len(text: Seq<char>, n: int)
    requires
        0 <= n <= text.len(),
        forall|k: int| 0 <= k < n ==> text[k] != '\n',
        n == text.len() || text[n] == '\n',
    ensures
        line_len(text) == n,
    decreases n,
{
    if n > 0 {
        lemma_line_len(text.skip(1), n - 1);
    }
}

/// Whether the character is white space.
pub fn is_space(c: char) -> (r: bool)
    ensures
        r == is_whitespace(c),
{
    ('\u{9}' <= c && c <= '\u{d}') || c == ' ' || c == '\u{85}' || c == '\u{a0}' || c
        == '\u{1680}' || ('\u{2000}' <= c && c <= '\u{200a}') || c == '\u{2028}' || c
        == '\u{2029}' || c == '\u{202f}' || c == '\u{205f}' || c == '\u{3000}'
}

/// How much of `s` is left once the white space at its end is gone.
fn trimmed_end(s: &Vec<char>, from: usize) -> (end: usize)
    requires
        from <= s.len(),
    ensures
        from <= end <= s.len(),
        trim_end_of(s@.subrange(from as int, s@.len() as int)) == s@.subrange(from as int, end as int),
{
    let mut end: usize = s.len();
    while end > from && is_space(s[end - 1])
        invariant
            from <= end <= s.len(),
            trim_end_of(s@.subrange(from as int, s@.len() as int)) == trim_end_of(
                s@.subrange(from as int, end as int),
            ),
        decreases end,
    {
        proof {
            assert(s@.subrange(from as int, end as int).drop_last() =~= s@.subrange(
                from as int,
                end - 1,
            ));
        }
        end -= 1;
    }
    end
}

/// `s` without the white space at its start and at its end.
pub fn trim(s: &Vec<char>) -> (r: Vec<char>)
    ensures
        r@ == trimmed(s@),
{
    let mut start: usize = 0;
    assert(s@.skip(0) =~= s@);
    while start < s.len() && is_space(s[start])
        invariant
            start <= s.len(),
            trim_start_of(s@) == trim_start_of(s@.skip(start as int)),
        decreases s.len() - start,
    {
        proof {
            assert(s@.skip(start as int).skip(1) =~= s@.skip(start + 1));
        }
        start += 1;
    }
    assert(s@.skip(start as int) =~= s@.subrange(start as int, s@.len() as int));
    let end = trimmed_end(s, start);
    slice_of(s, start, end)
}

/// The lines of `text`.
pub fn split_lines(text: &Vec<char>) -> (lines: Vec<Vec<char>>)
    ensures
        lines.deep_view() == lines_of(text@),
{
    let mut lines: Vec<Vec<char>> = Vec::new();
    let mut pos: usize = 0;
    assert(text@.skip(0) =~= text@);
    while pos < text.len()
        invariant
            pos <= text.len(),
            lines_of(text@) == lines.deep_view() + lines_of(text@.skip(pos as int)),
        decreases text.len() - pos,
    {
        let ghost rest = text@.skip(pos as int);
        let ghost done = lines.deep_view();
        let mut end: usize = pos;
        while end < text.len() && text[end] != '\n'
            invariant
                pos <= end <= text.len(),
                forall|k: int| pos <= k < end ==> text@[k] != '\n',
            decreases text.len() - end,
        {
            end += 1;
        }
        proof {
            lemma_line_len(rest, end - pos);
        }
        if end < text.len() {
            let mut stop: usize = end;
            if stop > pos && text[stop - 1] == '\r' {
                stop -= 1;
            }
            let line = slice_of(text, pos, stop);
            proof {
                assert(rest.take(end - pos) =~= text@.subrange(pos as int, end as int));
                assert(line@ =~= without_cr(rest.take(end - pos)));
                assert(rest.skip(end - pos + 1) =~= text@.skip(end + 1));
            }
            assert(line.deep_view() =~= line@);
            lines.push(line);
            proof {
                assert(lines.deep_view() =~= done.push(line@));
                assert(done + (seq![line@] + lines_of(text@.skip(end + 1))) =~= done.push(line@)
                    + lines_of(text@.skip(end + 1)));
            }
            pos = end + 1;
        } else {
            let line = slice_of(text, pos, end);
            proof {
                assert(line@ =~= rest);
                assert(text@.skip(end as int) =~= Seq::<char>::empty());
            }
            assert(line.deep_view() =~= line@);
            lines.push(line);
            proof {
                assert(lines.deep_view() =~= done.push(line@));
                assert(done + seq![rest] =~= done.push(rest) + lines_of(text@.skip(end as int)));
            }
            pos = end;
        }
    }
    proof {
        assert(text@.skip(pos as int) =~= Seq::<char>::empty());
        assert(lines.deep_view() + Seq::<Seq<char>>::empty() =~= lines.deep_view());
    }
    lines
}

/// Whether the line stands for a break.
fn is_break_line(line: &Vec<char>) -> (r: bool)
    ensures
        r == stands_for_break(line@),
{
    let tag = trim(line);
    same_chars(&tag, &chars_of("<br />")) || same_chars(&tag, &chars_of("<br/>")) || same_chars(
        &tag,
        &chars_of("<br>"),
    ) || same_chars(line, &chars_of("::BR_PLACEHOLDER::"))
}

/// Markdown tidied: a line that holds only a `<br />`, `<br/>` or `<br>` tag
/// becomes an empty line; every other line that holds only white space
/// goes; and the text ends with one line feed, unless nothing is left of
/// it.
pub fn clean_markdown(content: &str) -> (cleaned: String)
    ensures
        cleaned@ == tidied(content@),
{
    let text = chars_of(content);
    let lines = split_lines(&text);
    let ghost all = lines.deep_view();
    let mut out: Vec<char> = Vec::new();
    let mut kept: usize = 0;
    let mut i: usize = 0;
    assert(all.take(0) =~= Seq::<Seq<char>>::empty());
    while i < lines.len()
        invariant
            i <= lines.len(),
            all == lines.deep_view(),
            kept == tidy_lines(all.take(i as int)).len(),
            out@ == joined(tidy_lines(all.take(i as int))),
        decreases lines.len() - i,
    {
        let line = &lines[i];
        let ghost before = tidy_lines(all.take(i as int));
        proof {
            assert(line.deep_view() =~= line@);
            assert(all.take(i + 1).drop_last() =~= all.take(i as int));
            assert(all.take(i + 1).last() == line@);
        }
        let keep_empty = is_break_line(line);
        let keep = keep_empty || trim(line).len() > 0;
        if keep {
            if kept > 0 {
                out.push('\n');
            }
            if !keep_empty {
                push_all(&mut out, line);
            }
            proof {
                let added = if keep_empty {
                    Seq::<char>::empty()
                } else {
                    line@
                };
                let after = before.push(added);
                assert(tidy_lines(all.take(i + 1)) == after);
                assert(after.drop_last() =~= before);
                if before.len() == 0 {
                    assert(out@ =~= added);
                } else {
                    assert(out@ =~= joined(before) + seq!['\n'] + added);
                }
            }
            assert(kept < lines.len()) by {
                lemma_tidy_len(all.take(i as int));
            }
            kept += 1;
        }
        i += 1;
    }
    assert(all.take(lines.len() as int) =~= all);
    if out.len() == 0 {
        return string_of(&out);
    }
    let end = trimmed_end(&out, 0);
    let mut cleaned = slice_of(&out, 0, end);
    cleaned.push('\n');
    proof {
        assert(out@.subrange(0, out@.len() as int) =~= out@);
    }
    string_of(&cleaned)
}

/// No more lines are kept than there were.
pub proof fn lemma_tidy_len(lines: Seq<Seq<char>>)
    ensures
        tidy_lines(lines).len() <= lines.len(),
    decreases lines.len(),
{
    if lines.len() > 0 {
        lemma_tidy_len(lines.drop_last());
    }
}

} // verus!
