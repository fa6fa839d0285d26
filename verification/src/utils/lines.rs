//! The lines of a text, and the line breaks that a platform asks for.
use crate::utils::string::{
    chars_of, formatted, joined, lemma_split_joined, lemma_split_len, push_range, split,
    string_of, trimmed_len,
};
use std::borrow::Cow;
use vstd::prelude::*;

verus! {

/// What a platform asks of the line breaks of a text that is put on lines of
/// its own.
#[derive(Clone, Copy, Debug, PartialEq, Eq, Structural)]
pub enum LineBreak {
    /// Nothing: the text is kept as it was printed.
    Kept,
    /// That every line ends with `"\r\n"`.
    CrLf,
}

/// `line` without the carriage return at its end, if it has one.
pub open spec fn without_return(line: Seq<char>) -> Seq<char> {
    if line.len() > 0 && line.last() == '\r' {
        line.drop_last()
    } else {
        line
    }
}

/// The lines of `s`. A line ends with `"\n"` or `"\r\n"`, which is not part
/// of it; what follows the last line break is a line too, unless it is
/// empty.
pub open spec fn lines(s: Seq<char>) -> Seq<Seq<char>> {
    let parts = split(s, '\n');
    if parts.last().len() > 0 {
        ended_lines(parts).push(parts.last())
    } else {
        ended_lines(parts)
    }
}

/// The lines that end with a line break, where `parts` is what stands
/// between the line feeds of a text: all but the last part, each without the
/// carriage return at its end.
pub open spec fn ended_lines(parts: Seq<Seq<char>>) -> Seq<Seq<char>> {
    parts.drop_last().map_values(|line: Seq<char>| without_return(line))
}

/// The line break `"\r\n"`.
pub open spec fn crlf() -> Seq<char> {
    seq!['\r', '\n']
}

/// `s` with the line breaks of a platform that asks for `"\r\n"`: the
/// lines of the text, for an inline place without the white space at its
/// end, with `"\r\n"` between them; on lines of its own a text that is not
/// empty ends with `"\r\n"` as well.
pub open spec fn formatted_crlf(s: Seq<char>, inline: bool) -> Seq<char> {
    let written = joined(lines(formatted(s, inline)), crlf());
    if !inline && written.len() > 0 {
        written + crlf()
    } else {
        written
    }
}

/// `s` as it is formatted for its place on a platform.
pub open spec fn formatted_for(s: Seq<char>, inline: bool, line_break: LineBreak) -> Seq<char> {
    match line_break {
        LineBreak::Kept => formatted(s, inline),
        LineBreak::CrLf => formatted_crlf(s, inline),
    }
}

/// No line holds a line feed.
pub proof fn lemma_lines_hold_no_line_feed(s: Seq<char>)
    ensures
        forall|i: int, j: int|
            0 <= i < lines(s).len() && 0 <= j < lines(s)[i].len() ==> lines(s)[i][j] != '\n',
{
    lemma_split_joined(s, '\n');
    lemma_split_len(s, '\n');
    let parts = split(s, '\n');
    assert forall|i: int, j: int|
        0 <= i < lines(s).len() && 0 <= j < lines(s)[i].len() implies lines(s)[i][j] != '\n' by {
        if i < parts.len() - 1 {
            assert(lines(s)[i] == without_return(parts[i]));
            assert(lines(s)[i][j] == parts[i][j]);
        } else {
            assert(lines(s)[i] == parts.last());
            assert(lines(s)[i][j] == parts[parts.len() - 1][j]);
        }
    }
}

/// On lines of its own, a text with the line breaks `"\r\n"` is empty or
/// ends with `"\r\n"`; before that stands no other line break unless the
/// last line of the text is empty.
pub proof fn lemma_formatted_crlf_end(s: Seq<char>)
    ensures
        formatted_crlf(s, false).len() > 0 ==> {
            let text = formatted_crlf(s, false);
            &&& text.len() >= 3
            &&& text[text.len() - 2] == '\r'
            &&& text.last() == '\n'
            &&& lines(s).last().len() > 0 ==> text[text.len() - 3] != '\n'
        },
{
    let all = lines(s);
    let written = joined(all, crlf());
    if written.len() > 0 {
        lemma_lines_hold_no_line_feed(s);
        if all.len() > 0 && all.last().len() > 0 {
            let last = all.last();
            assert(written.last() == last.last()) by {
                if all.len() == 1 {
                } else {
                    assert(written == joined(all.drop_last(), crlf()) + crlf() + last);
                }
            }
            assert(last[last.len() - 1] != '\n');
        }
    }
}

/// The lines of `text[..len]`.
pub fn lines_of(text: &Vec<char>, len: usize) -> (r: Vec<Vec<char>>)
    requires
        len <= text.len(),
    ensures
        r.deep_view() == lines(text@.take(len as int)),
{
    let mut ended: Vec<Vec<char>> = Vec::new();
    let mut line: Vec<char> = Vec::new();
    let mut i: usize = 0;
    assert(text@.take(0) =~= Seq::<char>::empty());
    assert(ended.deep_view() =~~= ended_lines(split(text@.take(0), '\n')));
    while i < len
        invariant
            i <= len <= text.len(),
            ended.deep_view() == ended_lines(split(text@.take(i as int), '\n')),
            line@ == split(text@.take(i as int), '\n').last(),
        decreases len - i,
    {
        let ghost parts = split(text@.take(i as int), '\n');
        let ghost before = ended.deep_view();
        proof {
            lemma_split_len(text@.take(i as int), '\n');
            assert(text@.take(i + 1).drop_last() == text@.take(i as int));
        }
        let c = text[i];
        if c == '\n' {
            let n = line.len();
            if n > 0 && line[n - 1] == '\r' {
                line.pop();
            }
            assert(line@ =~= without_return(parts.last()));
            ended.push(line);
            line = Vec::new();
            proof {
                let next = parts.push(Seq::<char>::empty());
                assert(next.drop_last() == parts);
                assert(ended_lines(next) =~= ended_lines(parts).push(
                    without_return(parts.last()),
                ));
                assert(ended.deep_view() =~~= before.push(without_return(parts.last())));
            }
        } else {
            line.push(c);
            proof {
                let next = parts.drop_last().push(parts.last().push(c));
                assert(next.drop_last() == parts.drop_last());
            }
        }
        i += 1;
    }
    if line.len() > 0 {
        let ghost before = ended.deep_view();
        ended.push(line);
        assert(ended.deep_view() =~~= before.push(line@));
    }
    ended
}

/// Writes the lines with the separator between each two of them.
pub fn join_lines(lines: &Vec<Vec<char>>, separator: &Vec<char>) -> (r: Vec<char>)
    ensures
        r@ == joined(lines.deep_view(), separator@),
{
    let mut r: Vec<char> = Vec::new();
    let mut i: usize = 0;
    assert(lines.deep_view().take(0) =~= Seq::<Seq<char>>::empty());
    while i < lines.len()
        invariant
            i <= lines.len(),
            r@ == joined(lines.deep_view().take(i as int), separator@),
        decreases lines.len() - i,
    {
        let ghost seen = lines.deep_view().take(i as int);
        let ghost next = lines.deep_view().take(i + 1);
        let ghost before = r@;
        proof {
            assert(next.drop_last() == seen);
            assert(next.last() =~= lines[i as int]@);
        }
        if i > 0 {
            push_range(&mut r, separator, 0, separator.len());
            assert(separator@.subrange(0, separator.len() as int) == separator@);
        }
        let line = &lines[i];
        push_range(&mut r, line, 0, line.len());
        proof {
            assert(line@.subrange(0, line.len() as int) == line@);
            if i == 0 {
                assert(before + line@ == line@);
            }
        }
        i += 1;
    }
    assert(lines.deep_view().take(lines.len() as int) == lines.deep_view());
    r
}

/// The characters of `text` as formatted for their place on a platform.
pub fn format_chars(text: &Vec<char>, inline: bool, line_break: LineBreak) -> (r: Vec<char>)
    ensures
        r@ == formatted_for(text@, inline, line_break),
{
    let len = if inline {
        trimmed_len(text)
    } else {
        text.len()
    };
    assert(text@.take(text.len() as int) == text@);
    match line_break {
        LineBreak::Kept => {
            let mut kept: Vec<char> = Vec::new();
            push_range(&mut kept, text, 0, len);
            assert(text@.subrange(0, len as int) == text@.take(len as int));
            kept
        },
        LineBreak::CrLf => {
            let mut separator: Vec<char> = Vec::new();
            separator.push('\r');
            separator.push('\n');
            assert(separator@ =~= crlf());
            let mut written = join_lines(&lines_of(text, len), &separator);
            if !inline && written.len() > 0 {
                written.push('\r');
                written.push('\n');
                assert(written@ =~= joined(lines(text@), crlf()) + crlf());
            }
            written
        },
    }
}

/// Prepares the text that a command printed for its place in a document, on
/// a platform that asks for the line break `"\r\n"`.
pub fn format_whitespace_crlf(str: Cow<'_, str>, inline: bool) -> (r: String)
    ensures
        r@ == formatted_crlf(str@, inline),
{
    let text = match &str {
        Cow::Borrowed(s) => chars_of(s),
        Cow::Owned(s) => chars_of(s.as_str()),
    };
    let written = format_chars(&text, inline, LineBreak::CrLf);
    assert(written@.subrange(0, written.len() as int) == written@);
    string_of(&written, 0, written.len())
}

} // verus!
