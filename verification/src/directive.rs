//! The grammar of the run directives that a document holds, and the scanner
//! that finds them.
//!
//! A directive is the marker `<!--`, any number of spaces, the word `run` and
//! one space, a payload that holds no line feed, and the marker `-->`. In
//! its line form a line break (`"\n"` or `"\r\n"`) follows the closing marker
//! and belongs to the directive; the inline form ends with the marker. The
//! payload is the shortest that lets the directive end, and of two
//! directives the one that starts first is found first.
//!
//! All positions count characters; `byte_range` turns them into positions
//! in the bytes of a string.
use crate::utils::string::{push_range, string_of};
use std::ops::Range;
use vstd::prelude::*;

verus! {

/// The two forms of a run directive.
#[derive(Clone, Copy, Debug, PartialEq, Eq, Structural)]
pub enum DirectiveKind {
    /// A directive with the line break that follows it.
    Line,
    /// A directive in the middle of other text.
    Inline,
}

/// A directive found in a text.
#[derive(Debug)]
pub struct Directive {
    /// What stands between the word `run ` and the closing marker.
    pub payload: String,
    /// The characters of the text that the directive takes up.
    pub range: Range<usize>,
    pub kind: DirectiveKind,
}

/// What a [`Directive`] holds, as the contracts see it.
pub ghost struct DirectiveView {
    pub payload: Seq<char>,
    pub start: int,
    pub end: int,
    pub kind: DirectiveKind,
}

impl View for Directive {
    type V = DirectiveView;

    open spec fn view(&self) -> DirectiveView {
        DirectiveView {
            payload: self.payload@,
            start: self.range.start as int,
            end: self.range.end as int,
            kind: self.kind,
        }
    }
}

impl DeepView for Directive {
    type V = DirectiveView;

    open spec fn deep_view(&self) -> DirectiveView {
        self@
    }
}

/// Where a directive stands in a text: it takes up `start..end`, and its
/// payload `payload_start..payload_end`.
pub ghost struct Span {
    pub start: int,
    pub payload_start: int,
    pub payload_end: int,
    pub end: int,
}

impl Span {
    /// The directive that stands at this place of `text`.
    pub open spec fn directive(self, text: Seq<char>, kind: DirectiveKind) -> DirectiveView {
        DirectiveView {
            payload: text.subrange(self.payload_start, self.payload_end),
            start: self.start,
            end: self.end,
            kind,
        }
    }
}

/// The opening marker `<!--` stands at `at`.
pub open spec fn opens_at(text: Seq<char>, at: int) -> bool {
    &&& 0 <= at
    &&& at + 4 <= text.len()
    &&& text[at] == '<'
    &&& text[at + 1] == '!'
    &&& text[at + 2] == '-'
    &&& text[at + 3] == '-'
}

/// The first place from `from` on that holds no space.
pub open spec fn skip_spaces(text: Seq<char>, from: int) -> int
    decreases text.len() - from,
{
    if 0 <= from < text.len() && text[from] == ' ' {
        skip_spaces(text, from + 1)
    } else {
        from
    }
}

/// The word `run` and one space stand at `at`.
pub open spec fn keyword_at(text: Seq<char>, at: int) -> bool {
    &&& 0 <= at
    &&& at + 4 <= text.len()
    &&& text[at] == 'r'
    &&& text[at + 1] == 'u'
    &&& text[at + 2] == 'n'
    &&& text[at + 3] == ' '
}

/// The length of the line break that stands at `at`: 1 for `"\n"`, 2 for
/// `"\r\n"`, 0 where there is none.
pub open spec fn break_len(text: Seq<char>, at: int) -> int {
    if 0 <= at < text.len() && text[at] == '\n' {
        1
    } else if 0 <= at && at + 1 < text.len() && text[at] == '\r' && text[at + 1] == '\n' {
        2
    } else {
        0
    }
}

/// A directive of the given kind can end its payload at `at`: the closing
/// marker `-->` stands there, and for the line form a line break follows it.
pub open spec fn closes_at(text: Seq<char>, at: int, kind: DirectiveKind) -> bool {
    &&& 0 <= at
    &&& at + 3 <= text.len()
    &&& text[at] == '-'
    &&& text[at + 1] == '-'
    &&& text[at + 2] == '>'
    &&& (kind == DirectiveKind::Line ==> break_len(text, at + 3) > 0)
}

/// Where the payload that starts at `from` ends: at the first place where
/// the directive can close, if no line feed comes before it.
pub open spec fn payload_end(text: Seq<char>, from: int, kind: DirectiveKind) -> Option<int>
    decreases text.len() - from,
{
    if from < 0 || from >= text.len() {
        None
    } else if closes_at(text, from, kind) {
        Some(from)
    } else if text[from] == '\n' {
        None
    } else {
        payload_end(text, from + 1, kind)
    }
}

/// The directive of the given kind that starts at `at`, if there is one.
pub open spec fn directive_at(text: Seq<char>, at: int, kind: DirectiveKind) -> Option<Span> {
    let word = skip_spaces(text, at + 4);
    if opens_at(text, at) && keyword_at(text, word) {
        match payload_end(text, word + 4, kind) {
            Some(close) => Some(
                Span {
                    start: at,
                    payload_start: word + 4,
                    payload_end: close,
                    end: close + 3 + if kind == DirectiveKind::Line {
                        break_len(text, close + 3)
                    } else {
                        0
                    },
                },
            ),
            None => None,
        }
    } else {
        None
    }
}

/// The first directive of the given kind that starts at `from` or later.
pub open spec fn next_directive(text: Seq<char>, from: int, kind: DirectiveKind) -> Option<Span>
    decreases text.len() - from,
{
    if from < 0 || from >= text.len() {
        None
    } else if directive_at(text, from, kind) is Some {
        directive_at(text, from, kind)
    } else {
        next_directive(text, from + 1, kind)
    }
}

/// The directives of the given kind in `text` from `from` on: the first one,
/// then those that follow its end.
pub open spec fn directives(text: Seq<char>, from: int, kind: DirectiveKind) -> Seq<Span>
    decreases text.len() - from,
    via directives_decreases
{
    match next_directive(text, from, kind) {
        Some(found) => seq![found] + directives(text, found.end, kind),
        None => Seq::empty(),
    }
}

/// The directive that is found next ends after `from`.
#[via_fn]
proof fn directives_decreases(text: Seq<char>, from: int, kind: DirectiveKind) {
    if from >= 0 {
        lemma_next_directive(text, from, kind);
    }
}

/// All directives of the given kind in `text`, in the order in which they
/// stand.
pub open spec fn found_in(text: Seq<char>, kind: DirectiveKind) -> Seq<DirectiveView> {
    directives(text, 0, kind).map_values(|span: Span| span.directive(text, kind))
}

/// `span` is a directive of the given kind in `text`: the opening marker,
/// spaces, the word `run` and a space, a payload without a line feed that
/// ends where the directive can first close, the closing marker, and for
/// the line form the line break.
pub open spec fn is_directive(text: Seq<char>, span: Span, kind: DirectiveKind) -> bool {
    &&& opens_at(text, span.start)
    &&& span.start + 8 <= span.payload_start
    &&& forall|j: int| span.start + 4 <= j < span.payload_start - 4 ==> text[j] == ' '
    &&& keyword_at(text, span.payload_start - 4)
    &&& span.payload_start <= span.payload_end
    &&& forall|j: int|
        span.payload_start <= j < span.payload_end ==> text[j] != '\n' && !closes_at(text, j, kind)
    &&& closes_at(text, span.payload_end, kind)
    &&& span.end == span.payload_end + 3 + if kind == DirectiveKind::Line {
        break_len(text, span.payload_end + 3)
    } else {
        0
    }
}

/// The bounds of the gap that `skip_spaces` crosses.
pub proof fn lemma_skip_spaces(text: Seq<char>, from: int)
    requires
        0 <= from <= text.len(),
    ensures
        from <= skip_spaces(text, from) <= text.len(),
        forall|j: int| from <= j < skip_spaces(text, from) ==> text[j] == ' ',
        skip_spaces(text, from) < text.len() ==> text[skip_spaces(text, from)] != ' ',
    decreases text.len() - from,
{
    if from < text.len() && text[from] == ' ' {
        lemma_skip_spaces(text, from + 1);
    }
}

/// A payload ends at the first place where its directive can close, and no
/// line feed stands in it.
pub proof fn lemma_payload_end(text: Seq<char>, from: int, kind: DirectiveKind)
    requires
        0 <= from,
    ensures
        match payload_end(text, from, kind) {
            Some(close) => {
                &&& from <= close
                &&& closes_at(text, close, kind)
                &&& forall|j: int|
                    from <= j < close ==> text[j] != '\n' && !closes_at(text, j, kind)
            },
            None => forall|close: int|
                from <= close && #[trigger] closes_at(text, close, kind) ==> exists|j: int|
                    from <= j < close && text[j] == '\n',
        },
    decreases text.len() - from,
{
    if from >= text.len() {
    } else if closes_at(text, from, kind) {
    } else {
        lemma_payload_end(text, from + 1, kind);
        if text[from] == '\n' {
            assert forall|close: int|
                from <= close && #[trigger] closes_at(text, close, kind) implies exists|j: int|
                from <= j < close && text[j] == '\n' by {
                assert(from <= from < close && text[from] == '\n');
            }
        } else {
            match payload_end(text, from + 1, kind) {
                Some(close) => {},
                None => {
                    assert forall|close: int|
                        from <= close && #[trigger] closes_at(
                            text,
                            close,
                            kind,
                        ) implies exists|j: int| from <= j < close && text[j] == '\n' by {
                        let j = choose|j: int| from + 1 <= j < close && text[j] == '\n';
                        assert(from <= j < close && text[j] == '\n');
                    }
                },
            }
        }
    }
}

/// The directive that starts at a place is the one directive that the
/// grammar allows there.
pub proof fn lemma_directive_at_is_directive(
    text: Seq<char>,
    at: int,
    span: Span,
    kind: DirectiveKind,
)
    ensures
        directive_at(text, at, kind) == Some(span) <==> span.start == at && is_directive(
            text,
            span,
            kind,
        ),
{
    if opens_at(text, at) {
        let word = skip_spaces(text, at + 4);
        lemma_skip_spaces(text, at + 4);
        lemma_payload_end(text, word + 4, kind);
        if span.start == at && is_directive(text, span, kind) {
            if word < span.payload_start - 4 {
                assert(text[word] == ' ');
            }
            if word > span.payload_start - 4 {
                assert(text[span.payload_start - 4] == ' ');
            }
            assert(word == span.payload_start - 4);
            match payload_end(text, word + 4, kind) {
                Some(close) => {
                    if close < span.payload_end {
                        assert(!closes_at(text, close, kind));
                    }
                    if close > span.payload_end {
                        assert(!closes_at(text, span.payload_end, kind));
                    }
                },
                None => {
                    assert(closes_at(text, span.payload_end, kind));
                    let j = choose|j: int| word + 4 <= j < span.payload_end && text[j] == '\n';
                    assert(text[j] != '\n');
                },
            }
        }
    }
}

/// The order of the four places of a directive.
pub proof fn lemma_directive_at(text: Seq<char>, at: int, kind: DirectiveKind)
    ensures
        match directive_at(text, at, kind) {
            Some(span) => {
                &&& 0 <= at == span.start
                &&& span.start + 8 <= span.payload_start <= span.payload_end
                &&& span.payload_end + 3 <= span.end <= text.len()
                &&& span.end <= span.payload_end + 5
            },
            None => true,
        },
{
    if opens_at(text, at) {
        lemma_skip_spaces(text, at + 4);
        lemma_payload_end(text, skip_spaces(text, at + 4) + 4, kind);
    }
}

/// The directive that is found next is the first one from `from` on.
pub proof fn lemma_next_directive(text: Seq<char>, from: int, kind: DirectiveKind)
    requires
        0 <= from,
    ensures
        match next_directive(text, from, kind) {
            Some(span) => {
                &&& from <= span.start < span.end <= text.len()
                &&& directive_at(text, span.start, kind) == Some(span)
                &&& forall|j: int| from <= j < span.start ==> directive_at(text, j, kind) is None
            },
            None => forall|j: int| from <= j ==> directive_at(text, j, kind) is None,
        },
    decreases text.len() - from,
{
    if from >= text.len() {
    } else if directive_at(text, from, kind) is Some {
        lemma_directive_at(text, from, kind);
    } else {
        lemma_next_directive(text, from + 1, kind);
    }
}

/// Whether the opening marker stands at `at`.
fn opens_here(text: &Vec<char>, at: usize) -> (r: bool)
    ensures
        r == opens_at(text@, at as int),
{
    at <= text.len() && text.len() - at >= 4 && text[at] == '<' && text[at + 1] == '!' && text[at
        + 2] == '-' && text[at + 3] == '-'
}

/// Whether the word `run` and one space stand at `at`.
fn keyword_here(text: &Vec<char>, at: usize) -> (r: bool)
    ensures
        r == keyword_at(text@, at as int),
{
    at <= text.len() && text.len() - at >= 4 && text[at] == 'r' && text[at + 1] == 'u' && text[at
        + 2] == 'n' && text[at + 3] == ' '
}

/// The length of the line break that stands at `at`.
fn break_len_here(text: &Vec<char>, at: usize) -> (r: usize)
    ensures
        r == break_len(text@, at as int),
{
    if at < text.len() && text[at] == '\n' {
        1
    } else if at < text.len() && text.len() - at >= 2 && text[at] == '\r' && text[at + 1]
        == '\n' {
        2
    } else {
        0
    }
}

/// Whether a directive of the given kind can end its payload at `at`.
fn closes_here(text: &Vec<char>, at: usize, kind: DirectiveKind) -> (r: bool)
    ensures
        r == closes_at(text@, at as int, kind),
{
    if at <= text.len() && text.len() - at >= 3 && text[at] == '-' && text[at + 1] == '-'
        && text[at + 2] == '>' {
        match kind {
            DirectiveKind::Line => break_len_here(text, at + 3) > 0,
            DirectiveKind::Inline => true,
        }
    } else {
        false
    }
}

/// The first place from `from` on that holds no space.
fn skip_spaces_from(text: &Vec<char>, from: usize) -> (r: usize)
    requires
        from <= text.len(),
    ensures
        r == skip_spaces(text@, from as int),
        from <= r <= text.len(),
{
    let mut i: usize = from;
    while i < text.len() && text[i] == ' '
        invariant
            from <= i <= text.len(),
            skip_spaces(text@, from as int) == skip_spaces(text@, i as int),
        decreases text.len() - i,
    {
        i += 1;
    }
    i
}

/// Where the payload that starts at `from` ends, if it ends.
fn find_payload_end(text: &Vec<char>, from: usize, kind: DirectiveKind) -> (r: Option<usize>)
    requires
        from <= text.len(),
    ensures
        match r {
            Some(close) => payload_end(text@, from as int, kind) == Some(close as int),
            None => payload_end(text@, from as int, kind) is None,
        },
{
    let mut i: usize = from;
    while i < text.len()
        invariant
            from <= i <= text.len(),
            payload_end(text@, from as int, kind) == payload_end(text@, i as int, kind),
        decreases text.len() - i,
    {
        if closes_here(text, i, kind) {
            return Some(i);
        }
        if text[i] == '\n' {
            return None;
        }
        i += 1;
    }
    None
}

/// The directive of the given kind that starts at `at`, if there is one.
pub fn find_directive_at(text: &Vec<char>, at: usize, kind: DirectiveKind) -> (r: Option<
    Directive,
>)
    ensures
        match r {
            Some(found) => directive_at(text@, at as int, kind) is Some && found@ == directive_at(
                text@,
                at as int,
                kind,
            )->0.directive(text@, kind),
            None => directive_at(text@, at as int, kind) is None,
        },
{
    if !opens_here(text, at) {
        return None;
    }
    assert(at + 4 <= text.len());
    let word = skip_spaces_from(text, at + 4);
    if !keyword_here(text, word) {
        return None;
    }
    match find_payload_end(text, word + 4, kind) {
        Some(close) => {
            proof {
                lemma_directive_at(text@, at as int, kind);
            }
            let tail = match kind {
                DirectiveKind::Line => break_len_here(text, close + 3),
                DirectiveKind::Inline => 0,
            };
            Some(
                Directive {
                    payload: string_of(text, word + 4, close),
                    range: at..close + 3 + tail,
                    kind,
                },
            )
        },
        None => None,
    }
}

/// The first directive of the given kind that starts at `from` or later.
pub fn find_next_directive(text: &Vec<char>, from: usize, kind: DirectiveKind) -> (r: Option<
    Directive,
>)
    ensures
        match r {
            Some(found) => next_directive(text@, from as int, kind) is Some && found@
                == next_directive(text@, from as int, kind)->0.directive(text@, kind),
            None => next_directive(text@, from as int, kind) is None,
        },
{
    let mut at: usize = from;
    while at < text.len()
        invariant
            from <= at,
            next_directive(text@, from as int, kind) == next_directive(text@, at as int, kind),
        decreases text.len() - at,
    {
        let found = find_directive_at(text, at, kind);
        if found.is_some() {
            return found;
        }
        at += 1;
    }
    None
}

/// All directives of the given kind in `text`, in the order in which they
/// stand; none overlaps another.
pub fn find_directives(text: &Vec<char>, kind: DirectiveKind) -> (r: Vec<Directive>)
    ensures
        r.deep_view() == found_in(text@, kind),
{
    let mut found: Vec<Directive> = Vec::new();
    let mut from: usize = 0;
    let ghost mut seen: Seq<Span> = Seq::empty();
    loop
        invariant
            from <= text.len(),
            directives(text@, 0, kind) == seen + directives(text@, from as int, kind),
            found.deep_view() == seen.map_values(|span: Span| span.directive(text@, kind)),
        decreases text.len() - from,
    {
        proof {
            lemma_next_directive(text@, from as int, kind);
        }
        match find_next_directive(text, from, kind) {
            Some(next) => {
                let ghost span = next_directive(text@, from as int, kind)->0;
                let ghost before = found.deep_view();
                proof {
                    assert(directives(text@, from as int, kind) == seq![span] + directives(
                        text@,
                        span.end,
                        kind,
                    ));
                    assert(seen + (seq![span] + directives(text@, span.end, kind)) == seen.push(
                        span,
                    ) + directives(text@, span.end, kind));
                }
                from = next.range.end;
                found.push(next);
                proof {
                    assert(found.deep_view() == before.push(span.directive(text@, kind)));
                    assert(seen.push(span).map_values(|span: Span| span.directive(text@, kind))
                        == seen.map_values(|span: Span| span.directive(text@, kind)).push(
                        span.directive(text@, kind),
                    ));
                    seen = seen.push(span);
                }
            },
            None => {
                proof {
                    assert(directives(text@, from as int, kind) == Seq::<Span>::empty());
                    assert(seen + Seq::<Span>::empty() == seen);
                }
                return found;
            },
        }
    }
}

/// The directives stand in `text` one after the other, from `from` on.
pub open spec fn in_order(found: Seq<DirectiveView>, from: int, len: int) -> bool
    decreases found.len(),
{
    if found.len() == 0 {
        0 <= from <= len
    } else {
        &&& 0 <= from <= found[0].start <= found[0].end <= len
        &&& in_order(found.drop_first(), found[0].end, len)
    }
}

/// `text` from `from` on, with each directive replaced by the output that
/// stands at its place in `outputs`; the text between and after the
/// directives is kept as it is.
pub open spec fn spliced(
    text: Seq<char>,
    from: int,
    found: Seq<DirectiveView>,
    outputs: Seq<Seq<char>>,
) -> Seq<char>
    decreases found.len(),
{
    if found.len() == 0 || outputs.len() == 0 {
        text.subrange(from, text.len() as int)
    } else {
        text.subrange(from, found[0].start) + outputs[0] + spliced(
            text,
            found[0].end,
            found.drop_first(),
            outputs.drop_first(),
        )
    }
}

/// The directives that the scanner finds stand in the text one after the
/// other: none overlaps another, and none reaches beyond the end.
pub proof fn lemma_directives_in_order(text: Seq<char>, from: int, kind: DirectiveKind)
    requires
        0 <= from <= text.len(),
    ensures
        in_order(
            directives(text, from, kind).map_values(|span: Span| span.directive(text, kind)),
            from,
            text.len() as int,
        ),
    decreases text.len() - from,
{
    let view = |span: Span| span.directive(text, kind);
    lemma_next_directive(text, from, kind);
    match next_directive(text, from, kind) {
        Some(span) => {
            lemma_directives_in_order(text, span.end, kind);
            let rest = directives(text, span.end, kind);
            assert(directives(text, from, kind) == seq![span] + rest);
            assert((seq![span] + rest).map_values(view).drop_first() == rest.map_values(view));
        },
        None => {},
    }
}

/// A line directive takes in the line break that follows its closing marker,
/// so that its last character is a line feed; an inline directive ends with
/// its closing marker and takes in nothing that follows it.
pub proof fn lemma_directive_end(text: Seq<char>, at: int, kind: DirectiveKind)
    requires
        directive_at(text, at, kind) is Some,
    ensures
        ({
            let span = directive_at(text, at, kind)->0;
            &&& 0 <= span.payload_end
            &&& span.payload_end + 3 <= span.end <= text.len()
            &&& text.subrange(span.payload_end, span.payload_end + 3) == seq!['-', '-', '>']
            &&& kind == DirectiveKind::Inline ==> span.end == span.payload_end + 3
            &&& kind == DirectiveKind::Line ==> {
                &&& text[span.end - 1] == '\n'
                &&& text.subrange(span.payload_end + 3, span.end) == seq!['\n']
                    || text.subrange(span.payload_end + 3, span.end) == seq!['\r', '\n']
            }
        }),
{
    let span = directive_at(text, at, kind)->0;
    lemma_directive_at(text, at, kind);
    lemma_skip_spaces(text, at + 4);
    lemma_payload_end(text, span.payload_start, kind);
    assert(text.subrange(span.payload_end, span.payload_end + 3) =~= seq!['-', '-', '>']);
    if kind == DirectiveKind::Line {
        if break_len(text, span.payload_end + 3) == 1 {
            assert(text.subrange(span.payload_end + 3, span.end) =~= seq!['\n']);
        } else {
            assert(text.subrange(span.payload_end + 3, span.end) =~= seq!['\r', '\n']);
        }
    }
}

/// Each directive that the scanner finds is the directive that starts at its
/// place.
pub proof fn lemma_found_directive(text: Seq<char>, from: int, kind: DirectiveKind, i: int)
    requires
        0 <= from,
        0 <= i < directives(text, from, kind).len(),
    ensures
        from <= directives(text, from, kind)[i].start,
        directive_at(text, directives(text, from, kind)[i].start, kind) == Some(
            directives(text, from, kind)[i],
        ),
    decreases i,
{
    lemma_next_directive(text, from, kind);
    let first = next_directive(text, from, kind)->0;
    if i > 0 {
        lemma_found_directive(text, first.end, kind, i - 1);
    }
}

/// Of each directive that the scanner finds: a line directive ends with
/// its closing marker and the line break after it, so that its last
/// character is a line feed; an inline directive ends with its closing
/// marker, and a line break that follows is left in the text.
pub proof fn lemma_found_directive_end(text: Seq<char>, kind: DirectiveKind, i: int)
    requires
        0 <= i < found_in(text, kind).len(),
    ensures
        ({
            let found = found_in(text, kind)[i];
            &&& 0 <= found.start
            &&& found.start + 11 <= found.end <= text.len()
            &&& kind == DirectiveKind::Inline ==> text.subrange(found.end - 3, found.end) == seq![
                '-',
                '-',
                '>',
            ]
            &&& kind == DirectiveKind::Line ==> {
                ||| text.subrange(found.end - 4, found.end) == seq!['-', '-', '>', '\n']
                ||| text.subrange(found.end - 5, found.end) == seq!['-', '-', '>', '\r', '\n']
            }
        }),
{
    let span = directives(text, 0, kind)[i];
    lemma_found_directive(text, 0, kind, i);
    lemma_directive_at(text, span.start, kind);
    lemma_directive_end(text, span.start, kind);
    let close = text.subrange(span.payload_end, span.payload_end + 3);
    let tail = text.subrange(span.payload_end + 3, span.end);
    assert(close[0] == '-' && close[1] == '-' && close[2] == '>');
    match kind {
        DirectiveKind::Inline => {},
        DirectiveKind::Line => {
            if tail == seq!['\n'] {
                assert(tail[0] == '\n');
                assert(text.subrange(span.end - 4, span.end) =~= seq!['-', '-', '>', '\n']);
            } else {
                assert(tail[0] == '\r' && tail[1] == '\n');
                assert(text.subrange(span.end - 5, span.end) =~= seq![
                    '-',
                    '-',
                    '>',
                    '\r',
                    '\n',
                ]);
            }
        },
    }
}

/// A text in which no directive starts anywhere holds no directive, and
/// replacing its directives leaves it as it is.
pub proof fn lemma_no_directive_unchanged(text: Seq<char>, kind: DirectiveKind)
    requires
        forall|at: int| directive_at(text, at, kind) is None,
    ensures
        found_in(text, kind) == Seq::<DirectiveView>::empty(),
        forall|outputs: Seq<Seq<char>>| #[trigger]
            spliced(text, 0, found_in(text, kind), outputs) == text,
{
    lemma_next_directive(text, 0, kind);
    assert(found_in(text, kind) =~= Seq::<DirectiveView>::empty());
    assert(text.subrange(0, text.len() as int) == text);
}

/// Writes `text` with each directive replaced by its output.
pub fn substitute(text: &Vec<char>, found: &Vec<Directive>, outputs: &Vec<Vec<char>>) -> (r: Vec<
    char,
>)
    requires
        in_order(found.deep_view(), 0, text.len() as int),
        outputs.len() == found.len(),
    ensures
        r@ == spliced(text@, 0, found.deep_view(), outputs.deep_view()),
{
    let mut out: Vec<char> = Vec::new();
    let mut from: usize = 0;
    let mut i: usize = 0;
    assert(found.deep_view().skip(0) == found.deep_view());
    assert(outputs.deep_view().skip(0) == outputs.deep_view());
    while i < found.len()
        invariant
            i <= found.len() == outputs.len(),
            from <= text.len(),
            in_order(found.deep_view().skip(i as int), from as int, text.len() as int),
            spliced(text@, 0, found.deep_view(), outputs.deep_view()) == out@ + spliced(
                text@,
                from as int,
                found.deep_view().skip(i as int),
                outputs.deep_view().skip(i as int),
            ),
        decreases found.len() - i,
    {
        let ghost rest = found.deep_view().skip(i as int);
        let ghost texts = outputs.deep_view().skip(i as int);
        let ghost before = out@;
        proof {
            assert(rest[0] == found[i as int]@);
            assert(texts[0] == outputs[i as int]@);
            assert(rest.drop_first() == found.deep_view().skip(i + 1));
            assert(texts.drop_first() == outputs.deep_view().skip(i + 1));
        }
        let next = &found[i];
        push_range(&mut out, text, from, next.range.start);
        let output = &outputs[i];
        push_range(&mut out, output, 0, output.len());
        proof {
            assert(output@.subrange(0, output.len() as int) == output@);
            assert(before + (text@.subrange(from as int, rest[0].start) + texts[0] + spliced(
                text@,
                rest[0].end,
                rest.drop_first(),
                texts.drop_first(),
            )) == out@ + spliced(text@, rest[0].end, rest.drop_first(), texts.drop_first()));
        }
        from = next.range.end;
        i += 1;
    }
    push_range(&mut out, text, from, text.len());
    out
}

} // verus!
