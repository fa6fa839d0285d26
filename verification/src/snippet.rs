//! Code snippets: the fenced blocks of a document, the requests to run them,
//! and the blocks that show what they printed.
//!
//! A fence is three backticks with the rest of their line, which holds the
//! flags. The fences of a document pair up in order, an opening one with
//! the closing one that follows it. All positions count characters;
//! `byte_range` turns them into positions in the bytes of a string.
use crate::ocirun::{clone_strings, LangConfig, LangConfigView, OciRun, RunError};
use crate::utils::string::{chars_of, push_range, split, split_range, string_of};
use std::ops::Range;
use vstd::prelude::*;

verus! {

/// How a snippet is run: in which image, by which command.
#[derive(Hash, Eq, PartialEq, Debug)]
pub struct Config {
    pub image: String,
    pub command: Vec<String>,
}

/// What a [`Config`] holds, as the contracts see it.
pub ghost struct ConfigView {
    pub image: Seq<char>,
    pub command: Seq<Seq<char>>,
}

impl View for Config {
    type V = ConfigView;

    open spec fn view(&self) -> ConfigView {
        ConfigView { image: self.image@, command: self.command.deep_view() }
    }
}

impl From<&LangConfig> for Config {
    /// The image and the command of a language.
    fn from(value: &LangConfig) -> (r: Self)
        ensures
            r@ == (ConfigView { image: value@.image, command: value@.command }),
    {
        Config { image: value.image.clone(), command: clone_strings(&value.command) }
    }
}

impl vstd::std_specs::convert::FromSpecImpl<&LangConfig> for Config {
    /// The copy is a new value: it is the language's image and command by
    /// their characters, as `from` states, not by identity.
    open spec fn obeys_from_spec() -> bool {
        false
    }

    open spec fn from_spec(value: &LangConfig) -> Config {
        Config { image: value.image, command: value.command }
    }
}

/// A text that is given either as it is or by the name of the file that
/// holds it.
#[derive(Debug, PartialEq)]
pub enum Source {
    File(String),
    String(String),
}

/// What a [`Source`] holds, as the contracts see it.
pub ghost enum SourceView {
    File(Seq<char>),
    String(Seq<char>),
}

impl View for Source {
    type V = SourceView;

    open spec fn view(&self) -> SourceView {
        match self {
            Source::File(name) => SourceView::File(name@),
            Source::String(text) => SourceView::String(text@),
        }
    }
}

impl SourceView {
    /// The text that the source stands for, where `file_text` is what its
    /// file holds.
    pub open spec fn content(self, file_text: Seq<char>) -> Seq<char> {
        match self {
            SourceView::File(_) => file_text,
            SourceView::String(text) => text,
        }
    }
}

/// A request to run a snippet: the code, what it reads on its standard
/// input, what it is expected to print, and how it is run.
#[derive(Debug, PartialEq)]
pub struct CodeSnippet {
    pub source: Source,
    pub input: Option<Source>,
    pub expected: Option<Result<Source, Source>>,
    pub config: Config,
}

/// What a [`CodeSnippet`] holds, as the contracts see it.
pub ghost struct CodeSnippetView {
    pub source: SourceView,
    pub input: Option<SourceView>,
    pub expected: Option<Result<SourceView, SourceView>>,
    pub config: ConfigView,
}

impl View for CodeSnippet {
    type V = CodeSnippetView;

    open spec fn view(&self) -> CodeSnippetView {
        CodeSnippetView {
            source: self.source@,
            input: match self.input {
                Some(input) => Some(input@),
                None => None,
            },
            expected: match self.expected {
                Some(Ok(text)) => Some(Ok(text@)),
                Some(Err(text)) => Some(Err(text@)),
                None => None,
            },
            config: self.config@,
        }
    }
}

/// Something that runs a snippet and hands back what it printed: as `Ok`
/// where the run succeeded, as `Err` where it failed.
pub trait SnippetRunner {
    /// A run of `snippet` by this runner can give `outcome`. A runner that
    /// says nothing of its runs can give any outcome.
    open spec fn gives(
        &self,
        snippet: CodeSnippetView,
        outcome: Result<Seq<char>, Seq<char>>,
    ) -> bool {
        true
    }

    /// Runs `snippet` and hands back what it printed.
    fn run(&self, snippet: &CodeSnippet) -> (r: Result<String, String>)
        ensures
            self.gives(snippet@, outcome_view(r)),
    ;
}

/// Three backticks stand at `at`.
pub open spec fn fence_at(text: Seq<char>, at: int) -> bool {
    &&& 0 <= at
    &&& at + 3 <= text.len()
    &&& text[at] == '`'
    &&& text[at + 1] == '`'
    &&& text[at + 2] == '`'
}

/// The end of the line that `from` stands in: the place of the next line
/// feed, or the end of the text.
pub open spec fn line_end(text: Seq<char>, from: int) -> int
    decreases text.len() - from,
{
    if 0 <= from < text.len() && text[from] != '\n' {
        line_end(text, from + 1)
    } else {
        from
    }
}

/// The place of the first fence at `from` or later.
pub open spec fn next_fence(text: Seq<char>, from: int) -> Option<int>
    decreases text.len() - from,
{
    if from < 0 || from >= text.len() {
        None
    } else if fence_at(text, from) {
        Some(from)
    } else {
        next_fence(text, from + 1)
    }
}

/// A fenced block of a document.
#[derive(Debug)]
pub struct SnippetRef {
    /// The flags of the opening fence, which commas separate.
    pub flags: Vec<String>,
    /// The whole block: from the opening fence to the end of the line of the
    /// closing fence.
    pub all_range: Range<usize>,
    /// What stands between the line of the opening fence and the closing
    /// fence.
    pub source_range: Range<usize>,
}

/// What a [`SnippetRef`] holds, as the contracts see it.
pub ghost struct SnippetRefView {
    pub flags: Seq<Seq<char>>,
    pub start: int,
    pub end: int,
    pub source_start: int,
    pub source_end: int,
}

impl View for SnippetRef {
    type V = SnippetRefView;

    open spec fn view(&self) -> SnippetRefView {
        SnippetRefView {
            flags: self.flags.deep_view(),
            start: self.all_range.start as int,
            end: self.all_range.end as int,
            source_start: self.source_range.start as int,
            source_end: self.source_range.end as int,
        }
    }
}

impl DeepView for SnippetRef {
    type V = SnippetRefView;

    open spec fn deep_view(&self) -> SnippetRefView {
        self@
    }
}

/// The block whose opening fence stands at `open` and whose closing fence
/// stands at `close`.
pub open spec fn snippet_between(text: Seq<char>, open: int, close: int) -> SnippetRefView {
    SnippetRefView {
        flags: split(text.subrange(open + 3, line_end(text, open + 3)), ','),
        start: open,
        end: line_end(text, close + 3),
        source_start: line_end(text, open + 3),
        source_end: close,
    }
}

/// The blocks of `text` from `from` on. The fences pair up in order; a pair
/// whose opening fence has no flags is passed over, and a fence that is left
/// without a partner opens no block.
pub open spec fn snippets_from(text: Seq<char>, from: int) -> Seq<SnippetRefView>
    decreases text.len() - from,
    via snippets_from_decreases
{
    match next_fence(text, from) {
        Some(open) => match next_fence(text, line_end(text, open + 3)) {
            Some(close) => {
                let rest = snippets_from(text, line_end(text, close + 3));
                if line_end(text, open + 3) > open + 3 {
                    seq![snippet_between(text, open, close)] + rest
                } else {
                    rest
                }
            },
            None => Seq::empty(),
        },
        None => Seq::empty(),
    }
}

/// The closing fence of the block that is found next ends after `from`.
#[via_fn]
proof fn snippets_from_decreases(text: Seq<char>, from: int) {
    if from >= 0 {
        lemma_next_fence(text, from);
        if let Some(open) = next_fence(text, from) {
            lemma_line_end(text, open + 3);
            lemma_next_fence(text, line_end(text, open + 3));
            if let Some(close) = next_fence(text, line_end(text, open + 3)) {
                lemma_line_end(text, close + 3);
            }
        }
    }
}

/// The bounds of the line that `line_end` crosses.
pub proof fn lemma_line_end(text: Seq<char>, from: int)
    requires
        0 <= from <= text.len(),
    ensures
        from <= line_end(text, from) <= text.len(),
        forall|j: int| from <= j < line_end(text, from) ==> text[j] != '\n',
        line_end(text, from) < text.len() ==> text[line_end(text, from)] == '\n',
    decreases text.len() - from,
{
    if from < text.len() && text[from] != '\n' {
        lemma_line_end(text, from + 1);
    }
}

/// The fence that is found next is the first one from `from` on.
pub proof fn lemma_next_fence(text: Seq<char>, from: int)
    requires
        0 <= from,
    ensures
        match next_fence(text, from) {
            Some(at) => {
                &&& from <= at
                &&& fence_at(text, at)
                &&& forall|j: int| from <= j < at ==> !fence_at(text, j)
            },
            None => forall|j: int| from <= j ==> !fence_at(text, j),
        },
    decreases text.len() - from,
{
    if from < text.len() && !fence_at(text, from) {
        lemma_next_fence(text, from + 1);
    }
}

/// The end of the line that `from` stands in.
fn find_line_end(text: &Vec<char>, from: usize) -> (r: usize)
    requires
        from <= text.len(),
    ensures
        r == line_end(text@, from as int),
        from <= r <= text.len(),
{
    let mut i: usize = from;
    while i < text.len() && text[i] != '\n'
        invariant
            from <= i <= text.len(),
            line_end(text@, from as int) == line_end(text@, i as int),
        decreases text.len() - i,
    {
        i += 1;
    }
    i
}

/// The place of the first fence at `from` or later.
fn find_next_fence(text: &Vec<char>, from: usize) -> (r: Option<usize>)
    ensures
        match r {
            Some(at) => next_fence(text@, from as int) == Some(at as int) && from <= at && at + 3
                <= text.len(),
            None => next_fence(text@, from as int) is None,
        },
{
    let mut i: usize = from;
    while i < text.len()
        invariant
            from <= i,
            next_fence(text@, from as int) == next_fence(text@, i as int),
        decreases text.len() - i,
    {
        if text.len() - i >= 3 && text[i] == '`' && text[i + 1] == '`' && text[i + 2] == '`' {
            return Some(i);
        }
        i += 1;
    }
    None
}

impl SnippetRef {
    /// The code of the block, in the document `text` that it was found in.
    pub fn get_source<'a>(&self, text: &'a str) -> (r: &'a str)
        requires
            self.source_range.start <= self.source_range.end <= text@.len(),
        ensures
            r@ == text@.subrange(self@.source_start, self@.source_end),
    {
        text.substring_char(self.source_range.start, self.source_range.end)
    }
}

/// A document with the fenced blocks found in it.
#[derive(Debug)]
pub struct SnippetHelper<'a> {
    pub source: &'a str,
    pub snippets: Vec<SnippetRef>,
}

/// The fenced blocks of `text`, in the order in which they stand.
pub fn find_snippets(text: &Vec<char>) -> (r: Vec<SnippetRef>)
    ensures
        r.deep_view() == snippets_from(text@, 0),
{
    let mut refs: Vec<SnippetRef> = Vec::new();
    let mut from: usize = 0;
    loop
        invariant
            from <= text.len(),
            snippets_from(text@, 0) == refs.deep_view() + snippets_from(text@, from as int),
        decreases text.len() - from,
    {
        let ghost before = refs.deep_view();
        let open = match find_next_fence(text, from) {
            Some(open) => open,
            None => {
                assert(before + Seq::<SnippetRefView>::empty() == before);
                return refs;
            },
        };
        let flags_end = find_line_end(text, open + 3);
        let close = match find_next_fence(text, flags_end) {
            Some(close) => close,
            None => {
                assert(snippets_from(text@, from as int) == Seq::<SnippetRefView>::empty());
                assert(before + Seq::<SnippetRefView>::empty() == before);
                return refs;
            },
        };
        let end = find_line_end(text, close + 3);
        let ghost rest = snippets_from(text@, end as int);
        let ghost found = snippet_between(text@, open as int, close as int);
        assert(snippets_from(text@, from as int) == if flags_end > open + 3 {
            seq![found] + rest
        } else {
            rest
        });
        if flags_end > open + 3 {
            let snippet = SnippetRef {
                flags: split_range(text, open + 3, flags_end, ','),
                all_range: open..end,
                source_range: flags_end..close,
            };
            assert(snippet@ == snippet_between(text@, open as int, close as int));
            refs.push(snippet);
            proof {
                assert(refs.deep_view() == before.push(found));
                assert(before + (seq![found] + rest) == before.push(found) + rest);
            }
        }
        from = end;
    }
}

impl SnippetHelper<'_> {
    /// Finds the fenced blocks of `markdown`.
    pub fn create<'a>(markdown: &'a str) -> (r: SnippetHelper<'a>)
        ensures
            r.source@ == markdown@,
            r.snippets.deep_view() == snippets_from(markdown@, 0),
    {
        let text = chars_of(markdown);
        SnippetHelper { source: markdown, snippets: find_snippets(&text) }
    }
}

/// The language called `name`: the first of that name in `langs`.
pub open spec fn lang_of(langs: Seq<LangConfigView>, name: Seq<char>) -> Option<LangConfigView>
    decreases langs.len(),
{
    if langs.len() == 0 {
        None
    } else if langs[0].name == name {
        Some(langs[0])
    } else {
        lang_of(langs.drop_first(), name)
    }
}

/// The flag that asks for a block to be run.
pub open spec fn run_flag() -> Seq<char> {
    "ocirun"@
}

/// The block is to be run: it carries the run flag, and its first flag
/// names a language of `langs`.
pub open spec fn runnable(snippet: SnippetRefView, langs: Seq<LangConfigView>) -> bool {
    &&& snippet.flags.len() > 0
    &&& snippet.flags.contains(run_flag())
    &&& lang_of(langs, snippet.flags[0]) is Some
}

/// The request to run a block of `text`, if the block is to be run: the
/// code of the block as it stands, no input, and the image and command of
/// the language.
pub open spec fn request_for(
    text: Seq<char>,
    snippet: SnippetRefView,
    langs: Seq<LangConfigView>,
) -> Option<CodeSnippetView> {
    if runnable(snippet, langs) {
        let lang = lang_of(langs, snippet.flags[0])->0;
        Some(
            CodeSnippetView {
                source: SourceView::String(text.subrange(snippet.source_start, snippet.source_end)),
                input: None,
                expected: None,
                config: ConfigView { image: lang.image, command: lang.command },
            },
        )
    } else {
        None
    }
}

/// The block that shows what a run printed: a fenced block labelled
/// `success` or `error`, on a new line, with the output as it came.
pub open spec fn outcome_block(outcome: Result<Seq<char>, Seq<char>>) -> Seq<char> {
    match outcome {
        Ok(output) => "\n```console,success\n"@ + output + "```"@,
        Err(output) => "\n```console,error\n"@ + output + "```"@,
    }
}

/// The requests to run the blocks of `text` that are to be run, in the order
/// of the blocks.
pub open spec fn requests_of(
    text: Seq<char>,
    snippets: Seq<SnippetRefView>,
    langs: Seq<LangConfigView>,
) -> Seq<CodeSnippetView>
    decreases snippets.len(),
{
    if snippets.len() == 0 {
        Seq::empty()
    } else {
        let rest = requests_of(text, snippets.drop_first(), langs);
        match request_for(text, snippets[0], langs) {
            Some(request) => seq![request] + rest,
            None => rest,
        }
    }
}

/// `text` from `from` on, with the outcome of each block that is to be run
/// shown right after the block. The outcomes stand in the order of those
/// blocks; all the text of the document is kept.
pub open spec fn rendered(
    text: Seq<char>,
    from: int,
    snippets: Seq<SnippetRefView>,
    langs: Seq<LangConfigView>,
    outcomes: Seq<Result<Seq<char>, Seq<char>>>,
) -> Seq<char>
    decreases snippets.len(),
{
    if snippets.len() == 0 {
        text.subrange(from, text.len() as int)
    } else if runnable(snippets[0], langs) && outcomes.len() > 0 {
        text.subrange(from, snippets[0].end) + outcome_block(outcomes[0]) + rendered(
            text,
            snippets[0].end,
            snippets.drop_first(),
            langs,
            outcomes.drop_first(),
        )
    } else {
        text.subrange(from, snippets[0].end) + rendered(
            text,
            snippets[0].end,
            snippets.drop_first(),
            langs,
            outcomes,
        )
    }
}

/// The blocks stand in the text one after the other, from `from` on, each
/// with its code between its two fences.
pub open spec fn blocks_in_order(snippets: Seq<SnippetRefView>, from: int, len: int) -> bool
    decreases snippets.len(),
{
    if snippets.len() == 0 {
        0 <= from <= len
    } else {
        &&& 0 <= from <= snippets[0].start
        &&& snippets[0].start + 3 < snippets[0].source_start <= snippets[0].source_end
        &&& snippets[0].source_end + 3 <= snippets[0].end <= len
        &&& blocks_in_order(snippets.drop_first(), snippets[0].end, len)
    }
}

/// The blocks that the scanner finds stand in the text one after the other:
/// none overlaps another, and none reaches beyond the end.
pub proof fn lemma_snippets_in_order(text: Seq<char>, from: int)
    requires
        0 <= from <= text.len(),
    ensures
        blocks_in_order(snippets_from(text, from), from, text.len() as int),
    decreases text.len() - from,
{
    lemma_next_fence(text, from);
    if let Some(open) = next_fence(text, from) {
        lemma_line_end(text, open + 3);
        let flags_end = line_end(text, open + 3);
        lemma_next_fence(text, flags_end);
        if let Some(close) = next_fence(text, flags_end) {
            lemma_line_end(text, close + 3);
            let end = line_end(text, close + 3);
            lemma_snippets_in_order(text, end);
            if flags_end > open + 3 {
                let found = snippet_between(text, open, close);
                assert((seq![found] + snippets_from(text, end)).drop_first() == snippets_from(
                    text,
                    end,
                ));
            }
        }
    }
}

/// A document in which no block is to be run is shown as it is.
pub proof fn lemma_rendered_unchanged(
    text: Seq<char>,
    from: int,
    snippets: Seq<SnippetRefView>,
    langs: Seq<LangConfigView>,
    outcomes: Seq<Result<Seq<char>, Seq<char>>>,
)
    requires
        blocks_in_order(snippets, from, text.len() as int),
        requests_of(text, snippets, langs).len() == 0,
    ensures
        rendered(text, from, snippets, langs, outcomes) == text.subrange(from, text.len() as int),
    decreases snippets.len(),
{
    if snippets.len() > 0 {
        lemma_rendered_unchanged(text, snippets[0].end, snippets.drop_first(), langs, outcomes);
        assert(text.subrange(from, snippets[0].end) + text.subrange(
            snippets[0].end,
            text.len() as int,
        ) == text.subrange(from, text.len() as int));
    }
}

/// Whether `flag` is one of `flags`.
pub fn has_flag(flags: &Vec<String>, flag: &String) -> (r: bool)
    ensures
        r == flags.deep_view().contains(flag@),
{
    let mut i: usize = 0;
    while i < flags.len()
        invariant
            i <= flags.len(),
            forall|j: int| 0 <= j < i ==> flags.deep_view()[j] != flag@,
        decreases flags.len() - i,
    {
        if flags[i] == *flag {
            assert(flags.deep_view()[i as int] == flag@);
            return true;
        }
        i += 1;
    }
    false
}

/// Shows what a run printed as a fenced block labelled `success` or `error`.
pub fn render_outcome(outcome: &Result<String, String>) -> (r: String)
    ensures
        r@ == outcome_block(
            match outcome {
                Ok(output) => Ok(output@),
                Err(output) => Err(output@),
            },
        ),
{
    match outcome {
        Ok(output) => {
            let mut block = "\n```console,success\n".to_owned();
            block.append(output.as_str());
            block.append("```");
            block
        },
        Err(output) => {
            let mut block = "\n```console,error\n".to_owned();
            block.append(output.as_str());
            block.append("```");
            block
        },
    }
}

impl OciRun {
    /// The configuration of the language called `lang`: the first of that
    /// name.
    pub fn lang_config(&self, lang: &String) -> (r: Option<&LangConfig>)
        ensures
            match r {
                Some(config) => lang_of(self.langs.deep_view(), lang@) == Some(config@),
                None => lang_of(self.langs.deep_view(), lang@) is None,
            },
    {
        let mut i: usize = 0;
        assert(self.langs.deep_view().skip(0) == self.langs.deep_view());
        while i < self.langs.len()
            invariant
                i <= self.langs.len(),
                lang_of(self.langs.deep_view(), lang@) == lang_of(
                    self.langs.deep_view().skip(i as int),
                    lang@,
                ),
            decreases self.langs.len() - i,
        {
            let ghost rest = self.langs.deep_view().skip(i as int);
            assert(rest[0] == self.langs[i as int]@);
            assert(rest.drop_first() == self.langs.deep_view().skip(i + 1));
            if self.langs[i].name == *lang {
                return Some(&self.langs[i]);
            }
            i += 1;
        }
        None
    }
}

/// The view of what a runner handed back.
pub open spec fn outcome_view(outcome: Result<String, String>) -> Result<Seq<char>, Seq<char>> {
    match outcome {
        Ok(output) => Ok(output@),
        Err(output) => Err(output@),
    }
}

impl OciRun {
    /// `result` is `content` with the outcome of each block that is to be
    /// run shown after the block, for some outcomes that runs of the
    /// requests for those blocks by `runner` can give.
    pub open spec fn renders<R: SnippetRunner>(
        &self,
        runner: &R,
        content: Seq<char>,
        result: Seq<char>,
    ) -> bool {
        let snippets = snippets_from(content, 0);
        let requests = requests_of(content, snippets, self.langs.deep_view());
        exists|outcomes: Seq<Result<Seq<char>, Seq<char>>>|
            {
                &&& outcomes.len() == requests.len()
                &&& forall|i: int|
                    0 <= i < requests.len() ==> #[trigger] runner.gives(requests[i], outcomes[i])
                &&& result == #[trigger] rendered(
                    content,
                    0,
                    snippets,
                    self.langs.deep_view(),
                    outcomes,
                )
            }
    }

    /// The request to run a block of the document `content`, if the block is
    /// to be run.
    pub fn snippet_request(&self, content: &str, snippet: &SnippetRef) -> (r: Option<CodeSnippet>)
        requires
            snippet.source_range.start <= snippet.source_range.end <= content@.len(),
        ensures
            match r {
                Some(request) => request_for(content@, snippet@, self.langs.deep_view()) == Some(
                    request@,
                ),
                None => request_for(content@, snippet@, self.langs.deep_view()) is None,
            },
    {
        let flag = "ocirun".to_owned();
        if snippet.flags.len() == 0 || !has_flag(&snippet.flags, &flag) {
            return None;
        }
        match self.lang_config(&snippet.flags[0]) {
            Some(lang) => Some(
                CodeSnippet {
                    expected: None,
                    input: None,
                    config: Config::from(lang),
                    source: Source::String(snippet.get_source(content).to_owned()),
                },
            ),
            None => None,
        }
    }

    /// Runs the blocks of `content` that are to be run, in their order, and
    /// shows the outcome of each right after its block. A block without the
    /// run flag, or of a language that is not known, is left alone; a run
    /// that fails is shown as such and stops nothing.
    pub fn run_snippets_of_content<R: SnippetRunner>(&self, content: &str, runner: &R) -> (r:
        Result<String, RunError>)
        ensures
            r is Ok,
            self.renders(runner, content@, r->Ok_0@),
            requests_of(content@, snippets_from(content@, 0), self.langs.deep_view()).len() == 0
                ==> r->Ok_0@ == content@,
    {
        let text = chars_of(content);
        let helper = SnippetHelper::create(content);
        let ghost all = snippets_from(text@, 0);
        let ghost langs = self.langs.deep_view();
        let ghost requests = requests_of(text@, all, langs);
        let ghost mut asked: Seq<CodeSnippetView> = Seq::empty();
        let ghost mut outcomes: Seq<Result<Seq<char>, Seq<char>>> = Seq::empty();
        let mut result: Vec<char> = Vec::new();
        let mut begin: usize = 0;
        let mut i: usize = 0;
        proof {
            lemma_snippets_in_order(text@, 0);
            assert(all.skip(0) == all);
            assert(asked + requests == requests);
            assert forall|rest: Seq<Result<Seq<char>, Seq<char>>>| #[trigger]
                rendered(text@, 0, all, langs, outcomes + rest) == result@ + rendered(
                    text@,
                    begin as int,
                    all.skip(i as int),
                    langs,
                    rest,
                ) by {
                assert(outcomes + rest == rest);
                assert(result@ + rendered(text@, 0, all, langs, rest) == rendered(
                    text@,
                    0,
                    all,
                    langs,
                    rest,
                ));
            }
        }
        while i < helper.snippets.len()
            invariant
                text@ == content@,
                all == snippets_from(text@, 0),
                langs == self.langs.deep_view(),
                helper.snippets.deep_view() == all,
                i <= helper.snippets.len(),
                begin <= text.len(),
                blocks_in_order(all.skip(i as int), begin as int, text.len() as int),
                requests == requests_of(text@, all, langs),
                requests == asked + requests_of(text@, all.skip(i as int), langs),
                outcomes.len() == asked.len(),
                forall|j: int|
                    0 <= j < asked.len() ==> #[trigger] runner.gives(asked[j], outcomes[j]),
                forall|rest: Seq<Result<Seq<char>, Seq<char>>>| #[trigger]
                    rendered(text@, 0, all, langs, outcomes + rest) == result@ + rendered(
                        text@,
                        begin as int,
                        all.skip(i as int),
                        langs,
                        rest,
                    ),
            decreases helper.snippets.len() - i,
        {
            let snippet = &helper.snippets[i];
            let ghost here = all.skip(i as int);
            let ghost before = result@;
            let ghost seen = outcomes;
            let ghost from = begin as int;
            let ghost waiting = requests_of(text@, all.skip(i + 1), langs);
            proof {
                assert(here[0] == snippet@);
                assert(here.drop_first() == all.skip(i + 1));
            }
            let end = snippet.all_range.end;
            push_range(&mut result, &text, begin, end);
            begin = end;
            match self.snippet_request(content, snippet) {
                Some(request) => {
                    let outcome = runner.run(&request);
                    let block = chars_of(render_outcome(&outcome).as_str());
                    push_range(&mut result, &block, 0, block.len());
                    proof {
                        let shown = outcome_view(outcome);
                        assert(block@.subrange(0, block.len() as int) == block@);
                        assert(asked + (seq![request@] + waiting) == asked.push(request@)
                            + waiting);
                        asked = asked.push(request@);
                        outcomes = seen.push(shown);
                        assert forall|rest: Seq<Result<Seq<char>, Seq<char>>>| #[trigger]
                            rendered(text@, 0, all, langs, outcomes + rest) == result@ + rendered(
                                text@,
                                begin as int,
                                all.skip(i + 1),
                                langs,
                                rest,
                            ) by {
                            let more = seq![shown] + rest;
                            assert(seen + more == outcomes + rest);
                            assert(more.drop_first() == rest);
                            assert(rendered(text@, 0, all, langs, seen + more) == before
                                + rendered(text@, from, here, langs, more));
                            assert(before + (text@.subrange(from, end as int) + outcome_block(
                                shown,
                            ) + rendered(text@, end as int, all.skip(i + 1), langs, rest))
                                == result@ + rendered(
                                text@,
                                end as int,
                                all.skip(i + 1),
                                langs,
                                rest,
                            ));
                        }
                    }
                },
                None => {
                    proof {
                        assert forall|rest: Seq<Result<Seq<char>, Seq<char>>>| #[trigger]
                            rendered(text@, 0, all, langs, outcomes + rest) == result@ + rendered(
                                text@,
                                begin as int,
                                all.skip(i + 1),
                                langs,
                                rest,
                            ) by {
                            assert(rendered(text@, 0, all, langs, seen + rest) == before
                                + rendered(text@, from, here, langs, rest));
                            assert(before + (text@.subrange(from, end as int) + rendered(
                                text@,
                                end as int,
                                all.skip(i + 1),
                                langs,
                                rest,
                            )) == result@ + rendered(
                                text@,
                                end as int,
                                all.skip(i + 1),
                                langs,
                                rest,
                            ));
                        }
                    }
                },
            }
            i += 1;
        }
        let ghost before = result@;
        push_range(&mut result, &text, begin, text.len());
        let rewritten = string_of(&result, 0, result.len());
        proof {
            let none = Seq::<Result<Seq<char>, Seq<char>>>::empty();
            assert(result@.subrange(0, result.len() as int) == result@);
            assert(outcomes + none == outcomes);
            assert(rendered(text@, 0, all, langs, outcomes + none) == before + rendered(
                text@,
                begin as int,
                all.skip(i as int),
                langs,
                none,
            ));
            assert(rewritten@ == rendered(text@, 0, all, langs, outcomes));
            assert(asked + Seq::<CodeSnippetView>::empty() == asked);
            assert(all.skip(i as int).len() == 0);
            if requests.len() == 0 {
                lemma_rendered_unchanged(text@, 0, all, langs, outcomes);
                assert(text@.subrange(0, text.len() as int) == text@);
            }
        }
        Ok(rewritten)
    }
}

} // verus!
