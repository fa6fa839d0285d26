//! The engine: its configuration, the commands that it hands to the
//! container engine, and the rewriting of a document.
//!
//! A document is rewritten in three passes: the line directives are replaced
//! by what their commands print, then the inline directives of what came of
//! that, then the outcome of each snippet that is to be run is shown after
//! its block. The commands are run by the caller: the rewriting is a state
//! that hands out one command at a time and is resumed with what it printed.
use crate::directive::{
    find_directives, found_in, lemma_directives_in_order, lemma_no_directive_unchanged, spliced,
    substitute, directive_at, Directive, DirectiveKind,
};
use crate::snippet::{requests_of, snippets_from, SnippetRunner};
use crate::utils::lines::{
    crlf, format_chars, formatted_for, lemma_formatted_crlf_end, lines, LineBreak,
};
use crate::utils::string::{
    canonical_breaks, canonical_chars, char_is_whitespace, chars_of, ends_with_one_break,
    formatted, is_whitespace, joined, lemma_canonical_last, lemma_split_len, lemma_trimmed_end,
    split, string_of, trimmed_end,
};
use std::borrow::Cow;
use std::path::PathBuf;
use vstd::prelude::*;

verus! {

/// `std::path::PathBuf`: a path is carried through as it is, and nothing is
/// known of what it holds.
#[verifier::external_type_specification]
#[verifier::external_body]
pub struct ExPathBuf(std::path::PathBuf);

/// How the snippets of one language are run: in which image, by which
/// command.
#[derive(Debug, PartialEq)]
pub struct LangConfig {
    pub name: String,
    pub image: String,
    pub command: Vec<String>,
}

/// What a [`LangConfig`] holds, as the contracts see it.
pub ghost struct LangConfigView {
    pub name: Seq<char>,
    pub image: Seq<char>,
    pub command: Seq<Seq<char>>,
}

impl View for LangConfig {
    type V = LangConfigView;

    open spec fn view(&self) -> LangConfigView {
        LangConfigView {
            name: self.name@,
            image: self.image@,
            command: self.command.deep_view(),
        }
    }
}

impl DeepView for LangConfig {
    type V = LangConfigView;

    open spec fn deep_view(&self) -> LangConfigView {
        self@
    }
}

/// A copy of `list`.
pub fn clone_strings(list: &Vec<String>) -> (r: Vec<String>)
    ensures
        r.deep_view() == list.deep_view(),
{
    let mut r: Vec<String> = Vec::new();
    let mut i: usize = 0;
    while i < list.len()
        invariant
            i <= list.len(),
            r.deep_view() == list.deep_view().take(i as int),
        decreases list.len() - i,
    {
        let ghost before = r.deep_view();
        r.push(list[i].clone());
        assert(r.deep_view() == before.push(list[i as int]@));
        i += 1;
    }
    assert(list.deep_view().take(list.len() as int) == list.deep_view());
    r
}

impl Clone for LangConfig {
    /// A copy with the same name, image and command.
    fn clone(&self) -> (r: Self)
        ensures
            r@ == self@,
    {
        LangConfig {
            name: self.name.clone(),
            image: self.image.clone(),
            command: clone_strings(&self.command),
        }
    }
}

impl LangConfig {
    /// The words of the command that compiles and runs a Rust snippet.
    pub open spec fn rust_command() -> Seq<Seq<char>> {
        seq!["/bin/bash"@, "-ec"@, "rustc source -o binary && ./binary < input"@]
    }

    /// The configuration for Rust: the snippet is compiled and the binary
    /// run, with the input on its standard input.
    pub fn rust() -> (r: Self)
        ensures
            r@ == (LangConfigView {
                name: "rust"@,
                image: "rust"@,
                command: Self::rust_command(),
            }),
    {
        let mut command: Vec<String> = Vec::new();
        command.push("/bin/bash".to_owned());
        command.push("-ec".to_owned());
        command.push("rustc source -o binary && ./binary < input".to_owned());
        assert(command.deep_view() =~= Self::rust_command());
        LangConfig { name: "rust".to_owned(), image: "rust".to_owned(), command }
    }
}

/// What a book's configuration says of the engine: the container engine to
/// call, if it names one, and the languages.
#[derive(Debug, PartialEq)]
pub struct OciRunConfig {
    pub engine: Option<String>,
    pub langs: Vec<LangConfig>,
}

impl Default for OciRunConfig {
    /// The configuration of a book that says nothing of the engine.
    fn default() -> (r: Self)
        ensures
            r.engine is None,
            r.langs@.len() == 0,
    {
        OciRunConfig { engine: None, langs: Vec::new() }
    }
}

/// The engine: the program that runs containers, the root of the book, and
/// the languages whose snippets it runs.
pub struct OciRun {
    pub engine: String,
    pub root_path: PathBuf,
    pub langs: Vec<LangConfig>,
}

/// A copy of `list`.
pub fn clone_langs(list: &Vec<LangConfig>) -> (r: Vec<LangConfig>)
    ensures
        r.deep_view() == list.deep_view(),
{
    let mut r: Vec<LangConfig> = Vec::new();
    let mut i: usize = 0;
    while i < list.len()
        invariant
            i <= list.len(),
            r.deep_view() == list.deep_view().take(i as int),
        decreases list.len() - i,
    {
        let ghost before = r.deep_view();
        r.push(list[i].clone());
        assert(r.deep_view() == before.push(list[i as int]@));
        i += 1;
    }
    assert(list.deep_view().take(list.len() as int) == list.deep_view());
    r
}

impl OciRunConfig {
    /// The name of the container engine that is called where a configuration
    /// names none.
    pub open spec fn default_engine() -> Seq<char> {
        "docker"@
    }

    /// The engine that this configuration describes, for the book at
    /// `root_path`.
    pub fn create_preprocessor(&self, root_path: PathBuf) -> (r: OciRun)
        ensures
            r.engine@ == match self.engine {
                Some(engine) => engine@,
                None => Self::default_engine(),
            },
            r.root_path == root_path,
            r.langs.deep_view() == self.langs.deep_view(),
    {
        OciRun {
            engine: match &self.engine {
                Some(engine) => engine.clone(),
                None => "docker".to_owned(),
            },
            root_path,
            langs: clone_langs(&self.langs),
        }
    }
}

/// Why a document could not be rewritten: the container engine could not be
/// started.
#[derive(Debug, PartialEq, Eq)]
pub struct RunError {
    pub message: String,
}

impl View for RunError {
    type V = Seq<char>;

    open spec fn view(&self) -> Seq<char> {
        self.message@
    }
}

/// `PathBuf::from` makes a path of the text; nothing is said of what it
/// holds.
#[verifier::external_body]
fn path_of(text: &str) -> PathBuf {
    PathBuf::from(text)
}

impl Default for OciRun {
    /// The engine of the default configuration, for the book in the current
    /// directory.
    fn default() -> (r: Self)
        ensures
            r.engine@ == OciRunConfig::default_engine(),
            r.langs@.len() == 0,
    {
        let config = OciRunConfig::default();
        let r = config.create_preprocessor(path_of("."));
        assert(r.langs.deep_view().len() == 0);
        r
    }
}

/// A command to run in a container of its own: the image of the container,
/// and the text that its shell is given.
#[derive(Debug, PartialEq)]
pub struct DirectRun {
    pub image: String,
    pub command: String,
}

/// What a [`DirectRun`] holds, as the contracts see it.
pub ghost struct DirectRunView {
    pub image: Seq<char>,
    pub command: Seq<char>,
}

impl View for DirectRun {
    type V = DirectRunView;

    open spec fn view(&self) -> DirectRunView {
        DirectRunView { image: self.image@, command: self.command@ }
    }
}

/// The image in which a command runs that names none.
pub open spec fn default_image() -> Seq<char> {
    "alpine"@
}

/// The first place from `from` on that holds white space, or the end.
pub open spec fn word_end(s: Seq<char>, from: int) -> int
    decreases s.len() - from,
{
    if 0 <= from < s.len() && !is_whitespace(s[from]) {
        word_end(s, from + 1)
    } else {
        from
    }
}

/// The first place from `from` on that holds no white space, or the end.
pub open spec fn gap_end(s: Seq<char>, from: int) -> int
    decreases s.len() - from,
{
    if 0 <= from < s.len() && is_whitespace(s[from]) {
        gap_end(s, from + 1)
    } else {
        from
    }
}

/// The command that a payload asks for. The payload is split at its first
/// run of white space: what stands before it is the image, what stands
/// after it the command. A payload without white space is a command for the
/// default image.
pub open spec fn direct_run(payload: Seq<char>) -> DirectRunView {
    let split = word_end(payload, 0);
    if split >= payload.len() {
        DirectRunView { image: default_image(), command: payload }
    } else {
        DirectRunView {
            image: payload.take(split),
            command: payload.skip(gap_end(payload, split)),
        }
    }
}

/// The arguments with which the container engine runs a command: in a
/// container that is removed when it ends, with the working directory of
/// the document mounted at its own path and made the working directory, with
/// a terminal, by the shell of the image.
pub open spec fn run_args(request: DirectRunView, working_dir: Seq<char>) -> Seq<Seq<char>> {
    seq![
        "run"@,
        "--rm"@,
        "-w"@,
        working_dir,
        "-v"@,
        working_dir + ":"@ + working_dir,
        "-t"@,
        request.image,
        "sh"@,
        "-c"@,
        request.command,
    ]
}

/// What is put into the document for the text that a command printed: the
/// text as formatted for its place on the platform, with canonical line
/// breaks.
pub open spec fn direct_output(stdout: Seq<char>, inline: bool, line_break: LineBreak) -> Seq<
    char,
> {
    canonical_breaks(formatted_for(stdout, inline, line_break))
}

impl DirectRun {
    /// Reads the payload of a directive.
    pub fn parse(payload: &str) -> (r: DirectRun)
        ensures
            r@ == direct_run(payload@),
    {
        let text = chars_of(payload);
        let mut split: usize = 0;
        while split < text.len() && !char_is_whitespace(text[split])
            invariant
                split <= text.len(),
                word_end(text@, 0) == word_end(text@, split as int),
            decreases text.len() - split,
        {
            split += 1;
        }
        if split >= text.len() {
            return DirectRun { image: "alpine".to_owned(), command: payload.to_owned() };
        }
        let mut rest: usize = split;
        while rest < text.len() && char_is_whitespace(text[rest])
            invariant
                split <= rest <= text.len(),
                gap_end(text@, split as int) == gap_end(text@, rest as int),
            decreases text.len() - rest,
        {
            rest += 1;
        }
        assert(text@.take(split as int) == text@.subrange(0, split as int));
        assert(text@.skip(rest as int) == text@.subrange(rest as int, text.len() as int));
        DirectRun { image: string_of(&text, 0, split), command: string_of(&text, rest, text.len()) }
    }
}

impl OciRun {
    /// See [`crate::utils::string::format_whitespace`].
    pub fn format_whitespace(str: Cow<'_, str>, inline: bool) -> (r: String)
        ensures
            r@ == formatted(str@, inline),
    {
        crate::utils::string::format_whitespace(str, inline)
    }

    /// The arguments with which the container engine runs `request` for a
    /// document in the directory `working_dir`, which is an absolute path.
    pub fn run_args(&self, request: &DirectRun, working_dir: &str) -> (r: Vec<String>)
        ensures
            r.deep_view() == run_args(request@, working_dir@),
    {
        let mut mount = working_dir.to_owned();
        mount.append(":");
        mount.append(working_dir);
        let mut args: Vec<String> = Vec::new();
        args.push("run".to_owned());
        args.push("--rm".to_owned());
        args.push("-w".to_owned());
        args.push(working_dir.to_owned());
        args.push("-v".to_owned());
        args.push(mount);
        args.push("-t".to_owned());
        args.push(request.image.clone());
        args.push("sh".to_owned());
        args.push("-c".to_owned());
        args.push(request.command.clone());
        assert(args.deep_view() =~= run_args(request@, working_dir@));
        args
    }

    /// What is put into the document for the text that a command printed.
    pub fn run_output(stdout: &str, inline: bool, line_break: LineBreak) -> (r: String)
        ensures
            r@ == direct_output(stdout@, inline, line_break),
    {
        let text = output_chars(stdout, inline, line_break);
        assert(text@.subrange(0, text.len() as int) == text@);
        string_of(&text, 0, text.len())
    }
}

/// The characters that are put into the document for what a command
/// printed.
fn output_chars(stdout: &str, inline: bool, line_break: LineBreak) -> (r: Vec<char>)
    ensures
        r@ == direct_output(stdout@, inline, line_break),
{
    let printed = chars_of(stdout);
    let written = format_chars(&printed, inline, line_break);
    assert(written@.take(written.len() as int) == written@);
    canonical_chars(&written, written.len())
}

/// The rewriting of a document, at a place where it waits for what the
/// command of a directive printed.
#[derive(Debug)]
pub struct ContentRun {
    line_break: LineBreak,
    kind: DirectiveKind,
    text: Vec<char>,
    found: Vec<Directive>,
    outputs: Vec<Vec<char>>,
    failure: Option<RunError>,
}

/// What a rewriting holds: the line breaks that the platform asks for, the
/// kind of directive of the pass that it is in, the text that this pass
/// reads, what is put in the place of each directive of the pass whose
/// command was run, and the first failure of the pass.
pub ghost struct ContentRunView {
    pub line_break: LineBreak,
    pub kind: DirectiveKind,
    pub text: Seq<char>,
    pub outputs: Seq<Seq<char>>,
    pub failure: Option<Seq<char>>,
}

/// What comes next in a rewriting.
pub ghost enum Progress {
    /// The command of the next directive is to be run; the rewriting waits
    /// for what it prints.
    Invoke { request: DirectRunView, run: ContentRunView },
    /// The rewriting has failed.
    Failed(Seq<char>),
    /// The directives are replaced; the snippets of this text are next.
    Snippets(Seq<char>),
}

/// What came of running a command: what it printed, or why the container
/// engine could not be started.
pub open spec fn event_view(event: Result<String, RunError>) -> Result<Seq<char>, Seq<char>> {
    match event {
        Ok(stdout) => Ok(stdout@),
        Err(error) => Err(error@),
    }
}

impl ContentRunView {
    /// The rewriting of `content` at its start.
    pub open spec fn start(content: Seq<char>, line_break: LineBreak) -> ContentRunView {
        ContentRunView {
            line_break,
            kind: DirectiveKind::Line,
            text: content,
            outputs: Seq::empty(),
            failure: None,
        }
    }

    /// The rewriting after the command that it waited for was run. What the
    /// command printed stands for the directive, formatted for its place. A
    /// failure leaves the place empty and is kept if it is the first of the
    /// pass.
    pub open spec fn with(self, event: Result<Seq<char>, Seq<char>>) -> ContentRunView {
        match event {
            Ok(stdout) => ContentRunView {
                outputs: self.outputs.push(
                    direct_output(stdout, self.kind == DirectiveKind::Inline, self.line_break),
                ),
                ..self
            },
            Err(message) => ContentRunView {
                outputs: self.outputs.push(Seq::empty()),
                failure: if self.failure is Some {
                    self.failure
                } else {
                    Some(message)
                },
                ..self
            },
        }
    }

    /// What comes next. While a directive of the pass is left, its command.
    /// At the end of a pass, its first failure, if there was one: the
    /// rewriting fails with it. Else the directives of the pass are
    /// replaced; after the pass of the line directives comes that of the
    /// inline directives, on the text that came of the first, and after
    /// that the snippets.
    pub open spec fn next(self) -> Progress
        decreases
            (if self.kind == DirectiveKind::Line {
                1nat
            } else {
                0nat
            }),
    {
        let found = found_in(self.text, self.kind);
        if self.outputs.len() < found.len() {
            Progress::Invoke {
                request: direct_run(found[self.outputs.len() as int].payload),
                run: self,
            }
        } else if self.failure is Some {
            Progress::Failed(self.failure->0)
        } else {
            let text = spliced(self.text, 0, found, self.outputs);
            if self.kind == DirectiveKind::Line {
                ContentRunView {
                    line_break: self.line_break,
                    kind: DirectiveKind::Inline,
                    text,
                    outputs: Seq::empty(),
                    failure: None,
                }.next()
            } else {
                Progress::Snippets(text)
            }
        }
    }
}

impl ContentRun {
    /// The rewriting holds the directives of its text, and waits for the
    /// command of one of them.
    #[verifier::type_invariant]
    spec fn well_formed(self) -> bool {
        &&& self.found.deep_view() == found_in(self.text@, self.kind)
        &&& self.outputs.len() < self.found.len()
    }
}

impl View for ContentRun {
    type V = ContentRunView;

    closed spec fn view(&self) -> ContentRunView {
        ContentRunView {
            line_break: self.line_break,
            kind: self.kind,
            text: self.text@,
            outputs: self.outputs.deep_view(),
            failure: match self.failure {
                Some(error) => Some(error@),
                None => None,
            },
        }
    }
}

/// A step of a rewriting: a command to run, after which the rewriting is
/// resumed with what it printed, or the end.
#[derive(Debug)]
pub enum Step {
    Invoke { request: DirectRun, run: ContentRun },
    Finished(Result<String, RunError>),
}

impl OciRun {
    /// The step is what `progress` asks for. Where the snippets are next,
    /// they were run by `runner`, and the step holds what came of it.
    pub open spec fn follows<R: SnippetRunner>(
        &self,
        runner: &R,
        step: Step,
        progress: Progress,
    ) -> bool {
        match progress {
            Progress::Invoke { request, run } => match step {
                Step::Invoke { request: asked, run: kept } => asked@ == request && kept@ == run,
                _ => false,
            },
            Progress::Failed(message) => match step {
                Step::Finished(Err(error)) => error@ == message,
                _ => false,
            },
            Progress::Snippets(text) => match step {
                Step::Finished(Ok(result)) => self.renders(runner, text, result@),
                _ => false,
            },
        }
    }

    /// What comes next in a rewriting that holds these values.
    fn proceed<R: SnippetRunner>(
        &self,
        line_break: LineBreak,
        kind: DirectiveKind,
        text: Vec<char>,
        found: Vec<Directive>,
        outputs: Vec<Vec<char>>,
        failure: Option<RunError>,
        runner: &R,
    ) -> (r: Step)
        requires
            found.deep_view() == found_in(text@, kind),
            outputs.len() <= found.len(),
        ensures
            self.follows(
                runner,
                r,
                (ContentRunView {
                    line_break,
                    kind,
                    text: text@,
                    outputs: outputs.deep_view(),
                    failure: match failure {
                        Some(error) => Some(error@),
                        None => None,
                    },
                }).next(),
            ),
        decreases
            (if kind == DirectiveKind::Line {
                1nat
            } else {
                0nat
            }),
    {
        if outputs.len() < found.len() {
            let request = DirectRun::parse(found[outputs.len()].payload.as_str());
            return Step::Invoke {
                request,
                run: ContentRun { line_break, kind, text, found, outputs, failure },
            };
        }
        if let Some(error) = failure {
            return Step::Finished(Err(error));
        }
        proof {
            lemma_directives_in_order(text@, 0, kind);
        }
        let rewritten = substitute(&text, &found, &outputs);
        match kind {
            DirectiveKind::Line => {
                let inline = find_directives(&rewritten, DirectiveKind::Inline);
                let outputs: Vec<Vec<char>> = Vec::new();
                assert(outputs.deep_view() =~= Seq::<Seq<char>>::empty());
                self.proceed(
                    line_break,
                    DirectiveKind::Inline,
                    rewritten,
                    inline,
                    outputs,
                    None,
                    runner,
                )
            },
            DirectiveKind::Inline => {
                let content = string_of(&rewritten, 0, rewritten.len());
                assert(rewritten@.subrange(0, rewritten.len() as int) == rewritten@);
                Step::Finished(self.run_snippets_of_content(content.as_str(), runner))
            },
        }
    }

    /// Begins to rewrite `content`, for a platform that asks for
    /// `line_break`: hands out the command of its first directive, or,
    /// where it has no directive, runs its snippets with `runner` and ends.
    pub fn run_on_content<R: SnippetRunner>(
        &self,
        content: &str,
        line_break: LineBreak,
        runner: &R,
    ) -> (r: Step)
        ensures
            self.follows(runner, r, ContentRunView::start(content@, line_break).next()),
    {
        let text = chars_of(content);
        let found = find_directives(&text, DirectiveKind::Line);
        let outputs: Vec<Vec<char>> = Vec::new();
        assert(outputs.deep_view() =~= Seq::<Seq<char>>::empty());
        self.proceed(line_break, DirectiveKind::Line, text, found, outputs, None, runner)
    }

    /// Resumes a rewriting with what came of the command that it waited
    /// for: hands out the next command, or ends. The rewriting ends with
    /// the first failure of a pass, once all commands of that pass were
    /// run, and without a text; else, after the snippets were run with
    /// `runner`, with the rewritten text.
    pub fn resume_content<R: SnippetRunner>(
        &self,
        run: ContentRun,
        event: Result<String, RunError>,
        runner: &R,
    ) -> (r: Step)
        ensures
            self.follows(runner, r, run@.with(event_view(event)).next()),
    {
        proof {
            use_type_invariant(&run);
        }
        let ContentRun { line_break, kind, text, found, mut outputs, mut failure } = run;
        let ghost before = outputs.deep_view();
        match event {
            Ok(stdout) => {
                let inline = match kind {
                    DirectiveKind::Line => false,
                    DirectiveKind::Inline => true,
                };
                let output = output_chars(stdout.as_str(), inline, line_break);
                outputs.push(output);
                assert(outputs.deep_view() =~~= before.push(output@));
            },
            Err(error) => {
                outputs.push(Vec::new());
                assert(outputs.deep_view() =~~= before.push(Seq::<char>::empty()));
                if failure.is_none() {
                    failure = Some(error);
                }
            },
        }
        self.proceed(line_break, kind, text, found, outputs, failure, runner)
    }
}

/// A text that does not end with the separator ends with the end of its
/// last part.
proof fn lemma_split_last(s: Seq<char>, separator: char)
    requires
        s.len() > 0,
        s.last() != separator,
    ensures
        split(s, separator).last().len() > 0,
        split(s, separator).last().last() == s.last(),
{
    lemma_split_len(s.drop_last(), separator);
}

/// What is put in the place of an inline directive does not end in white
/// space, so in no line break.
pub proof fn lemma_inline_output_trimmed(stdout: Seq<char>, line_break: LineBreak)
    ensures
        direct_output(stdout, true, line_break).len() > 0 ==> !is_whitespace(
            direct_output(stdout, true, line_break).last(),
        ),
{
    let text = trimmed_end(stdout);
    lemma_trimmed_end(stdout);
    match line_break {
        LineBreak::Kept => {
            lemma_canonical_last(text);
        },
        LineBreak::CrLf => {
            let written = joined(lines(text), crlf());
            lemma_canonical_last(written);
            if text.len() > 0 {
                lemma_split_last(text, '\n');
                let all = lines(text);
                assert(all.last() == split(text, '\n').last());
                if all.len() > 1 {
                    assert(written == joined(all.drop_last(), crlf()) + crlf() + all.last());
                }
                assert(written.last() == text.last());
            } else {
                assert(split(text, '\n') =~= seq![Seq::<char>::empty()]);
                assert(lines(text) =~= Seq::<Seq<char>>::empty());
            }
        },
    }
}

/// The texts of which a line directive is replaced by a text that ends with
/// one line feed. Where the text is kept as it was printed, it is empty or
/// ends with one line break; where the platform asks for `"\r\n"`, its
/// last line is not empty.
pub open spec fn prints_whole_lines(stdout: Seq<char>, line_break: LineBreak) -> bool {
    match line_break {
        LineBreak::Kept => stdout.len() > 0 ==> ends_with_one_break(stdout),
        LineBreak::CrLf => joined(lines(stdout), crlf()).len() > 0 ==> lines(stdout).last().len()
            > 0,
    }
}

/// Where a command printed whole lines, what is put in the place of its
/// line directive is empty or ends with one line feed: the last character is
/// a line feed and the one before it is none.
pub proof fn lemma_line_output_break(stdout: Seq<char>, line_break: LineBreak)
    requires
        prints_whole_lines(stdout, line_break),
    ensures
        direct_output(stdout, false, line_break).len() > 0 ==> {
            let output = direct_output(stdout, false, line_break);
            &&& output.last() == '\n'
            &&& output.len() > 1 ==> output[output.len() - 2] != '\n'
        },
{
    match line_break {
        LineBreak::Kept => {
            if stdout.len() >= 2 && stdout[stdout.len() - 2] == '\r' {
                lemma_canonical_last(stdout.take(stdout.len() - 2));
            } else if stdout.len() > 0 {
                lemma_canonical_last(stdout.drop_last());
            }
        },
        LineBreak::CrLf => {
            let written = joined(lines(stdout), crlf());
            if written.len() > 0 {
                let text = written + crlf();
                lemma_formatted_crlf_end(stdout);
                assert(text.take(text.len() - 2) == written);
                lemma_canonical_last(written);
                assert(written.last() == text[text.len() - 3]);
            }
        },
    }
}

/// On a platform that asks for `"\r\n"`, what is put in the place of a
/// line directive is empty or ends with a line feed, whatever the command
/// printed.
pub proof fn lemma_line_output_ends(stdout: Seq<char>)
    ensures
        direct_output(stdout, false, LineBreak::CrLf).len() > 0 ==> direct_output(
            stdout,
            false,
            LineBreak::CrLf,
        ).last() == '\n',
{
    lemma_formatted_crlf_end(stdout);
    lemma_canonical_last(formatted_for(stdout, false, LineBreak::CrLf));
}

/// A document without directives in which no snippet is to be run is
/// rewritten to itself, and no command is run for it.
pub proof fn lemma_plain_content_unchanged<R: SnippetRunner>(
    engine: OciRun,
    runner: &R,
    content: Seq<char>,
    line_break: LineBreak,
    step: Step,
)
    requires
        forall|at: int| directive_at(content, at, DirectiveKind::Line) is None,
        forall|at: int| directive_at(content, at, DirectiveKind::Inline) is None,
        requests_of(content, snippets_from(content, 0), engine.langs.deep_view()).len() == 0,
        engine.follows(runner, step, ContentRunView::start(content, line_break).next()),
    ensures
        ContentRunView::start(content, line_break).next() == Progress::Snippets(content),
        match step {
            Step::Finished(Ok(result)) => result@ == content,
            _ => false,
        },
{
    lemma_no_directive_unchanged(content, DirectiveKind::Line);
    lemma_no_directive_unchanged(content, DirectiveKind::Inline);
    let none = Seq::<Seq<char>>::empty();
    assert(spliced(content, 0, found_in(content, DirectiveKind::Line), none) == content);
    assert(spliced(content, 0, found_in(content, DirectiveKind::Inline), none) == content);
    let inline = ContentRunView {
        line_break,
        kind: DirectiveKind::Inline,
        text: content,
        outputs: none,
        failure: None,
    };
    assert(inline.next() == Progress::Snippets(content));
    assert(ContentRunView::start(content, line_break).next() == inline.next());
    match step {
        Step::Finished(Ok(result)) => {
            let snippets = snippets_from(content, 0);
            let langs = engine.langs.deep_view();
            let outcomes = choose|outcomes: Seq<Result<Seq<char>, Seq<char>>>|
                {
                    &&& outcomes.len() == requests_of(content, snippets, langs).len()
                    &&& forall|i: int|
                        0 <= i < requests_of(content, snippets, langs).len()
                            ==> #[trigger] runner.gives(
                            requests_of(content, snippets, langs)[i],
                            outcomes[i],
                        )
                    &&& result@ == #[trigger] crate::snippet::rendered(
                        content,
                        0,
                        snippets,
                        langs,
                        outcomes,
                    )
                };
            crate::snippet::lemma_snippets_in_order(content, 0);
            crate::snippet::lemma_rendered_unchanged(content, 0, snippets, langs, outcomes);
            assert(content.subrange(0, content.len() as int) == content);
        },
        _ => {},
    }
}

} // verus!
