//! Running a snippet in a container of its own, in four calls of the
//! container engine: the container is created, the code and the input are
//! copied into it, and it is started. What the engine is asked next depends
//! on what it printed before, so the run is a state that is resumed with the
//! output of each call.
use crate::cache::sha256_hex;
use crate::snippet::{Config, ConfigView, Source, SourceView};
use crate::utils::string::{chars_of, string_of, trimmed_end, trimmed_len};
use vstd::prelude::*;

verus! {

/// A file that is copied into the container.
#[derive(Debug, PartialEq)]
pub enum StagedFile {
    /// A file that is there already, by its path.
    Existing(String),
    /// A file that is to be written first, under this name in the directory
    /// for temporary files, with this content.
    Temporary { name: String, content: String },
}

/// What a [`StagedFile`] holds, as the contracts see it.
pub ghost enum StagedFileView {
    Existing(Seq<char>),
    Temporary { name: Seq<char>, content: Seq<char> },
}

impl View for StagedFile {
    type V = StagedFileView;

    open spec fn view(&self) -> StagedFileView {
        match self {
            StagedFile::Existing(path) => StagedFileView::Existing(path@),
            StagedFile::Temporary { name, content } => StagedFileView::Temporary {
                name: name@,
                content: content@,
            },
        }
    }
}

impl SourceView {
    /// The file that holds the text of the source: the file that it names,
    /// or a temporary file that is named by the digest of the text.
    pub open spec fn staged(self) -> StagedFileView {
        match self {
            SourceView::File(path) => StagedFileView::Existing(path),
            SourceView::String(text) => StagedFileView::Temporary {
                name: sha256_hex(text),
                content: text,
            },
        }
    }
}

/// The file that stands for no input.
pub open spec fn no_input() -> Seq<char> {
    "/dev/null"@
}

impl Source {
    /// The file that holds the text of the source.
    pub fn get_path(&self) -> (r: StagedFile)
        ensures
            r@ == self@.staged(),
    {
        match self {
            Source::String(content) => StagedFile::Temporary {
                name: self.get_digest(""),
                content: content.clone(),
            },
            Source::File(file) => StagedFile::Existing(file.clone()),
        }
    }

    /// The file that holds the input of a snippet: that of the source where
    /// there is one, else the file that stands for no input.
    pub fn get_input_path(input: &Option<Source>) -> (r: StagedFile)
        ensures
            r@ == match input {
                Some(source) => source@.staged(),
                None => StagedFileView::Existing(no_input()),
            },
    {
        match input {
            Some(source) => source.get_path(),
            None => StagedFile::Existing("/dev/null".to_owned()),
        }
    }
}

/// What a call of the container engine gave: what it printed, and whether
/// it ended with status zero.
#[derive(Debug)]
pub struct EngineOutput {
    pub stdout: String,
    pub success: bool,
}

/// A run that waits for the output of a call of the engine.
#[derive(Debug)]
pub enum StagedRun {
    /// The container is being created.
    Creating { source_path: String, input_path: String },
    /// The code is being copied into the container.
    CopyingSource { container: String, input_path: String },
    /// The input is being copied into the container.
    CopyingInput { container: String },
    /// The container is running.
    Running,
}

/// What a [`StagedRun`] holds, as the contracts see it.
pub ghost enum StagedRunView {
    Creating { source_path: Seq<char>, input_path: Seq<char> },
    CopyingSource { container: Seq<char>, input_path: Seq<char> },
    CopyingInput { container: Seq<char> },
    Running,
}

impl View for StagedRun {
    type V = StagedRunView;

    open spec fn view(&self) -> StagedRunView {
        match self {
            StagedRun::Creating { source_path, input_path } => StagedRunView::Creating {
                source_path: source_path@,
                input_path: input_path@,
            },
            StagedRun::CopyingSource { container, input_path } => StagedRunView::CopyingSource {
                container: container@,
                input_path: input_path@,
            },
            StagedRun::CopyingInput { container } => StagedRunView::CopyingInput {
                container: container@,
            },
            StagedRun::Running => StagedRunView::Running,
        }
    }
}

/// What comes next in a run: a call of the engine with these arguments,
/// after which the run is resumed, or the outcome.
#[derive(Debug)]
pub enum StagedStep {
    Invoke { args: Vec<String>, run: StagedRun },
    Finished(Result<String, String>),
}

/// What a [`StagedStep`] holds, as the contracts see it.
pub ghost enum StagedStepView {
    Invoke { args: Seq<Seq<char>>, run: StagedRunView },
    Finished(Result<Seq<char>, Seq<char>>),
}

impl View for StagedStep {
    type V = StagedStepView;

    open spec fn view(&self) -> StagedStepView {
        match self {
            StagedStep::Invoke { args, run } => StagedStepView::Invoke {
                args: args.deep_view(),
                run: run@,
            },
            StagedStep::Finished(Ok(output)) => StagedStepView::Finished(Ok(output@)),
            StagedStep::Finished(Err(output)) => StagedStepView::Finished(Err(output@)),
        }
    }
}

/// The arguments that create the container: it is removed when it ends, its
/// working directory is `/root`, it has a terminal, and it runs the command
/// of the configuration in its image.
pub open spec fn create_args(config: ConfigView) -> Seq<Seq<char>> {
    seq!["create"@, "--rm"@, "-w"@, "/root"@, "-t"@, config.image] + config.command
}

/// The arguments that copy the file at `path` into the container, to the
/// file `name` in `/root`.
pub open spec fn copy_args(path: Seq<char>, container: Seq<char>, name: Seq<char>) -> Seq<
    Seq<char>,
> {
    seq!["cp"@, path, container + ":/root/"@ + name]
}

/// The arguments that start the container and wait for its end.
pub open spec fn start_args(container: Seq<char>) -> Seq<Seq<char>> {
    seq!["start"@, "-a"@, container]
}

impl StagedRunView {
    /// What comes next when the call that the run waits for has printed
    /// `stdout` and ended with success or not. The container is known by
    /// what its creation printed, without the white space at the end. The
    /// outcome is what the container printed, as it came: a success where
    /// it ended with status zero, else a failure.
    pub open spec fn resumed(self, stdout: Seq<char>, success: bool) -> StagedStepView {
        match self {
            StagedRunView::Creating { source_path, input_path } => StagedStepView::Invoke {
                args: copy_args(source_path, trimmed_end(stdout), "source"@),
                run: StagedRunView::CopyingSource { container: trimmed_end(stdout), input_path },
            },
            StagedRunView::CopyingSource { container, input_path } => StagedStepView::Invoke {
                args: copy_args(input_path, container, "input"@),
                run: StagedRunView::CopyingInput { container },
            },
            StagedRunView::CopyingInput { container } => StagedStepView::Invoke {
                args: start_args(container),
                run: StagedRunView::Running,
            },
            StagedRunView::Running => StagedStepView::Finished(
                if success {
                    Ok(stdout)
                } else {
                    Err(stdout)
                },
            ),
        }
    }
}

/// The arguments that copy the file at `path` into the container.
fn copy_call(path: String, container: &String, name: &str) -> (r: Vec<String>)
    ensures
        r.deep_view() == copy_args(path@, container@, name@),
{
    let mut target = container.clone();
    target.append(":/root/");
    target.append(name);
    let mut args: Vec<String> = Vec::new();
    args.push("cp".to_owned());
    args.push(path);
    args.push(target);
    assert(args.deep_view() =~= copy_args(path@, container@, name@));
    args
}

impl StagedRun {
    /// Begins the run of a snippet whose code is in the file at
    /// `source_path` and whose input is in the file at `input_path`: the
    /// container is to be created.
    pub fn begin(config: &Config, source_path: String, input_path: String) -> (r: StagedStep)
        ensures
            r@ == (StagedStepView::Invoke {
                args: create_args(config@),
                run: StagedRunView::Creating { source_path: source_path@, input_path: input_path@ },
            }),
    {
        let mut args: Vec<String> = Vec::new();
        args.push("create".to_owned());
        args.push("--rm".to_owned());
        args.push("-w".to_owned());
        args.push("/root".to_owned());
        args.push("-t".to_owned());
        args.push(config.image.clone());
        let mut i: usize = 0;
        assert(args.deep_view() =~= seq![
            "create"@,
            "--rm"@,
            "-w"@,
            "/root"@,
            "-t"@,
            config@.image,
        ] + config@.command.take(0));
        while i < config.command.len()
            invariant
                i <= config.command.len(),
                args.deep_view() == seq!["create"@, "--rm"@, "-w"@, "/root"@, "-t"@, config@.image]
                    + config@.command.take(i as int),
            decreases config.command.len() - i,
        {
            let ghost before = args.deep_view();
            args.push(config.command[i].clone());
            assert(args.deep_view() == before.push(config@.command[i as int]));
            assert(config@.command.take(i + 1) == config@.command.take(i as int).push(
                config@.command[i as int],
            ));
            i += 1;
        }
        assert(config@.command.take(i as int) == config@.command);
        StagedStep::Invoke { args, run: StagedRun::Creating { source_path, input_path } }
    }

    /// Resumes the run with what the call that it waited for gave.
    pub fn resume(self, output: &EngineOutput) -> (r: StagedStep)
        ensures
            r@ == self@.resumed(output.stdout@, output.success),
    {
        match self {
            StagedRun::Creating { source_path, input_path } => {
                let printed = chars_of(output.stdout.as_str());
                let len = trimmed_len(&printed);
                let container = string_of(&printed, 0, len);
                assert(printed@.take(len as int) == printed@.subrange(0, len as int));
                StagedStep::Invoke {
                    args: copy_call(source_path, &container, "source"),
                    run: StagedRun::CopyingSource { container, input_path },
                }
            },
            StagedRun::CopyingSource { container, input_path } => StagedStep::Invoke {
                args: copy_call(input_path, &container, "input"),
                run: StagedRun::CopyingInput { container },
            },
            StagedRun::CopyingInput { container } => {
                let mut args: Vec<String> = Vec::new();
                args.push("start".to_owned());
                args.push("-a".to_owned());
                args.push(container.clone());
                assert(args.deep_view() =~= start_args(container@));
                StagedStep::Invoke { args, run: StagedRun::Running }
            },
            StagedRun::Running => {
                if output.success {
                    StagedStep::Finished(Ok(output.stdout.clone()))
                } else {
                    StagedStep::Finished(Err(output.stdout.clone()))
                }
            },
        }
    }
}

} // verus!
