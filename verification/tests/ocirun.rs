use mdbook_ocirun::ocirun::{
    clone_langs, clone_strings, ContentRun, DirectRun, LangConfig, OciRunConfig, RunError, Step,
};
use mdbook_ocirun::snippet::{CodeSnippet, SnippetRunner};
use mdbook_ocirun::utils::lines::LineBreak;
use mdbook_ocirun::OciRun;
use std::borrow::Cow;
use std::cell::Cell;
use std::path::Path;

/// A runner that prints the same for every snippet and counts its runs.
struct Fixed {
    runs: Cell<usize>,
}

impl SnippetRunner for Fixed {
    fn run(&self, _snippet: &CodeSnippet) -> Result<String, String> {
        self.runs.set(self.runs.get() + 1);
        Ok("Hello World!!!\n".to_string())
    }
}

fn runner() -> Fixed {
    Fixed { runs: Cell::new(0) }
}

fn request(image: &str, command: &str) -> DirectRun {
    DirectRun { image: image.to_string(), command: command.to_string() }
}

fn asked(step: Step) -> (DirectRun, ContentRun) {
    match step {
        Step::Invoke { request, run } => (request, run),
        Step::Finished(result) => panic!("ended with {:?}", result),
    }
}

fn ended(step: Step) -> Result<String, RunError> {
    match step {
        Step::Finished(result) => result,
        Step::Invoke { request, .. } => panic!("asked for {:?}", request),
    }
}

fn failure(message: &str) -> RunError {
    RunError { message: message.to_string() }
}

#[test]
fn rust_language() {
    let rust = LangConfig::rust();
    assert_eq!(rust.name, "rust");
    assert_eq!(rust.image, "rust");
    assert_eq!(
        rust.command,
        vec!["/bin/bash", "-ec", "rustc source -o binary && ./binary < input"]
    );
    assert_eq!(rust.clone(), rust);
}

#[test]
fn preprocessor_of_a_configuration() {
    let config = OciRunConfig { engine: Some("podman".into()), langs: vec![LangConfig::rust()] };
    let engine = config.create_preprocessor(Path::new("book").to_path_buf());
    assert_eq!(engine.engine, "podman");
    assert_eq!(engine.root_path, Path::new("book"));
    assert_eq!(engine.langs, vec![LangConfig::rust()]);
}

#[test]
fn engine_defaults_to_docker() {
    let config = OciRunConfig::default();
    assert_eq!(config, OciRunConfig { engine: None, langs: Vec::new() });
    let engine = config.create_preprocessor(Path::new("book").to_path_buf());
    assert_eq!(engine.engine, "docker");
    assert!(engine.langs.is_empty());
    let engine = OciRun::default();
    assert_eq!(engine.engine, "docker");
    assert_eq!(engine.root_path, Path::new("."));
    assert!(engine.langs.is_empty());
}

#[test]
fn copies_are_equal() {
    let words = vec!["a".to_string(), String::new(), "b c".to_string()];
    assert_eq!(clone_strings(&words), words);
    let langs = vec![LangConfig::rust(), LangConfig::rust()];
    assert_eq!(clone_langs(&langs), langs);
    assert!(clone_langs(&Vec::new()).is_empty());
}

#[test]
fn payload_splits_at_its_first_white_space() {
    assert_eq!(DirectRun::parse("alpine echo oui"), request("alpine", "echo oui"));
    assert_eq!(DirectRun::parse("alpine echo oui "), request("alpine", "echo oui "));
    assert_eq!(DirectRun::parse("fedora yes 42 | head"), request("fedora", "yes 42 | head"));
    assert_eq!(DirectRun::parse("python   python a.py"), request("python", "python a.py"));
    assert_eq!(DirectRun::parse("alpine\tls"), request("alpine", "ls"));
    assert_eq!(DirectRun::parse("alpine "), request("alpine", ""));
    assert_eq!(DirectRun::parse(" alpine ls"), request("", "alpine ls"));
}

#[test]
fn payload_without_white_space_runs_in_the_default_image() {
    assert_eq!(DirectRun::parse("ls"), request("alpine", "ls"));
    assert_eq!(DirectRun::parse(""), request("alpine", ""));
    assert_eq!(DirectRun::parse("a|b"), request("alpine", "a|b"));
}

#[test]
fn arguments_of_a_direct_run() {
    let args = OciRun::default().run_args(&request("alpine", "echo oui"), "/home/me/book/src");
    assert_eq!(
        args,
        vec![
            "run",
            "--rm",
            "-w",
            "/home/me/book/src",
            "-v",
            "/home/me/book/src:/home/me/book/src",
            "-t",
            "alpine",
            "sh",
            "-c",
            "echo oui",
        ]
    );
}

#[test]
fn output_of_a_direct_run() {
    assert_eq!(OciRun::run_output("oui\r\n", false, LineBreak::Kept), "oui\n");
    assert_eq!(OciRun::run_output("oui\r\n", true, LineBreak::Kept), "oui");
    assert_eq!(OciRun::run_output("oui\nnon\n", false, LineBreak::Kept), "oui\nnon\n");
    assert_eq!(OciRun::run_output("oui\r\nnon\r\n", true, LineBreak::Kept), "oui\nnon");
    assert_eq!(OciRun::run_output("42  \r\n42  \r\n", true, LineBreak::Kept), "42  \n42");
    assert_eq!(OciRun::run_output("42  \r\n42  \r\n", false, LineBreak::Kept), "42  \n42  \n");
    assert_eq!(OciRun::run_output("\r\n", true, LineBreak::Kept), "");
    assert_eq!(OciRun::run_output("\r\n", false, LineBreak::Kept), "\n");
    assert_eq!(OciRun::run_output("", false, LineBreak::Kept), "");
    assert_eq!(OciRun::run_output("no break", false, LineBreak::Kept), "no break");
    assert_eq!(OciRun::run_output("two\n\n", false, LineBreak::Kept), "two\n\n");
    assert_eq!(OciRun::format_whitespace(Cow::Borrowed("a \n"), true), "a");
    assert_eq!(OciRun::format_whitespace(Cow::Borrowed("a \n"), false), "a \n");
}

#[test]
fn line_directive_is_replaced_with_its_line() {
    let engine = OciRun::default();
    let content = "<!-- run alpine echo oui -->\n";
    let (request, run) = asked(engine.run_on_content(content, LineBreak::Kept, &runner()));
    assert_eq!(request, self::request("alpine", "echo oui "));
    let result = ended(engine.resume_content(run, Ok("oui\r\n".to_string()), &runner()));
    assert_eq!(result, Ok("oui\n".to_string()));
}

#[test]
fn inline_directive_is_replaced_with_trimmed_output() {
    let engine = OciRun::default();
    let content = "<!-- run alpine echo oui -->";
    let (request, run) = asked(engine.run_on_content(content, LineBreak::Kept, &runner()));
    assert_eq!(request, self::request("alpine", "echo oui "));
    let result = ended(engine.resume_content(run, Ok("oui\r\n".to_string()), &runner()));
    assert_eq!(result, Ok("oui".to_string()));
}

#[test]
fn inline_directive_leaves_the_line_feed_after_it() {
    let engine = OciRun::default();
    let content = "a <!-- run alpine echo oui --> \nb";
    let (_, run) = asked(engine.run_on_content(content, LineBreak::Kept, &runner()));
    let result = ended(engine.resume_content(run, Ok("oui\n".to_string()), &runner()));
    assert_eq!(result, Ok("a oui \nb".to_string()));
}

#[test]
fn plain_document_is_unchanged() {
    let engine = OciRun::default();
    let content = "# Title\n\n<!-- a comment -->\n```rust\nfn main() {}\n```\n<!-- run";
    let fixed = runner();
    let result = ended(engine.run_on_content(content, LineBreak::Kept, &fixed));
    assert_eq!(result, Ok(content.to_string()));
    assert_eq!(ended(engine.run_on_content("", LineBreak::Kept, &fixed)), Ok(String::new()));
    assert_eq!(fixed.runs.get(), 0);
}

#[test]
fn line_directives_come_before_inline_ones() {
    let engine = OciRun::default();
    let content = "| <!-- run a one --> |\n<!-- run b two -->\n<!-- run c three -->\nend";
    let (request, run) = asked(engine.run_on_content(content, LineBreak::Kept, &runner()));
    assert_eq!(request, self::request("b", "two "));
    let (request, run) = asked(engine.resume_content(run, Ok("2\n".to_string()), &runner()));
    assert_eq!(request, self::request("c", "three "));
    let (request, run) = asked(engine.resume_content(run, Ok("3\n".to_string()), &runner()));
    assert_eq!(request, self::request("a", "one "));
    let result = ended(engine.resume_content(run, Ok("1\n".to_string()), &runner()));
    assert_eq!(result, Ok("| 1 |\n2\n3\nend".to_string()));
}

#[test]
fn inline_directives_in_the_output_of_a_line_are_run() {
    let engine = OciRun::default();
    let (_, run) = asked(engine.run_on_content("<!-- run a gen -->\n", LineBreak::Kept, &runner()));
    let (request, run) =
        asked(engine.resume_content(run, Ok("<!-- run b x -->!\n".to_string()), &runner()));
    assert_eq!(request, self::request("b", "x "));
    let result = ended(engine.resume_content(run, Ok("y\n".to_string()), &runner()));
    assert_eq!(result, Ok("y!\n".to_string()));
}

#[test]
fn first_failure_of_a_pass_ends_the_rewriting_after_the_pass() {
    let engine = OciRun::default();
    let content = "<!-- run a 1 -->\n<!-- run b 2 -->\n<!-- run c 3 -->\n<!-- run d 4 -->";
    let fixed = runner();
    let (_, run) = asked(engine.run_on_content(content, LineBreak::Kept, &fixed));
    let (request, run) = asked(engine.resume_content(run, Err(failure("first")), &fixed));
    assert_eq!(request, self::request("b", "2 "));
    let (request, run) = asked(engine.resume_content(run, Ok("fine\n".to_string()), &fixed));
    assert_eq!(request, self::request("c", "3 "));
    let result = ended(engine.resume_content(run, Err(failure("second")), &fixed));
    assert_eq!(result, Err(failure("first")));
    assert_eq!(fixed.runs.get(), 0);
}

#[test]
fn failure_of_an_inline_directive_ends_the_rewriting_before_the_snippets() {
    let mut config = OciRunConfig::default();
    config.langs = vec![LangConfig::rust()];
    let engine = config.create_preprocessor(Path::new(".").to_path_buf());
    let content = "<!-- run a 1 -->\n```rust,ocirun\nfn main() {}\n```\n";
    let fixed = runner();
    let (_, run) = asked(engine.run_on_content(content, LineBreak::Kept, &fixed));
    let result = ended(engine.resume_content(run, Err(failure("Fail to run shell")), &fixed));
    assert_eq!(result, Err(failure("Fail to run shell")));
    assert_eq!(fixed.runs.get(), 0);
}

#[test]
fn snippets_are_run_after_the_directives() {
    let mut config = OciRunConfig::default();
    config.langs = vec![LangConfig::rust()];
    let engine = config.create_preprocessor(Path::new(".").to_path_buf());
    let content = "<!-- run alpine cat main.rs -->\n";
    let fixed = runner();
    let (_, run) = asked(engine.run_on_content(content, LineBreak::Kept, &fixed));
    assert_eq!(fixed.runs.get(), 0);
    let printed = "```rust,ocirun\r\nfn main() {}\r\n```\r\n".to_string();
    let result = ended(engine.resume_content(run, Ok(printed), &fixed));
    assert_eq!(
        result,
        Ok("```rust,ocirun\nfn main() {}\n```\n```console,success\nHello World!!!\n```\n"
            .to_string())
    );
    assert_eq!(fixed.runs.get(), 1);
}

#[test]
fn output_of_a_direct_run_with_platform_line_breaks() {
    assert_eq!(OciRun::run_output("oui", false, LineBreak::CrLf), "oui\n");
    assert_eq!(OciRun::run_output("oui\n", false, LineBreak::CrLf), "oui\n");
    assert_eq!(OciRun::run_output("oui\r\nnon", false, LineBreak::CrLf), "oui\nnon\n");
    assert_eq!(OciRun::run_output("oui\nnon\n", true, LineBreak::CrLf), "oui\nnon");
    assert_eq!(OciRun::run_output("42  \n42  \n", true, LineBreak::CrLf), "42  \n42");
    assert_eq!(OciRun::run_output("42  \n42  \n", false, LineBreak::CrLf), "42  \n42  \n");
    assert_eq!(OciRun::run_output("", false, LineBreak::CrLf), "");
    assert_eq!(OciRun::run_output("\n", false, LineBreak::CrLf), "");
    assert_eq!(OciRun::run_output("a\n\n", false, LineBreak::CrLf), "a\n\n");
    assert_eq!(OciRun::run_output(" \n ", true, LineBreak::CrLf), "");
}

#[test]
fn rewriting_with_platform_line_breaks() {
    let engine = OciRun::default();
    let content = "<!-- run alpine printf oui -->\n| <!-- run alpine echo non --> |";
    let (_, run) = asked(engine.run_on_content(content, LineBreak::CrLf, &runner()));
    let (_, run) = asked(engine.resume_content(run, Ok("oui".to_string()), &runner()));
    let result = ended(engine.resume_content(run, Ok("non\r\n".to_string()), &runner()));
    assert_eq!(result, Ok("oui\n| non |".to_string()));
}
