use mdbook_ocirun::cache::{
    CacheEntry, CacheWrite, CachedRunner, CodeSnippetCache, ERROR_PATH, SUCCESS_PATH,
};
use mdbook_ocirun::snippet::{CodeSnippet, Config, SnippetRunner, Source};
use std::cell::Cell;

fn ash_snippet() -> CodeSnippet {
    CodeSnippet {
        config: Config { image: "alpine".to_string(), command: vec!["ash".to_string()] },
        input: None,
        expected: None,
        source: Source::String("echo ok".to_string()),
    }
}

/// A runner that counts how often it is asked.
struct Counting {
    calls: Cell<usize>,
    outcome: Result<String, String>,
}

impl SnippetRunner for Counting {
    fn run(&self, _snippet: &CodeSnippet) -> Result<String, String> {
        self.calls.set(self.calls.get() + 1);
        self.outcome.clone()
    }
}

#[test]
pub fn test_cache() {
    let snippet = ash_snippet();
    let cache = CodeSnippetCache::new("/tmp/.mdbook/ocirun/".to_string());
    let mut entry = CacheEntry::missing();
    let expected: Result<String, String> = Result::Ok("ok".to_string());
    let none = cache.get(&entry);
    assert_eq!(none, None);
    let write = cache.add(&mut entry, &expected);
    assert_eq!(write, CacheWrite { file: "success.txt".to_string(), content: "ok".to_string() });
    let result = cache.get(&entry).unwrap();
    assert_eq!(result, expected);
    assert_eq!(
        cache.as_cached_path(&snippet, "", ""),
        vec![
            "25284ee2b9aa861f03d694885432acc893337404735182192a483420b5184ebb",
            "7d10fced96b38c84f90db07708f266e83da48ca763189eaed7fe1a00348385eb",
        ]
    );
}

#[test]
fn sentinel_file_names() {
    assert_eq!(SUCCESS_PATH, "success.txt");
    assert_eq!(ERROR_PATH, "error.txt");
}

#[test]
fn digest_is_sha256_in_hex() {
    assert_eq!(
        Source::String("hello".to_string()).get_digest("ignored"),
        "2cf24dba5fb0a30e26e83b2ac5b9e29e1b161e5c1fa7425e73043362938b9824"
    );
    assert_eq!(
        Source::File("notes.txt".to_string()).get_digest("hello"),
        "2cf24dba5fb0a30e26e83b2ac5b9e29e1b161e5c1fa7425e73043362938b9824"
    );
    assert_eq!(
        Source::String(String::new()).get_digest(""),
        "e3b0c44298fc1c149afbf4c8996fb92427ae41e4649b934ca495991b7852b855"
    );
}

#[test]
fn config_digest_is_taken_of_image_and_joined_command() {
    let config = Config {
        image: "rust".to_string(),
        command: vec![
            "/bin/bash".to_string(),
            "-ec".to_string(),
            "rustc source -o binary && ./binary < input".to_string(),
        ],
    };
    assert_eq!(
        config.get_digest(),
        "b3dc2c5d360628600e54635a001f3146393196071b426a43d75687ee17486ade"
    );
    let bare = Config { image: "alpine".to_string(), command: Vec::new() };
    assert_eq!(
        bare.get_digest(),
        "fd2762520fa75116a9067b2608022689ca1a476001292fb31d6c3824a9c59c26"
    );
}

#[test]
fn source_content() {
    assert_eq!(Source::String("text".to_string()).get_content("on disk"), "text");
    assert_eq!(Source::File("name".to_string()).get_content("on disk"), "on disk");
}

#[test]
fn same_request_has_the_same_place() {
    let cache = CodeSnippetCache::new("root".to_string());
    let inline = ash_snippet();
    let mut by_file = ash_snippet();
    by_file.source = Source::File("script.sh".to_string());
    assert_eq!(
        cache.as_cached_path(&inline, "", ""),
        cache.as_cached_path(&by_file, "echo ok", "")
    );
    assert_eq!(
        cache.as_cached_path(&inline, "", ""),
        cache.as_cached_path(&ash_snippet(), "x", "y")
    );
}

#[test]
fn input_changes_the_place() {
    let cache = CodeSnippetCache::new("root".to_string());
    let without = ash_snippet();
    let mut with = ash_snippet();
    with.input = Some(Source::String("input text".to_string()));
    let mut other = ash_snippet();
    other.input = Some(Source::String("other input".to_string()));
    let place = cache.as_cached_path(&with, "", "");
    assert_eq!(place.len(), 3);
    assert_eq!(place[..2], cache.as_cached_path(&without, "", "")[..]);
    assert_eq!(place[2], "cdf98d8f93aa6b8cdfd990a488016b1362bf7fae8c3ce546521580955d13d1ce");
    assert_ne!(place, cache.as_cached_path(&without, "", ""));
    assert_ne!(place, cache.as_cached_path(&other, "", ""));
}

#[test]
fn source_and_config_change_the_place() {
    let cache = CodeSnippetCache::new("root".to_string());
    let mut other_source = ash_snippet();
    other_source.source = Source::String("echo no".to_string());
    let mut other_config = ash_snippet();
    other_config.config.command = vec!["sh".to_string()];
    let place = cache.as_cached_path(&ash_snippet(), "", "");
    assert_ne!(place[1], cache.as_cached_path(&other_source, "", "")[1]);
    assert_eq!(place[0], cache.as_cached_path(&other_source, "", "")[0]);
    assert_ne!(place[0], cache.as_cached_path(&other_config, "", "")[0]);
}

#[test]
fn directory_without_files_is_a_miss() {
    let cache = CodeSnippetCache::new("root".to_string());
    let entry = CacheEntry { is_dir: true, success: None, error: None };
    assert_eq!(cache.get(&entry), None);
    let gone = CacheEntry { is_dir: false, success: Some("stale".to_string()), error: None };
    assert_eq!(cache.get(&gone), None);
}

#[test]
fn success_is_read_before_failure() {
    let cache = CodeSnippetCache::new("root".to_string());
    let entry = CacheEntry {
        is_dir: true,
        success: Some("good".to_string()),
        error: Some("bad".to_string()),
    };
    assert_eq!(cache.get(&entry), Some(Ok("good".to_string())));
    let failed = CacheEntry { is_dir: true, success: None, error: Some("bad".to_string()) };
    assert_eq!(cache.get(&failed), Some(Err("bad".to_string())));
}

#[test]
fn add_writes_one_file_and_get_reads_it_again() {
    let cache = CodeSnippetCache::new("root".to_string());
    let mut entry = CacheEntry::missing();
    let failure: Result<String, String> = Err("exit 1".to_string());
    let write = cache.add(&mut entry, &failure);
    assert_eq!(write, CacheWrite { file: "error.txt".to_string(), content: "exit 1".to_string() });
    assert_eq!(
        entry,
        CacheEntry { is_dir: true, success: None, error: Some("exit 1".to_string()) }
    );
    assert_eq!(cache.get(&entry), Some(failure.clone()));
    assert_eq!(cache.get(&entry), Some(failure));
    let success: Result<String, String> = Ok("fine".to_string());
    cache.add(&mut entry, &success);
    assert_eq!(cache.get(&entry), Some(success));
}

#[test]
fn failure_stored_beside_a_success_is_not_read() {
    let cache = CodeSnippetCache::new("root".to_string());
    let mut entry = CacheEntry::missing();
    cache.add(&mut entry, &Ok("fine".to_string()));
    cache.add(&mut entry, &Err("late".to_string()));
    assert_eq!(cache.get(&entry), Some(Ok("fine".to_string())));
}

#[test]
fn add_to_a_missing_directory_forgets_stale_files() {
    let cache = CodeSnippetCache::new("root".to_string());
    let mut entry = CacheEntry { is_dir: false, success: Some("stale".to_string()), error: None };
    cache.add(&mut entry, &Err("new".to_string()));
    assert_eq!(entry, CacheEntry { is_dir: true, success: None, error: Some("new".to_string()) });
}

#[test]
fn second_run_of_the_same_snippet_is_a_cache_hit() {
    let cached = CachedRunner {
        cache: CodeSnippetCache::new("root".to_string()),
        runner: Counting { calls: Cell::new(0), outcome: Ok("ok\n".to_string()) },
    };
    let first = ash_snippet();
    let second = ash_snippet();
    assert_eq!(
        cached.cache.as_cached_path(&first, "", ""),
        cached.cache.as_cached_path(&second, "", "")
    );
    let mut entry = CacheEntry::missing();
    let (outcome, write) = cached.run(&first, &mut entry);
    assert_eq!(outcome, Ok("ok\n".to_string()));
    assert_eq!(
        write,
        Some(CacheWrite { file: "success.txt".to_string(), content: "ok\n".to_string() })
    );
    let (outcome, write) = cached.run(&second, &mut entry);
    assert_eq!(outcome, Ok("ok\n".to_string()));
    assert_eq!(write, None);
    assert_eq!(cached.runner.calls.get(), 1);
}

#[test]
fn failed_run_is_cached_as_failure() {
    let cached = CachedRunner {
        cache: CodeSnippetCache::new("root".to_string()),
        runner: Counting { calls: Cell::new(0), outcome: Err("bad\n".to_string()) },
    };
    let mut entry = CacheEntry { is_dir: true, success: None, error: None };
    let (outcome, write) = cached.run(&ash_snippet(), &mut entry);
    assert_eq!(outcome, Err("bad\n".to_string()));
    assert_eq!(
        write,
        Some(CacheWrite { file: "error.txt".to_string(), content: "bad\n".to_string() })
    );
    let (outcome, write) = cached.run(&ash_snippet(), &mut entry);
    assert_eq!(outcome, Err("bad\n".to_string()));
    assert_eq!(write, None);
    assert_eq!(cached.runner.calls.get(), 1);
}
