//! The store of outcomes: where the outcome of a request is kept, what a
//! directory of the store says, and what is written to it.
//!
//! The place of a request is a chain of directories below the root of the
//! store: the digest of how it is run, the digest of its code, and, where it
//! has an input, the digest of that. The directory holds the outcome in one
//! of two files, one for a success and one for a failure.
use crate::snippet::{
    outcome_view, CodeSnippet, CodeSnippetView, Config, ConfigView, SnippetRunner, Source,
};
use crate::utils::string::{join, joined};
use vstd::prelude::*;

verus! {

/// The name of the file that holds what a successful run printed.
pub const SUCCESS_PATH: &'static str = "success.txt";

/// The name of the file that holds what a failed run printed.
pub const ERROR_PATH: &'static str = "error.txt";

/// The SHA-256 digest of the UTF-8 bytes of `text`, written as hexadecimal
/// digits.
pub uninterp spec fn sha256_hex(text: Seq<char>) -> Seq<char>;

/// `sha256::digest` hashes the bytes of the text with SHA-256 and writes the
/// hash as lower-case hexadecimal digits: a function of the text alone.
#[verifier::external_body]
fn digest(text: &str) -> (r: String)
    ensures
        r@ == sha256_hex(text@),
{
    sha256::digest(text)
}

impl ConfigView {
    /// The text that the digest of a configuration is taken of: the image, a
    /// colon, and the words of the command with spaces between them.
    pub open spec fn key(self) -> Seq<char> {
        self.image + ":"@ + joined(self.command, " "@)
    }
}

impl Config {
    /// The digest of the configuration.
    pub fn get_digest(&self) -> (r: String)
        ensures
            r@ == sha256_hex(self@.key()),
    {
        let mut key = self.image.clone();
        key.append(":");
        key.append(join(&self.command, " ").as_str());
        digest(key.as_str())
    }
}

impl Source {
    /// The text that the source stands for, where `file_text` is what its
    /// file holds; a text that is given as it is has no file, and
    /// `file_text` is not looked at.
    pub fn get_content(&self, file_text: &str) -> (r: String)
        ensures
            r@ == self@.content(file_text@),
    {
        match self {
            Source::String(content) => content.clone(),
            Source::File(_) => file_text.to_owned(),
        }
    }

    /// The digest of the text that the source stands for.
    pub fn get_digest(&self, file_text: &str) -> (r: String)
        ensures
            r@ == sha256_hex(self@.content(file_text@)),
    {
        match self {
            Source::String(content) => digest(content.as_str()),
            Source::File(_) => digest(file_text),
        }
    }
}

/// The place of a request in the store, as the names of the directories that
/// lead to it from the root.
pub open spec fn cached_path(
    snippet: CodeSnippetView,
    source_text: Seq<char>,
    input_text: Seq<char>,
) -> Seq<Seq<char>> {
    let place = seq![
        sha256_hex(snippet.config.key()),
        sha256_hex(snippet.source.content(source_text)),
    ];
    match snippet.input {
        Some(input) => place.push(sha256_hex(input.content(input_text))),
        None => place,
    }
}

/// What the directory of a request holds: whether it exists, and the text of
/// each of the two files that is there.
#[derive(Debug, PartialEq)]
pub struct CacheEntry {
    pub is_dir: bool,
    pub success: Option<String>,
    pub error: Option<String>,
}

/// What a [`CacheEntry`] holds, as the contracts see it.
pub ghost struct CacheEntryView {
    pub is_dir: bool,
    pub success: Option<Seq<char>>,
    pub error: Option<Seq<char>>,
}

impl View for CacheEntry {
    type V = CacheEntryView;

    open spec fn view(&self) -> CacheEntryView {
        CacheEntryView {
            is_dir: self.is_dir,
            success: match self.success {
                Some(text) => Some(text@),
                None => None,
            },
            error: match self.error {
                Some(text) => Some(text@),
                None => None,
            },
        }
    }
}

impl CacheEntryView {
    /// The directory of a request that was never stored.
    pub open spec fn missing() -> CacheEntryView {
        CacheEntryView { is_dir: false, success: None, error: None }
    }

    /// The outcome that the directory holds: a success where the file for
    /// it is there, else a failure where that file is there. A directory that
    /// does not exist, or that holds neither file, holds none.
    pub open spec fn outcome(self) -> Option<Result<Seq<char>, Seq<char>>> {
        if !self.is_dir {
            None
        } else if self.success is Some {
            Some(Ok(self.success->0))
        } else if self.error is Some {
            Some(Err(self.error->0))
        } else {
            None
        }
    }

    /// The directory after `outcome` was stored in it: it exists, the file
    /// for the outcome holds the text, and the other file is as it was.
    pub open spec fn with(self, outcome: Result<Seq<char>, Seq<char>>) -> CacheEntryView {
        let success = if self.is_dir {
            self.success
        } else {
            None
        };
        let error = if self.is_dir {
            self.error
        } else {
            None
        };
        match outcome {
            Ok(text) => CacheEntryView { is_dir: true, success: Some(text), error },
            Err(text) => CacheEntryView { is_dir: true, success, error: Some(text) },
        }
    }
}

/// What storing an outcome writes: the text, to the file of that name in the
/// directory of the request.
#[derive(Debug, PartialEq)]
pub struct CacheWrite {
    pub file: String,
    pub content: String,
}

impl CacheWrite {
    /// The write that stores `outcome`.
    pub open spec fn stores(&self, outcome: Result<Seq<char>, Seq<char>>) -> bool {
        match outcome {
            Ok(text) => self.file@ == SUCCESS_PATH@ && self.content@ == text,
            Err(text) => self.file@ == ERROR_PATH@ && self.content@ == text,
        }
    }
}

/// The store of outcomes below the directory `path`.
pub struct CodeSnippetCache {
    pub path: String,
}

impl CacheEntry {
    /// The directory of a request that was never stored.
    pub fn missing() -> (r: Self)
        ensures
            r@ == CacheEntryView::missing(),
    {
        CacheEntry { is_dir: false, success: None, error: None }
    }
}

impl CodeSnippetCache {
    /// The store below the directory `path`.
    pub fn new(path: String) -> (r: Self)
        ensures
            r.path == path,
    {
        CodeSnippetCache { path }
    }

    /// The root of the store of a user, below the user's home directory.
    pub open spec fn user_root(home: Seq<char>) -> Seq<char> {
        home + "/.mdbook/ocirun/"@
    }

    /// The store of the user whose home directory is `home`.
    pub fn for_home(home: &str) -> (r: Self)
        ensures
            r.path@ == Self::user_root(home@),
    {
        let mut path = home.to_owned();
        path.append("/.mdbook/ocirun/");
        CodeSnippetCache { path }
    }

    /// The place of a request below the root of the store. `source_text`
    /// and `input_text` are what the files of its code and of its input
    /// hold, where they are given by name.
    pub fn as_cached_path(&self, snippet: &CodeSnippet, source_text: &str, input_text: &str) -> (r:
        Vec<String>)
        ensures
            r.deep_view() == cached_path(snippet@, source_text@, input_text@),
    {
        let mut place: Vec<String> = Vec::new();
        place.push(snippet.config.get_digest());
        place.push(snippet.source.get_digest(source_text));
        if let Some(input) = &snippet.input {
            place.push(input.get_digest(input_text));
        }
        assert(place.deep_view() =~= cached_path(snippet@, source_text@, input_text@));
        place
    }

    /// The outcome that the directory of a request holds, if it holds one.
    pub fn get(&self, entry: &CacheEntry) -> (r: Option<Result<String, String>>)
        ensures
            match r {
                Some(outcome) => entry@.outcome() == Some(outcome_view(outcome)),
                None => entry@.outcome() is None,
            },
    {
        if !entry.is_dir {
            return None;
        }
        if let Some(content) = &entry.success {
            return Some(Ok(content.clone()));
        }
        if let Some(content) = &entry.error {
            return Some(Err(content.clone()));
        }
        None
    }

    /// Stores an outcome: hands back what is to be written, and records in
    /// `entry` what the directory holds after that.
    pub fn add(&self, entry: &mut CacheEntry, result: &Result<String, String>) -> (r: CacheWrite)
        ensures
            r.stores(outcome_view(*result)),
            final(entry)@ == old(entry)@.with(outcome_view(*result)),
    {
        if !entry.is_dir {
            entry.is_dir = true;
            entry.success = None;
            entry.error = None;
        }
        match result {
            Ok(content) => {
                entry.success = Some(content.clone());
                CacheWrite { file: SUCCESS_PATH.to_owned(), content: content.clone() }
            },
            Err(content) => {
                entry.error = Some(content.clone());
                CacheWrite { file: ERROR_PATH.to_owned(), content: content.clone() }
            },
        }
    }
}

/// A runner that looks into the store before it runs a snippet, and stores
/// what a run gave.
pub struct CachedRunner<R: SnippetRunner> {
    pub cache: CodeSnippetCache,
    pub runner: R,
}

impl<R: SnippetRunner> CachedRunner<R> {
    /// The outcome of a request, whose directory in the store holds `entry`.
    /// Where the directory holds an outcome, that is the outcome: nothing is
    /// run and nothing written. Where it holds none, the snippet is run, and
    /// what the run gave is the outcome and is to be written to the store;
    /// `entry` then holds it.
    pub fn run(&self, snippet: &CodeSnippet, entry: &mut CacheEntry) -> (r: (
        Result<String, String>,
        Option<CacheWrite>,
    ))
        ensures
            match old(entry)@.outcome() {
                Some(kept) => {
                    &&& outcome_view(r.0) == kept
                    &&& r.1 is None
                    &&& *final(entry) == *old(entry)
                },
                None => {
                    &&& self.runner.gives(snippet@, outcome_view(r.0))
                    &&& r.1 is Some
                    &&& r.1->0.stores(outcome_view(r.0))
                    &&& final(entry)@ == old(entry)@.with(outcome_view(r.0))
                    &&& final(entry)@.outcome() == Some(outcome_view(r.0))
                },
            },
    {
        if let Some(result) = self.cache.get(entry) {
            return (result, None);
        }
        let result = self.runner.run(snippet);
        let write = self.cache.add(entry, &result);
        (result, Some(write))
    }
}

/// The files of a store: the text of each, by the names of the directories
/// that lead to it from the root, and its own name after them.
pub ghost struct StoreView {
    pub files: Map<Seq<Seq<char>>, Seq<char>>,
}

impl StoreView {
    /// The store that holds nothing.
    pub open spec fn empty() -> StoreView {
        StoreView { files: Map::empty() }
    }

    /// The text of the file `name` in the directory at `place`, if the file
    /// is there.
    pub open spec fn file(self, place: Seq<Seq<char>>, name: Seq<char>) -> Option<Seq<char>> {
        if self.files.contains_key(place.push(name)) {
            Some(self.files[place.push(name)])
        } else {
            None
        }
    }

    /// A directory stands at `place`: a file stands in it or below it.
    pub open spec fn is_dir(self, place: Seq<Seq<char>>) -> bool {
        exists|path: Seq<Seq<char>>|
            {
                &&& #[trigger] self.files.contains_key(path)
                &&& path.len() > place.len()
                &&& path.take(place.len() as int) == place
            }
    }

    /// What the directory at `place` holds.
    pub open spec fn entry(self, place: Seq<Seq<char>>) -> CacheEntryView {
        CacheEntryView {
            is_dir: self.is_dir(place),
            success: self.file(place, SUCCESS_PATH@),
            error: self.file(place, ERROR_PATH@),
        }
    }

    /// The store after `outcome` was stored at `place`: the file for the
    /// outcome holds the text, and every other file is as it was.
    pub open spec fn with(
        self,
        place: Seq<Seq<char>>,
        outcome: Result<Seq<char>, Seq<char>>,
    ) -> StoreView {
        match outcome {
            Ok(text) => StoreView { files: self.files.insert(place.push(SUCCESS_PATH@), text) },
            Err(text) => StoreView { files: self.files.insert(place.push(ERROR_PATH@), text) },
        }
    }

    /// The store after each of `adds` was stored, in their order, in a store
    /// that held nothing.
    pub open spec fn after(
        adds: Seq<(Seq<Seq<char>>, Result<Seq<char>, Seq<char>>)>,
    ) -> StoreView
        decreases adds.len(),
    {
        if adds.len() == 0 {
            StoreView::empty()
        } else {
            StoreView::after(adds.drop_last()).with(adds.last().0, adds.last().1)
        }
    }
}

/// Storing an outcome at a place changes what the directory there holds as
/// [`CacheEntryView::with`] says.
pub proof fn lemma_store_entry(
    store: StoreView,
    place: Seq<Seq<char>>,
    outcome: Result<Seq<char>, Seq<char>>,
)
    ensures
        store.with(place, outcome).entry(place) == store.entry(place).with(outcome),
{
    reveal_strlit("success.txt");
    reveal_strlit("error.txt");
    let name = match outcome {
        Ok(_) => SUCCESS_PATH@,
        Err(_) => ERROR_PATH@,
    };
    let other = match outcome {
        Ok(_) => ERROR_PATH@,
        Err(_) => SUCCESS_PATH@,
    };
    let after = store.with(place, outcome);
    let written = place.push(name);
    assert(after.files.contains_key(written));
    assert(written.take(place.len() as int) == place);
    assert(after.is_dir(place));
    assert(name.len() != other.len());
    assert(place.push(other).last() == other);
    assert(written.last() == name);
    assert(place.push(other) != written);
    if !store.is_dir(place) {
        assert(place.push(other).take(place.len() as int) == place);
        assert(!store.files.contains_key(place.push(other)));
    }
}

/// Storing an outcome at a place leaves the outcome at every other place as
/// it was.
pub proof fn lemma_store_elsewhere(
    store: StoreView,
    place: Seq<Seq<char>>,
    outcome: Result<Seq<char>, Seq<char>>,
    other: Seq<Seq<char>>,
)
    requires
        other != place,
    ensures
        store.with(place, outcome).entry(other).outcome() == store.entry(other).outcome(),
{
    let after = store.with(place, outcome);
    let name = match outcome {
        Ok(_) => SUCCESS_PATH@,
        Err(_) => ERROR_PATH@,
    };
    let written = place.push(name);
    assert forall|file: Seq<char>| other.push(file) != written by {
        if other.push(file) == written {
            assert(other.push(file).drop_last() == other);
            assert(written.drop_last() == place);
        }
    }
    assert(after.file(other, SUCCESS_PATH@) == store.file(other, SUCCESS_PATH@));
    assert(after.file(other, ERROR_PATH@) == store.file(other, ERROR_PATH@));
    if store.is_dir(other) {
        let path = choose|path: Seq<Seq<char>>|
            {
                &&& #[trigger] store.files.contains_key(path)
                &&& path.len() > other.len()
                &&& path.take(other.len() as int) == other
            };
        assert(after.files.contains_key(path));
        assert(after.is_dir(other));
    } else {
        assert(other.push(SUCCESS_PATH@).take(other.len() as int) == other);
        assert(other.push(ERROR_PATH@).take(other.len() as int) == other);
        assert(!store.files.contains_key(other.push(SUCCESS_PATH@)));
        assert(!store.files.contains_key(other.push(ERROR_PATH@)));
    }
}

/// A request that was never stored has no outcome in the store, whatever was
/// stored at other places.
pub proof fn lemma_never_stored(
    adds: Seq<(Seq<Seq<char>>, Result<Seq<char>, Seq<char>>)>,
    place: Seq<Seq<char>>,
)
    requires
        forall|i: int| 0 <= i < adds.len() ==> adds[i].0 != place,
    ensures
        StoreView::after(adds).entry(place).outcome() is None,
    decreases adds.len(),
{
    if adds.len() == 0 {
        assert(!StoreView::empty().is_dir(place));
    } else {
        lemma_never_stored(adds.drop_last(), place);
        lemma_store_elsewhere(
            StoreView::after(adds.drop_last()),
            adds.last().0,
            adds.last().1,
            place,
        );
    }
}

/// The outcome that was stored last at a place is the outcome that the store
/// has for it, whatever was stored at other places since, unless it is a
/// failure and a success was stored there before it.
pub proof fn lemma_stored_last(
    adds: Seq<(Seq<Seq<char>>, Result<Seq<char>, Seq<char>>)>,
    last: int,
)
    requires
        0 <= last < adds.len(),
        forall|i: int| last < i < adds.len() ==> adds[i].0 != adds[last].0,
        adds[last].1 is Ok || forall|i: int|
            0 <= i < last && adds[i].0 == adds[last].0 ==> adds[i].1 is Err,
    ensures
        StoreView::after(adds).entry(adds[last].0).outcome() == Some(adds[last].1),
    decreases adds.len(),
{
    let place = adds[last].0;
    let before = StoreView::after(adds.drop_last());
    if last == adds.len() - 1 {
        lemma_store_entry(before, place, adds[last].1);
        if adds[last].1 is Err {
            lemma_no_success(adds.drop_last(), place);
        }
    } else {
        lemma_stored_last(adds.drop_last(), last);
        lemma_store_elsewhere(before, adds.last().0, adds.last().1, place);
    }
}

/// A place at which only failures were stored holds no success.
proof fn lemma_no_success(
    adds: Seq<(Seq<Seq<char>>, Result<Seq<char>, Seq<char>>)>,
    place: Seq<Seq<char>>,
)
    requires
        forall|i: int| 0 <= i < adds.len() && adds[i].0 == place ==> adds[i].1 is Err,
    ensures
        StoreView::after(adds).file(place, SUCCESS_PATH@) is None,
    decreases adds.len(),
{
    reveal_strlit("success.txt");
    reveal_strlit("error.txt");
    if adds.len() > 0 {
        lemma_no_success(adds.drop_last(), place);
        let written = match adds.last().1 {
            Ok(_) => adds.last().0.push(SUCCESS_PATH@),
            Err(_) => adds.last().0.push(ERROR_PATH@),
        };
        if written == place.push(SUCCESS_PATH@) {
            assert(written.drop_last() == adds.last().0);
            assert(place.push(SUCCESS_PATH@).drop_last() == place);
            assert(written.last().len() == place.push(SUCCESS_PATH@).last().len());
        }
    }
}

/// The directory of a request that was never stored holds no outcome,
/// whether it does not exist or exists without either file, as it does where
/// a request with the same code and an input was stored below it.
pub proof fn lemma_get_unstored(entry: CacheEntryView)
    requires
        !entry.is_dir || (entry.success is None && entry.error is None),
    ensures
        entry.outcome() is None,
        CacheEntryView::missing().outcome() is None,
{
}

/// After an outcome was stored, the directory holds that outcome, however
/// often it is read, unless a failure was stored where a success was kept
/// already: a success that is there is read first.
pub proof fn lemma_get_after_add(entry: CacheEntryView, outcome: Result<Seq<char>, Seq<char>>)
    requires
        outcome is Ok || !entry.is_dir || entry.success is None,
    ensures
        entry.with(outcome).outcome() == Some(outcome),
{
}

/// Two requests that are run in the same way, on the same code and on the
/// same input or both on none have the same place in the store, whether
/// their texts are given as they are or by the name of a file.
pub proof fn lemma_cached_path_same(
    a: CodeSnippetView,
    a_source: Seq<char>,
    a_input: Seq<char>,
    b: CodeSnippetView,
    b_source: Seq<char>,
    b_input: Seq<char>,
)
    requires
        a.config == b.config,
        a.source.content(a_source) == b.source.content(b_source),
        a.input is Some <==> b.input is Some,
        a.input is Some ==> a.input->0.content(a_input) == b.input->0.content(b_input),
    ensures
        cached_path(a, a_source, a_input) == cached_path(b, b_source, b_input),
{
}

/// A request with an input and one without have different places in the
/// store, and so have two requests whose inputs have different digests.
pub proof fn lemma_cached_path_input(
    a: CodeSnippetView,
    a_source: Seq<char>,
    a_input: Seq<char>,
    b: CodeSnippetView,
    b_source: Seq<char>,
    b_input: Seq<char>,
)
    requires
        (a.input is Some) != (b.input is Some) || (a.input is Some && b.input is Some
            && sha256_hex(a.input->0.content(a_input)) != sha256_hex(
            b.input->0.content(b_input),
        )),
    ensures
        cached_path(a, a_source, a_input) != cached_path(b, b_source, b_input),
{
    let pa = cached_path(a, a_source, a_input);
    let pb = cached_path(b, b_source, b_input);
    if a.input is Some && b.input is Some {
        assert(pa[2] != pb[2]);
    } else {
        assert(pa.len() != pb.len());
    }
}

} // verus!
