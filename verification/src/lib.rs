//! Runs the commands and code snippets of a markdown document in containers
//! and puts what they print into the document.
//!
//! A document asks for a command with a directive, on a line of its own or
//! in the middle of a line:
//!
//! ```markdown
//! <!-- run alpine seq 1 3 -->
//!
//! Price: <!-- run node node price.mjs apples -->
//! ```
//!
//! and for a snippet to be run with the flag `ocirun` on its fenced block:
//!
//! ````markdown
//! ```rust,ocirun
//! fn main() {
//!     println!("Hello World!!!");
//! }
//! ```
//! ````
//!
//! The library decides what is run and what becomes of the document; it
//! starts no process and touches no file. [`OciRun::run_on_content`] hands
//! out one command at a time and is resumed with what the command printed;
//! snippets are run by a [`snippet::SnippetRunner`], for which
//! [`staged::StagedRun`] says which calls of the container engine to make,
//! and [`cache::CachedRunner`] what to look up in and write to the store of
//! outcomes.
pub mod cache;
pub mod directive;
pub mod ocirun;
pub mod snippet;
pub mod staged;
pub mod utils;

pub use ocirun::OciRun;
pub use ocirun::OciRunConfig;
