//! Abbreviation matching: resolve a short, human-typed query against a set of
//! candidate strings and pick the single best one.
//!
//! A query matches a candidate when its letters can be found in the
//! candidate in order, each stretch of them at the start of a later part of
//! the candidate: `avblm` matches `A very_big-longMatch`, and does not match
//! `averybiglongmatch`. Among the candidates that a query matches the
//! shortest wins, and among equally short ones the first.
//!
//! On top of that sits a resolver that walks a directory tree one query at a
//! time. It is given the tree piece by piece by whoever drives it and never
//! reads a directory itself.
//!
//! - [`chars`]: what the matcher reads of a character.
//! - [`cursor`]: a reader over a text with one character of lookahead.
//! - [`text`]: values that can be read as text.
//! - [`matcher`]: whether a query matches a candidate.
//! - [`least`]: the rule "least wins, first among equals".
//! - [`select`]: the closest match among candidates.
//! - [`path`]: working paths, and matching a path component by component.
//! - [`token`]: the words a resolution is asked with.
//! - [`search`]: choosing among directories that were found.
//! - [`resolve`]: the resolver.
//! - [`cli`]: what the command line asks for.

pub mod chars;
pub mod cli;
pub mod cursor;
pub mod least;
pub mod matcher;
pub mod path;
pub mod resolve;
pub mod search;
pub mod select;
pub mod text;
pub mod token;
