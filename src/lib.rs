//! Template resolution and project materialization for a desktop tool that
//! browses a workspace of game projects and makes new ones from templates.
//!
//! - `memfs`: a filesystem held in memory, with the log of its mutations.
//! - `copier`: recursive copy of a directory tree into an empty directory.
//! - `locator`: the ordered candidate locations of a template, and the search.
//! - `materialize`: validate, create, locate, copy: a new project.
//! - `lister`: the subdirectories of a root, with their times, in order.
use vstd::prelude::*;

pub mod category;
pub mod path;
pub mod lexical;
pub mod memfs;
pub mod error;
pub mod copier;
pub mod locator;
pub mod materialize;
pub mod lister;
