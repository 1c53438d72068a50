use vstd::prelude::*;

use crate::category::TemplateCategory;
use crate::memfs::FsFault;

verus! {

/// The filesystem operation that failed.
#[derive(Clone, Copy, Debug, PartialEq, Eq, Structural)]
pub enum FsOperation {
    ReadDir,
    ReadFile,
    CreateDir,
    WriteFile,
    Copy,
}

/// A failed filesystem operation: what was attempted, where, and why.
#[derive(Debug)]
pub struct IoError {
    pub operation: FsOperation,
    pub path: Vec<String>,
    pub cause: FsFault,
}

/// Why a new project could not be made.
#[derive(Debug)]
pub enum MaterializeError {
    InvalidParent { path: Vec<String> },
    InvalidCategory { given: String },
    AlreadyExists { path: Vec<String> },
    TemplateNotFound { category: TemplateCategory, checked_paths: Vec<String> },
    Io(IoError),
}

} // verus!
