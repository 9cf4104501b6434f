//! The failures of a listing.

use vstd::prelude::*;
use vstd::string::StringExecFns;

verus! {

/// The operation that a failure belongs to.
#[derive(Clone, Copy, Debug, PartialEq, Eq, Structural)]
pub enum Operation {
    /// The listing of every file below the root.
    ListAllFiles,
    /// The listing of one directory.
    ListDirectory,
}

/// Why a listing failed.
#[derive(Clone, Debug, PartialEq, Eq)]
pub enum ListError {
    /// A directory could not be read: it is missing, it is no directory, or
    /// reading it was refused or broke off. `path` is the directory, relative
    /// to the root; `message` is the reason as the file system gave it.
    DirectoryRead { operation: Operation, path: String, message: String },
    /// The requested path leads out of the root.
    PathEscape { path: String },
}

/// A `ListError` as a mathematical value.
pub enum ListErrorView {
    DirectoryRead { operation: Operation, path: Seq<char>, message: Seq<char> },
    PathEscape { path: Seq<char> },
}

impl View for ListError {
    type V = ListErrorView;

    open spec fn view(&self) -> ListErrorView {
        match *self {
            ListError::DirectoryRead { operation, path, message } => ListErrorView::DirectoryRead {
                operation,
                path: path@,
                message: message@,
            },
            ListError::PathEscape { path } => ListErrorView::PathEscape { path: path@ },
        }
    }
}

/// The name of an operation in a failure's text.
pub open spec fn operation_name(operation: Operation) -> Seq<char> {
    match operation {
        Operation::ListAllFiles => "list_all_files"@,
        Operation::ListDirectory => "list_directory"@,
    }
}

/// The text of a failure.
pub open spec fn description(error: ListErrorView) -> Seq<char> {
    match error {
        ListErrorView::DirectoryRead { operation, path, message } => operation_name(operation)
            + ": cannot read directory \""@ + path + "\": "@ + message,
        ListErrorView::PathEscape { path } => "list_directory: path \""@ + path
            + "\" leads out of the root"@,
    }
}

impl ListError {
    /// The failure in words, for the one who asked for the listing.
    pub fn describe(&self) -> (text: String)
        ensures
            text@ == description(self@),
    {
        match self {
            ListError::DirectoryRead { operation, path, message } => {
                let mut text = match operation {
                    Operation::ListAllFiles => String::from_str("list_all_files"),
                    Operation::ListDirectory => String::from_str("list_directory"),
                };
                text.append(": cannot read directory \"");
                text.append(path.as_str());
                text.append("\": ");
                text.append(message.as_str());
                text
            },
            ListError::PathEscape { path } => {
                let mut text = String::from_str("list_directory: path \"");
                text.append(path.as_str());
                text.append("\" leads out of the root");
                text
            },
        }
    }
}

} // verus!
