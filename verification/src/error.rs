//! The failures of a merge and the text that reports each.

use vstd::prelude::*;
use vstd::string::StringExecFns;

verus! {

/// Why a merge of a directory produced no file.
#[derive(Debug, PartialEq, Eq)]
pub enum MergeError {
    /// The path, held here, is not a directory.
    DirectoryNotFound(String),
    /// The directory could not be listed, for the cause held here.
    DirectoryReadError(String),
    /// The directory holds no file with the PDF extension.
    NoCandidateFiles,
    /// The file at the path held first is no well-formed PDF, for the cause
    /// held second.
    DocumentLoadError(String, String),
    /// The merged document could not be written, for the cause held here.
    OutputWriteError(String),
}

/// The text that reports the failure.
pub open spec fn message_text(error: MergeError) -> Seq<char> {
    match error {
        MergeError::DirectoryNotFound(path) => "Directory '"@ + path@ + "' does not exist."@,
        MergeError::DirectoryReadError(cause) => "Failed to read directory: "@ + cause@,
        MergeError::NoCandidateFiles => "No PDF files found in the directory."@,
        MergeError::DocumentLoadError(path, cause) => "Failed to load PDF '"@ + path@ + "': "@
            + cause@,
        MergeError::OutputWriteError(cause) => "Failed to save merged PDF: "@ + cause@,
    }
}

impl MergeError {
    /// The text that reports the failure, with the path or cause in it.
    pub fn message(&self) -> (text: String)
        ensures
            text@ == message_text(*self),
    {
        match self {
            MergeError::DirectoryNotFound(path) => {
                String::from_str("Directory '").concat(path.as_str()).concat("' does not exist.")
            },
            MergeError::DirectoryReadError(cause) => {
                String::from_str("Failed to read directory: ").concat(cause.as_str())
            },
            MergeError::NoCandidateFiles => String::from_str(
                "No PDF files found in the directory.",
            ),
            MergeError::DocumentLoadError(path, cause) => {
                String::from_str("Failed to load PDF '").concat(path.as_str()).concat(
                    "': ",
                ).concat(cause.as_str())
            },
            MergeError::OutputWriteError(cause) => {
                String::from_str("Failed to save merged PDF: ").concat(cause.as_str())
            },
        }
    }
}

} // verus!
