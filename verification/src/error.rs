//! Diagnostics accumulated over one processing run.

use vstd::prelude::*;
use crate::files::FileSpan;
use crate::files::IncludeFileLocation;

verus! {

/// A diagnostic: what went wrong and, when known, where.
#[derive(Debug)]
pub struct Error {
    /// Where the problem was noticed, when a location is known.
    pub location: Option<FileSpan>,
    /// What the problem was.
    pub kind: ErrorKind,
}

/// The kinds of diagnostic this layer produces.
#[derive(Debug)]
pub enum ErrorKind {
    /// Reading a file's bytes from storage failed; the file was not
    /// registered. Carries the file's canonical name and a description of
    /// the underlying failure.
    FileReadError { file_name: String, message: String },
    /// The same canonical file name was requested twice; the second request
    /// failed without disturbing the first registration. Carries the name
    /// and the provenance recorded when the file was first read.
    FileReadTwice { file_name: String, previous_location: IncludeFileLocation },
    /// A malformed byte run was replaced by one replacement character while
    /// decoding. Carries the exact invalid bytes; the location covers the
    /// replacement character's bytes in the decoded text.
    InvalidUtf8 { bytes: Vec<u8> },
    /// Measured indentation matches no open indentation level on a dedent.
    InconsistentIndentation,
}

impl Error {
    /// True when this diagnostic reports the given file as read twice, with
    /// the given location and previously recorded provenance.
    pub open spec fn is_file_read_twice(
        self,
        location: Option<FileSpan>,
        name: Seq<char>,
        previous: IncludeFileLocation,
    ) -> bool {
        &&& self.location == location
        &&& match self.kind {
            ErrorKind::FileReadTwice { file_name, previous_location } => {
                file_name@ == name && previous_location == previous
            },
            _ => false,
        }
    }

    /// True when this diagnostic reports a failed read of the given file,
    /// with the given location and failure description.
    pub open spec fn is_file_read_error(
        self,
        location: Option<FileSpan>,
        name: Seq<char>,
        message: Seq<char>,
    ) -> bool {
        &&& self.location == location
        &&& match self.kind {
            ErrorKind::FileReadError { file_name, message: m } => {
                file_name@ == name && m@ == message
            },
            _ => false,
        }
    }

    /// True when this diagnostic reports the given invalid byte run, with
    /// the replacement character spanning three bytes at `off` in the
    /// decoded text of file `file_index`.
    pub open spec fn is_invalid_utf8(self, file_index: usize, off: int, run: Seq<u8>) -> bool {
        &&& match self.location {
            Some(file_span) => {
                &&& file_span.file_index == file_index
                &&& file_span.span.start == off
                &&& file_span.span.end == off + 3
            },
            None => false,
        }
        &&& match self.kind {
            ErrorKind::InvalidUtf8 { bytes } => bytes@ == run,
            _ => false,
        }
    }

    /// True when this diagnostic reports inconsistent indentation at the
    /// given location.
    pub open spec fn is_inconsistent_indentation(self, location: Option<FileSpan>) -> bool {
        &&& self.location == location
        &&& self.kind is InconsistentIndentation
    }
}

} // verus!
