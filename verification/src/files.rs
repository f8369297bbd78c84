//! Spans, provenance, and the multi-file source manager.

use vstd::prelude::*;
use crate::decode;
use crate::error::Error;
use crate::error::ErrorKind;
use crate::lexer::compute_line_starts;
use crate::lexer::spec_line_starts;
use crate::text::strictly_increasing;

verus! {

/// Substring of a string: byte offsets into one file's decoded text.
#[derive(Clone, Copy, Debug, PartialEq, Eq, Structural)]
pub struct Span {
    /// First byte index of the span.
    pub start: usize,
    /// One past the last byte index of the span.
    pub end: usize,
}

impl Span {
    /// A span is half open: it never ends before it starts.
    pub open spec fn wf(self) -> bool {
        self.start <= self.end
    }
}

/// Substring of a file.
#[derive(Clone, Copy, Debug, PartialEq, Eq, Structural)]
pub struct FileSpan {
    /// File number.
    pub file_index: usize,
    /// The span.
    pub span: Span,
}

/// How was this file included?
#[derive(Clone, Copy, Debug, PartialEq, Eq, Structural)]
pub enum IncludeFileLocation {
    /// Command line.
    CommandLine,
    /// Include statement.
    Include(FileSpan),
}

impl IncludeFileLocation {
    /// The span to attach to a diagnostic about this read: the include
    /// statement's span when there is one, nothing for a root file.
    pub open spec fn spec_error_location(self) -> Option<FileSpan> {
        match self {
            IncludeFileLocation::CommandLine => None,
            IncludeFileLocation::Include(file_span) => Some(file_span),
        }
    }
}

/// Absolute location of a byte within one file: the byte index together
/// with the 1-based line and column it falls on, recomputed from the
/// line-start index when needed (never stale, because files are immutable
/// once read).
#[derive(Clone, Copy, Debug, PartialEq, Eq, Structural)]
pub struct FileLocation {
    /// Byte index into the file's decoded text.
    pub byte_index: usize,
    /// 1-based line number.
    pub line: usize,
    /// 1-based byte column within the line.
    pub column: usize,
}

/// Number of recorded line starts at or before the given byte index.
pub open spec fn starts_at_or_before(starts: Seq<int>, byte_index: int) -> int
    decreases starts.len(),
{
    if starts.len() == 0 {
        0
    } else if starts.last() <= byte_index {
        starts.len() as int
    } else {
        starts_at_or_before(starts.drop_last(), byte_index)
    }
}

/// For strictly increasing starts, the count of entries at or before the
/// byte index is the scan position where the entries stop being small
/// enough.
proof fn lemma_starts_count(starts: Seq<int>, byte_index: int, j: int)
    requires
        strictly_increasing(starts),
        0 <= j <= starts.len(),
        forall|k: int| 0 <= k < j ==> starts[k] <= byte_index,
        j < starts.len() ==> starts[j] > byte_index,
    ensures
        starts_at_or_before(starts, byte_index) == j,
    decreases starts.len(),
{
    if starts.len() > 0 {
        if starts.last() <= byte_index {
            if j < starts.len() {
                assert(starts[j] <= starts.last());
                assert(false);
            }
        } else {
            assert(j < starts.len());
            let shorter = starts.drop_last();
            assert(strictly_increasing(shorter)) by {
                assert(forall|a: int, b: int|
                    0 <= a < b < shorter.len() ==> shorter[a] == starts[a] && shorter[b]
                        == starts[b]);
            }
            lemma_starts_count(shorter, byte_index, j);
        }
    }
}

/// Single file contents, registered once and never mutated afterwards.
#[derive(Debug)]
pub struct File {
    /// Canonical file name.
    pub name: String,
    /// Include statement location, or the command line for a root file.
    pub include_location: IncludeFileLocation,
    /// Decoded file contents.
    pub text: String,
    /// Byte indexes where lines start.
    pub line_starts: Vec<usize>,
}

impl File {
    /// The line-start index matches the decoded text.
    pub open spec fn wf(&self) -> bool {
        self.line_starts@.map_values(|v: usize| v as int) == spec_line_starts(self.text@)
    }

    /// The absolute location of a byte of this file's decoded text: its
    /// 1-based line is the number of recorded line starts at or before it
    /// (line 1 also for a byte before the first recorded start, such as a
    /// leading byte-order mark), and its column counts bytes within that
    /// line, starting at 1.
    pub fn location_of(&self, byte_index: usize) -> (location: FileLocation)
        requires
            self.wf(),
            byte_index < usize::MAX,
        ensures
            location.byte_index == byte_index,
            ({
                let starts = self.line_starts@.map_values(|v: usize| v as int);
                let count = starts_at_or_before(starts, byte_index as int);
                if count == 0 {
                    location.line == 1 && location.column == byte_index + 1
                } else {
                    location.line == count && location.column as int == byte_index - starts[count
                        - 1] + 1
                }
            }),
    {
        let ghost starts = self.line_starts@.map_values(|v: usize| v as int);
        proof {
            crate::lexer::lemma_line_starts_increasing(self.text@);
            assert(strictly_increasing(starts));
        }
        let mut j: usize = 0;
        while j < self.line_starts.len() && self.line_starts[j] <= byte_index
            invariant
                starts == self.line_starts@.map_values(|v: usize| v as int),
                j <= self.line_starts@.len(),
                forall|k: int| 0 <= k < j ==> #[trigger] starts[k] <= byte_index,
            decreases self.line_starts@.len() - j,
        {
            j = j + 1;
        }
        proof {
            lemma_starts_count(starts, byte_index as int, j as int);
        }
        if j == 0 {
            FileLocation { byte_index, line: 1, column: byte_index + 1 }
        } else {
            let start = self.line_starts[j - 1];
            proof {
                assert(starts[j as int - 1] == self.line_starts@[j as int - 1] as int);
                assert(start <= byte_index);
            }
            FileLocation { byte_index, line: j, column: byte_index - start + 1 }
        }
    }
}

/// Set of files read so far, each under a distinct canonical name.
#[derive(Debug)]
pub struct Files {
    /// Files, in registration order; a file's index never changes.
    pub files: Vec<File>,
}

impl Files {
    /// Names are distinct and every line-start index matches its text.
    pub open spec fn wf(&self) -> bool {
        &&& forall|j: int, k: int|
            0 <= j < k < self.files@.len() ==> (#[trigger] self.files@[j]).name@ != (
            #[trigger] self.files@[k]).name@
        &&& forall|j: int| 0 <= j < self.files@.len() ==> (#[trigger] self.files@[j]).wf()
    }

    /// True when a file with this canonical name is registered.
    pub open spec fn has_name(&self, name: Seq<char>) -> bool {
        exists|j: int| 0 <= j < self.files@.len() && (#[trigger] self.files@[j]).name@ == name
    }

    /// The index under which this canonical name is registered.
    pub open spec fn index_of(&self, name: Seq<char>) -> int {
        choose|j: int| 0 <= j < self.files@.len() && (#[trigger] self.files@[j]).name@ == name
    }

    /// Create a new, empty set of files.
    pub fn new() -> (files: Files)
        ensures
            files.files@.len() == 0,
            files.wf(),
    {
        Files { files: Vec::new() }
    }

    /// Number of files registered so far.
    pub fn file_count(&self) -> (n: usize)
        ensures
            n == self.files@.len(),
    {
        self.files.len()
    }

    /// Looks a canonical name up in the registration table.
    pub fn find_name(&self, name: &String) -> (r: Option<usize>)
        ensures
            match r {
                Some(index) => {
                    &&& index < self.files@.len()
                    &&& self.files@[index as int].name@ == name@
                },
                None => !self.has_name(name@),
            },
    {
        let mut j: usize = 0;
        while j < self.files.len()
            invariant
                j <= self.files@.len(),
                forall|k: int| 0 <= k < j ==> (#[trigger] self.files@[k]).name@ != name@,
            decreases self.files@.len() - j,
        {
            if self.files[j].name == *name {
                return Some(j);
            }
            j = j + 1;
        }
        None
    }

    /// Registers a file under its canonical name, in order: an
    /// already-registered name fails with FileReadTwice and changes
    /// nothing; a failed byte read (handed in as the Err of `contents`)
    /// fails with FileReadError and changes nothing; otherwise the bytes
    /// are decoded (recoverable decoding diagnostics go to `errors`), the
    /// line-start index is built, and the file is appended under the next
    /// sequential index, which is returned.
    pub fn read(
        &mut self,
        name: &str,
        include_location: IncludeFileLocation,
        contents: Result<Vec<u8>, String>,
        errors: &mut Vec<Error>,
    ) -> (r: Result<usize, ()>)
        requires
            old(self).wf(),
            include_location matches IncludeFileLocation::Include(file_span) ==> file_span.file_index
                < old(self).files@.len(),
        ensures
            final(self).wf(),
            old(self).has_name(name@) ==> {
                &&& r is Err
                &&& *final(self) == *old(self)
                &&& final(errors)@.len() == old(errors)@.len() + 1
                &&& final(errors)@[old(errors)@.len() as int].is_file_read_twice(
                    include_location.spec_error_location(),
                    name@,
                    old(self).files@[old(self).index_of(name@)].include_location,
                )
            },
            !old(self).has_name(name@) ==> (contents matches Err(message) ==> {
                &&& r is Err
                &&& *final(self) == *old(self)
                &&& final(errors)@.len() == old(errors)@.len() + 1
                &&& final(errors)@[old(errors)@.len() as int].is_file_read_error(
                    include_location.spec_error_location(),
                    name@,
                    message@,
                )
            }),
            !old(self).has_name(name@) ==> (contents matches Ok(bytes) ==> {
                &&& r matches Ok(index) && index as int == old(self).files@.len()
                &&& final(self).files@.len() == old(self).files@.len() + 1
                &&& forall|k: int|
                    0 <= k < old(self).files@.len() ==> final(self).files@[k] == old(
                        self,
                    ).files@[k]
                &&& final(self).files@.last().name@ == name@
                &&& final(self).files@.last().include_location == include_location
                &&& final(self).files@.last().text@ == decode::lossy_chars(bytes@)
                &&& final(self).files@.last().line_starts@.map_values(|v: usize| v as int)
                    == spec_line_starts(decode::lossy_chars(bytes@))
                &&& final(errors)@.len() == old(errors)@.len() + decode::invalid_runs(
                    bytes@,
                    0,
                ).len()
                &&& forall|k: int|
                    0 <= k < decode::invalid_runs(bytes@, 0).len() ==> (#[trigger] final(
                        errors
                    )@[old(errors)@.len() + k]).is_invalid_utf8(
                        old(self).files@.len() as usize,
                        decode::invalid_runs(bytes@, 0)[k].0,
                        decode::invalid_runs(bytes@, 0)[k].1,
                    )
            }),
            forall|k: int| 0 <= k < old(errors)@.len() ==> final(errors)@[k] == old(errors)@[k],
    {
        let name_string: String = name.to_owned();
        let location = match include_location {
            IncludeFileLocation::CommandLine => None,
            IncludeFileLocation::Include(file_span) => Some(file_span),
        };

        // Check if file already read.
        if let Some(index) = self.find_name(&name_string) {
            let previous_location = self.files[index].include_location;
            proof {
                let witness = self.index_of(name@);
                assert(self.files@[witness].name@ == name@);
                assert(index as int == witness);
            }
            errors.push(
                Error {
                    location,
                    kind: ErrorKind::FileReadTwice { file_name: name_string, previous_location },
                },
            );
            return Err(());
        }

        // Take the bytes that were read from storage.
        let bytes = match contents {
            Ok(bytes) => bytes,
            Err(message) => {
                errors.push(
                    Error {
                        location,
                        kind: ErrorKind::FileReadError { file_name: name_string, message },
                    },
                );
                return Err(());
            },
        };

        let file_index = self.files.len();
        let text = decode::parse_utf8(bytes, file_index, errors);
        let line_starts = compute_line_starts(text.as_str());
        self.files.push(
            File { name: name_string, include_location, text, line_starts },
        );
        Ok(file_index)
    }
}

/// Law: a registered canonical name denotes exactly one entry of the file
/// table. Together with `read`'s duplicate case, which leaves the table
/// unchanged and reports the provenance recorded under `index_of`, a second
/// read of the same name leaves one entry for it, not two.
pub proof fn lemma_registered_name_is_unique(files: Files, name: Seq<char>)
    requires
        files.wf(),
        files.has_name(name),
    ensures
        0 <= files.index_of(name) < files.files@.len(),
        files.files@[files.index_of(name)].name@ == name,
        forall|j: int|
            0 <= j < files.files@.len() && j != files.index_of(name) ==> (#[trigger] files.files@[j]).name@
                != name,
{
    let witness = files.index_of(name);
    assert(0 <= witness < files.files@.len() && files.files@[witness].name@ == name);
}

} // verus!
