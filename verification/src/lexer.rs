//! The line-start index and the indentation-sensitive lexer.

use vstd::prelude::*;
use vstd::string::StrSliceExecFns;
use crate::error::Error;
use crate::error::ErrorKind;
use crate::files::FileSpan;
use crate::files::Span;
use crate::text::char_len;
use crate::text::lemma_char_len_bounds;
use crate::text::lemma_text_byte_len_push;
use crate::text::lemma_text_byte_len_split;
use crate::text::str_byte_len;
use crate::text::strictly_increasing;
use crate::text::text_byte_len;

verus! {

/// The byte-order mark, invisible only as the very first scalar value of a
/// file; any later occurrence is ordinary content.
pub const BYTE_ORDER_MARK: char = '\u{FEFF}';

/// True when the scalar value is one of the recognized line terminators:
/// line feed, vertical tab, form feed, carriage return, next line, line
/// separator, paragraph separator.
pub open spec fn spec_is_newline(c: char) -> bool {
    ||| c == '\n'
    ||| c == '\u{B}'
    ||| c == '\u{C}'
    ||| c == '\r'
    ||| c == '\u{85}'
    ||| c == '\u{2028}'
    ||| c == '\u{2029}'
}

/// Decides whether a scalar value terminates a logical line.
#[verifier::when_used_as_spec(spec_is_newline)]
pub fn is_newline(c: char) -> (r: bool)
    ensures
        r == spec_is_newline(c),
{
    c == '\n' || c == '\u{B}' || c == '\u{C}' || c == '\r' || c == '\u{85}' || c == '\u{2028}'
        || c == '\u{2029}'
}

/// State of the line-start scan: at the very start of the file, at the
/// start of a line, directly after a carriage return, or inside a line.
#[derive(Clone, Copy, Debug, PartialEq, Eq, Structural)]
pub enum ScanState {
    FileStart,
    LineStart,
    AfterCr,
    Midline,
}

/// Whether a scan in state `st` records a line start when it examines `c`:
/// everywhere a line begins, except at a leading byte-order mark and at the
/// line feed of a CRLF pair, which is absorbed into the same terminator.
pub open spec fn scan_records(st: ScanState, c: char) -> bool {
    match st {
        ScanState::FileStart => c != BYTE_ORDER_MARK,
        ScanState::LineStart => true,
        ScanState::AfterCr => c != '\n',
        ScanState::Midline => false,
    }
}

/// The scan state after examining `c` in state `st`.
pub open spec fn scan_step(st: ScanState, c: char) -> ScanState {
    if (st == ScanState::FileStart && c == BYTE_ORDER_MARK) || (st == ScanState::AfterCr && c
        == '\n') {
        ScanState::LineStart
    } else if c == '\r' {
        ScanState::AfterCr
    } else if spec_is_newline(c) {
        ScanState::LineStart
    } else {
        ScanState::Midline
    }
}

/// Byte offsets at which lines start when scanning `s` in state `st`, the
/// first scalar value of `s` sitting at byte offset `off`.
pub open spec fn line_starts_from(s: Seq<char>, st: ScanState, off: int) -> Seq<int>
    decreases s.len(),
{
    if s.len() == 0 {
        seq![]
    } else {
        let rest = line_starts_from(s.drop_first(), scan_step(st, s[0]), off + char_len(s[0]));
        if scan_records(st, s[0]) {
            seq![off] + rest
        } else {
            rest
        }
    }
}

/// Byte offsets at which the logical lines of `s` begin.
pub open spec fn spec_line_starts(s: Seq<char>) -> Seq<int> {
    line_starts_from(s, ScanState::FileStart, 0)
}

/// Every recorded offset lies within the scanned text's bytes, and the
/// offsets grow strictly.
proof fn lemma_line_starts_from_bounds(s: Seq<char>, st: ScanState, off: int)
    ensures
        forall|k: int|
            0 <= k < line_starts_from(s, st, off).len() ==> off <= #[trigger] line_starts_from(
                s,
                st,
                off,
            )[k] < off + text_byte_len(s),
        strictly_increasing(line_starts_from(s, st, off)),
    decreases s.len(),
{
    if s.len() > 0 {
        let c = s[0];
        let rest = line_starts_from(s.drop_first(), scan_step(st, c), off + char_len(c));
        lemma_char_len_bounds(c);
        lemma_line_starts_from_bounds(s.drop_first(), scan_step(st, c), off + char_len(c));
        assert(text_byte_len(s) == char_len(c) + text_byte_len(s.drop_first()));
        assert forall|j: int, k: int|
            0 <= j < k < line_starts_from(s, st, off).len() implies line_starts_from(s, st, off)[j]
            < line_starts_from(s, st, off)[k] by {
            if scan_records(st, c) {
                assert(line_starts_from(s, st, off)[0] == off);
                if j > 0 {
                    assert(line_starts_from(s, st, off)[j] == rest[j - 1]);
                }
                assert(line_starts_from(s, st, off)[k] == rest[k - 1]);
            }
        }
    }
}

/// Law: for all text, the line-start offsets are strictly increasing and lie
/// within the text's bytes; when the text is non-empty and does not begin
/// with the byte-order mark, the first offset is 0.
pub proof fn lemma_line_starts_increasing(s: Seq<char>)
    ensures
        strictly_increasing(spec_line_starts(s)),
        forall|k: int|
            0 <= k < spec_line_starts(s).len() ==> 0 <= #[trigger] spec_line_starts(s)[k]
                < text_byte_len(s),
        s.len() > 0 && s[0] != BYTE_ORDER_MARK ==> spec_line_starts(s).len() > 0
            && spec_line_starts(s)[0] == 0,
{
    lemma_line_starts_from_bounds(s, ScanState::FileStart, 0);
    if s.len() > 0 && s[0] != BYTE_ORDER_MARK {
        assert(scan_records(ScanState::FileStart, s[0]));
    }
}

/// Computes the byte offsets at which the logical lines of `text` begin: a
/// line starts after every line terminator (a CRLF pair counting as one) and
/// at the start of the file, except that a leading byte-order mark is
/// consumed without starting a line.
pub fn compute_line_starts(text: &str) -> (line_starts: Vec<usize>)
    ensures
        line_starts@.map_values(|v: usize| v as int) == spec_line_starts(text@),
{
    let text_chars: usize = text.unicode_len();
    let text_bytes: usize = str_byte_len(text);
    let mut line_starts: Vec<usize> = Vec::new();
    let mut state = ScanState::FileStart;
    let mut i: usize = 0;
    let mut byte_pos: usize = 0;
    proof {
        assert(text@.skip(0) =~= text@);
        assert(text@.take(0) =~= Seq::<char>::empty());
    }
    while i < text_chars
        invariant
            text_chars == text@.len(),
            text_bytes == text_byte_len(text@),
            0 <= i <= text_chars,
            byte_pos as int == text_byte_len(text@.take(i as int)),
            byte_pos <= text_bytes,
            spec_line_starts(text@) == line_starts@.map_values(|v: usize| v as int)
                + line_starts_from(text@.skip(i as int), state, byte_pos as int),
        decreases text_chars - i,
    {
        let ghost prefix = text@.take(i as int);
        let ghost tail = text@.skip(i as int);
        let ghost st0 = state;
        let ghost bp0 = byte_pos as int;
        let c = text.get_char(i);
        proof {
            assert(tail[0] == text@[i as int]);
            assert(tail.drop_first() =~= text@.skip(i as int + 1));
            lemma_char_len_bounds(c);
            lemma_text_byte_len_push(prefix, c);
            assert(prefix.push(c) =~= text@.take(i as int + 1));
            lemma_text_byte_len_split(text@, i as int + 1);
        }
        let records = match state {
            ScanState::FileStart => c != BYTE_ORDER_MARK,
            ScanState::LineStart => true,
            ScanState::AfterCr => c != '\n',
            ScanState::Midline => false,
        };
        let ghost old_list = line_starts@;
        if records {
            line_starts.push(byte_pos);
        }
        state = if (state == ScanState::FileStart && c == BYTE_ORDER_MARK) || (state
            == ScanState::AfterCr && c == '\n') {
            ScanState::LineStart
        } else if c == '\r' {
            ScanState::AfterCr
        } else if is_newline(c) {
            ScanState::LineStart
        } else {
            ScanState::Midline
        };
        let width = char_utf8_len(c);
        byte_pos = byte_pos + width;
        i = i + 1;
        proof {
            assert(records == scan_records(st0, c));
            assert(state == scan_step(st0, c));
            let rest = line_starts_from(text@.skip(i as int), state, byte_pos as int);
            assert(line_starts_from(tail, st0, bp0) == if scan_records(st0, c) {
                seq![bp0] + rest
            } else {
                rest
            });
            if records {
                assert(line_starts@ =~= old_list.push(bp0 as usize));
                assert(line_starts@.map_values(|v: usize| v as int) =~= old_list.map_values(
                    |v: usize| v as int,
                ).push(bp0));
                assert(old_list.map_values(|v: usize| v as int).push(bp0) + rest
                    =~= old_list.map_values(|v: usize| v as int) + (seq![bp0] + rest));
            }
            assert(line_starts@.map_values(|v: usize| v as int) + rest =~= spec_line_starts(
                text@,
            ));
        }
    }
    proof {
        assert(text@.skip(text_chars as int) =~= Seq::<char>::empty());
        assert(line_starts@.map_values(|v: usize| v as int) =~= spec_line_starts(text@));
    }
    line_starts
}

/// Mode of the lexer for scanning the next token; an open extension point,
/// with indentation handling independent of the mode.
#[derive(Clone, Copy, Debug)]
pub enum LexerMode {
    /// Regular mode.
    Normal,
}

/// A token.
#[derive(Clone, Copy, Debug, PartialEq, Eq, Structural)]
pub enum TokenKind {
    /// End of file.
    EndOfFile,
    /// End of line.
    EndOfLine,
    /// Increase indentation.
    Indent,
    /// Decrease indentation.
    Dedent,
}

/// Instance of a token.
#[derive(Clone, Copy, Debug, PartialEq, Eq, Structural)]
pub struct Token {
    /// What kind of token this is.
    pub token: TokenKind,
    /// Where it stands.
    pub file_span: FileSpan,
}

/// One open indentation scope.
#[derive(Clone, Copy, Debug, PartialEq, Eq, Structural)]
pub struct IndentationLevel {
    /// Width of the leading whitespace in bytes; this alone drives
    /// indentation comparison.
    pub bytes: usize,
    /// Display column after the whitespace (1-based); for diagnostics only.
    pub column: usize,
}

/// Width of one tab stop for display-column computation.
pub const TAB_STOP: usize = 8;

/// True when the scalar value counts as leading horizontal whitespace.
pub open spec fn spec_is_indent_char(c: char) -> bool {
    c == ' ' || c == '\t'
}

/// First position at or after `p` that does not hold horizontal
/// whitespace; the end of the leading-whitespace run starting at `p`.
pub open spec fn indent_run_end(s: Seq<char>, p: int) -> int
    recommends
        0 <= p <= s.len(),
    decreases s.len() - p,
{
    if p < s.len() && spec_is_indent_char(s[p]) {
        indent_run_end(s, p + 1)
    } else {
        p
    }
}

/// First position at or after `p` that holds a line terminator, or the end
/// of the text; the end of the line content starting at `p`.
pub open spec fn content_run_end(s: Seq<char>, p: int) -> int
    recommends
        0 <= p <= s.len(),
    decreases s.len() - p,
{
    if p < s.len() && !spec_is_newline(s[p]) {
        content_run_end(s, p + 1)
    } else {
        p
    }
}

/// One past the line terminator that starts at position `e`: a carriage
/// return absorbs a following line feed into the same terminator.
pub open spec fn terminator_end(s: Seq<char>, e: int) -> int
    recommends
        0 <= e < s.len(),
        spec_is_newline(s[e]),
{
    if s[e] == '\r' && e + 1 < s.len() && s[e + 1] == '\n' {
        e + 2
    } else {
        e + 1
    }
}

/// The display column after one scalar value of leading whitespace: a tab
/// advances to the next multiple of the tab stop; columns saturate at the
/// machine limit.
pub open spec fn next_column(col: int, c: char) -> int {
    let next = if c == '\t' {
        col + ((TAB_STOP as int) - ((col - 1) % (TAB_STOP as int)))
    } else {
        col + 1
    };
    if next > usize::MAX as int {
        usize::MAX as int
    } else {
        next
    }
}

/// The display column reached after the whitespace run `s[p..q]`, starting
/// from column `col`.
pub open spec fn column_after(s: Seq<char>, p: int, q: int, col: int) -> int
    recommends
        0 <= p <= q <= s.len(),
    decreases q - p,
{
    if p < q {
        column_after(s, p + 1, q, next_column(col, s[p]))
    } else {
        col
    }
}

/// Extending the whitespace run by one scalar value advances the column by
/// one step.
proof fn lemma_column_after_snoc(s: Seq<char>, p: int, q: int, col: int)
    requires
        0 <= p <= q < s.len(),
    ensures
        column_after(s, p, q + 1, col) == next_column(column_after(s, p, q, col), s[q]),
    decreases q - p,
{
    if p < q {
        lemma_column_after_snoc(s, p + 1, q, next_column(col, s[p]));
    } else {
        assert(column_after(s, q + 1, q + 1, next_column(col, s[q])) == next_column(col, s[q]));
        assert(column_after(s, p, q + 1, col) == column_after(s, p + 1, q + 1, next_column(
            col,
            s[p],
        )));
    }
}

/// How many levels at the top of the stack are wider than the measured
/// width: one owed Dedent per level.
pub open spec fn levels_wider_than(s: Seq<IndentationLevel>, w: int) -> int
    decreases s.len(),
{
    if s.len() == 0 {
        0
    } else if s.last().bytes > w {
        1 + levels_wider_than(s.drop_last(), w)
    } else {
        0
    }
}

/// The scan position where the stack's levels stop being wider than `w` is
/// exactly the count of wider levels.
proof fn lemma_wider_count(s: Seq<IndentationLevel>, w: int, k: int)
    requires
        0 <= k <= s.len(),
        forall|j: int| s.len() - k <= j < s.len() ==> (#[trigger] s[j]).bytes > w,
        k < s.len() ==> s[s.len() - 1 - k].bytes <= w,
    ensures
        levels_wider_than(s, w) == k,
    decreases s.len(),
{
    if s.len() > 0 {
        if s.last().bytes > w {
            assert(k >= 1);
            let shorter = s.drop_last();
            lemma_wider_count(shorter, w, k - 1);
        } else {
            assert(k == 0);
        }
    }
}

/// What one line boundary owes: the Dedent tokens for levels wider than
/// the measured width, a fresh Indent for a greater or resynchronized
/// width, and whether the measured width matched no enclosing level.
pub ghost struct BoundaryDebt {
    /// Dedent tokens owed, one per level to pop.
    pub dedents: int,
    /// Whether an Indent token is owed after the Dedents.
    pub indent: bool,
    /// Whether the measured width matched no enclosing level exactly.
    pub mismatch: bool,
}

/// The lexer over one file's decoded text: a cursor over scalar values, the
/// current token, and the indentation-level stack that drives Indent/Dedent
/// synthesis at each logical-line boundary.
pub struct Lexer<'a> {
    /// File number.
    pub file_number: usize,
    /// The text.
    pub text: &'a str,
    /// Current character. None if end of file.
    pub current_char: Option<char>,
    /// Byte index of the current char.
    pub current_index: usize,
    /// Index of the current char in scalar values.
    pub char_pos: usize,
    /// Number of scalar values in the text.
    pub char_count: usize,
    /// Number of bytes in the text.
    pub text_bytes: usize,
    /// Current token.
    pub current_token: Token,
    /// Stack of indentation levels; the bottom sentinel is never popped.
    pub indentation_levels: Vec<IndentationLevel>,
    /// Most recently measured leading whitespace.
    pub last_indentation: Span,
    /// Level measured from the most recent leading whitespace.
    pub last_level: IndentationLevel,
    /// Dedent tokens still owed at the current line boundary.
    pub pending_dedents: usize,
    /// An Indent token still owed at the current line boundary.
    pub pending_indent: bool,
    /// A freshly measured indentation has not yet been compared.
    pub compare_pending: bool,
    /// How many Indent tokens have been produced so far.
    pub indents_emitted: Ghost<int>,
    /// How many Dedent tokens have been produced so far.
    pub dedents_emitted: Ghost<int>,
}

impl<'a> Lexer<'a> {
    /// Internal consistency: the cursor tracks the text, the stack starts
    /// at the base sentinel and grows strictly, the Indent/Dedent counts
    /// balance against the open levels, and the end-of-file token appears
    /// only with every level closed.
    pub open spec fn wf(&self) -> bool {
        let s = self.indentation_levels@;
        &&& self.char_pos <= self.text@.len()
        &&& self.char_count == self.text@.len()
        &&& self.text_bytes as int == text_byte_len(self.text@)
        &&& self.current_index as int == text_byte_len(self.text@.take(self.char_pos as int))
        &&& self.current_char == (if self.char_pos < self.text@.len() {
            Some(self.text@[self.char_pos as int])
        } else {
            None::<char>
        })
        &&& s.len() >= 1
        &&& s[0] == (IndentationLevel { bytes: 0, column: 1 })
        &&& forall|j: int, k: int|
            0 <= j < k < s.len() ==> (#[trigger] s[j]).bytes < (#[trigger] s[k]).bytes
        &&& forall|j: int|
            0 <= j < s.len() ==> j <= (#[trigger] s[j]).bytes <= text_byte_len(self.text@)
        &&& self.indents_emitted@ == self.dedents_emitted@ + s.len() - 1
        &&& self.dedents_emitted@ >= 0
        &&& self.pending_dedents as int <= s.len() - 1
        &&& self.last_indentation.wf()
        &&& self.last_indentation.end as int <= text_byte_len(self.text@)
        &&& self.last_level.bytes as int <= text_byte_len(self.text@)
        &&& (self.compare_pending ==> self.pending_dedents == 0 && !self.pending_indent)
        &&& (self.pending_indent ==> s[s.len() - 1 - self.pending_dedents as int].bytes
            < self.last_level.bytes)
        &&& self.current_token.file_span.file_index == self.file_number
        &&& self.current_token.file_span.span.wf()
        &&& self.current_token.file_span.span.end as int <= text_byte_len(self.text@)
        &&& (self.current_token.token == TokenKind::EndOfFile ==> s.len() == 1
            && self.pending_dedents == 0 && !self.pending_indent && !self.compare_pending
            && self.char_pos == self.text@.len())
    }

    /// Strictly decreases with every `advance` until the end-of-file token:
    /// the lexer always makes progress towards the end of the file.
    pub open spec fn measure(&self) -> int {
        let w = 2 * text_byte_len(self.text@) + 8;
        let boundary = if self.compare_pending {
            2 * (self.indentation_levels@.len() as int) + 4
        } else {
            self.pending_dedents + 2 * (if self.pending_indent {
                1int
            } else {
                0int
            }) + self.indentation_levels@.len() as int
        };
        (self.text@.len() - self.char_pos) * w + boundary + (
        if self.current_token.token == TokenKind::EndOfFile {
            0int
        } else {
            1int
        })
    }

    /// True when the line boundary at the cursor is blank: the measured
    /// whitespace runs into a line terminator or the end of the file, so
    /// the line takes part in no indentation comparison.
    pub open spec fn at_blank_boundary(&self) -> bool {
        self.char_pos >= self.text@.len() || spec_is_newline(self.text@[self.char_pos as int])
    }

    /// What the comparison of the freshly measured indentation against the
    /// stack owes (spoken of a state whose `compare_pending` holds): a
    /// blank boundary owes nothing; a greater width owes one Indent; a
    /// smaller width owes one Dedent per wider level, and, when the width
    /// matches no enclosing level exactly, a diagnostic and a
    /// resynchronizing Indent at the measured width.
    pub open spec fn boundary_debt(&self) -> BoundaryDebt {
        let s = self.indentation_levels@;
        let w = self.last_level.bytes as int;
        let t = s.last().bytes as int;
        if self.at_blank_boundary() {
            BoundaryDebt { dedents: 0, indent: false, mismatch: false }
        } else if w > t {
            BoundaryDebt { dedents: 0, indent: true, mismatch: false }
        } else if w < t {
            let k = levels_wider_than(s, w);
            let mismatch = s[s.len() - 1 - k].bytes != w;
            BoundaryDebt { dedents: k, indent: mismatch, mismatch }
        } else {
            BoundaryDebt { dedents: 0, indent: false, mismatch: false }
        }
    }

    /// The Indent/Dedent debt at the start of an `advance`: the freshly
    /// measured boundary's comparison where one is pending, else the debt
    /// already recorded.
    pub open spec fn resolved_debt(&self) -> BoundaryDebt {
        if self.compare_pending {
            self.boundary_debt()
        } else {
            BoundaryDebt {
                dedents: self.pending_dedents as int,
                indent: self.pending_indent,
                mismatch: false,
            }
        }
    }

    /// Creates a new lexer over one file's text: positions the cursor at
    /// the first scalar value, measures the leading indentation of line 1
    /// as the initial probe (a nonzero width is treated as an opening
    /// Indent from the base sentinel), then computes the first token.
    pub fn new(file_number: usize, text: &'a str, mode: LexerMode, errors: &mut Vec<Error>) -> (
    lexer: Lexer<'a>)
        ensures
            lexer.wf(),
            lexer.file_number == file_number,
            lexer.text@ == text@,
            lexer.dedents_emitted@ == 0,
            lexer.indents_emitted@ == lexer.indentation_levels@.len() - 1,
            text@.len() == 0 ==> lexer.current_token.token == TokenKind::EndOfFile,
            text@.len() > 0 ==> ({
                let e = indent_run_end(text@, 0);
                let c_end = content_run_end(text@, e);
                if e < text@.len() && !spec_is_newline(text@[e]) && e > 0 {
                    // an indented first line opens a scope from the base sentinel
                    &&& lexer.current_token.token == TokenKind::Indent
                    &&& lexer.current_token.file_span.span.start == 0
                    &&& lexer.current_token.file_span.span.end as int == e
                    &&& lexer.indentation_levels@.len() == 2
                    &&& lexer.indentation_levels@[1].bytes as int == e
                } else if c_end == text@.len() {
                    // one unterminated line at the base level, or only whitespace
                    lexer.current_token.token == TokenKind::EndOfFile
                } else {
                    // the first boundary is line 1's terminator
                    &&& lexer.current_token.token == TokenKind::EndOfLine
                    &&& lexer.current_token.file_span.span.start as int == text_byte_len(
                        text@.take(c_end),
                    )
                    &&& lexer.current_token.file_span.span.end as int == text_byte_len(
                        text@.take(terminator_end(text@, c_end)),
                    )
                }
            }),
            final(errors)@ == old(errors)@,
    {
        let char_count = text.unicode_len();
        let text_bytes = str_byte_len(text);
        let current_char = if char_count > 0 {
            Some(text.get_char(0))
        } else {
            None
        };
        let bogus_token = Token {
            token: TokenKind::EndOfLine,
            file_span: FileSpan { file_index: file_number, span: Span { start: 0, end: 0 } },
        };
        let mut levels: Vec<IndentationLevel> = Vec::new();
        levels.push(IndentationLevel { bytes: 0, column: 1 });
        let mut lexer = Lexer {
            file_number,
            text,
            current_char,
            current_index: 0,
            char_pos: 0,
            char_count,
            text_bytes,
            current_token: bogus_token,
            indentation_levels: levels,
            last_indentation: Span { start: 0, end: 0 },
            last_level: IndentationLevel { bytes: 0, column: 1 },
            pending_dedents: 0,
            pending_indent: false,
            compare_pending: false,
            indents_emitted: Ghost(0),
            dedents_emitted: Ghost(0),
        };
        proof {
            assert(text@.take(0) =~= Seq::<char>::empty());
            assert(text_byte_len(Seq::<char>::empty()) == 0);
            assert(lexer.indentation_levels@.len() == 1);
            assert(lexer.wf());
        }
        lexer.read_indentation();
        lexer.advance(mode, errors);
        lexer
    }

    /// Returns the current token; pure, callable arbitrarily many times
    /// between advances.
    pub fn current_token(&self) -> (t: Token)
        ensures
            t == self.current_token,
    {
        self.current_token
    }

    /// Discards the current token and computes the next one, mutating the
    /// cursor and the indentation stack; any inconsistent-indentation
    /// diagnostic goes to `errors`, located at the measured leading
    /// whitespace.
    pub fn advance(&mut self, mode: LexerMode, errors: &mut Vec<Error>)
        requires
            old(self).wf(),
        ensures
            final(self).wf(),
            final(self).file_number == old(self).file_number,
            final(self).text@ == old(self).text@,
            final(self).indents_emitted@ == old(self).indents_emitted@ + (
            if final(self).current_token.token == TokenKind::Indent {
                1int
            } else {
                0int
            }),
            final(self).dedents_emitted@ == old(self).dedents_emitted@ + (
            if final(self).current_token.token == TokenKind::Dedent {
                1int
            } else {
                0int
            }),
            old(self).current_token.token != TokenKind::EndOfFile ==> final(self).measure() < old(
                self,
            ).measure(),
            old(self).char_pos == old(self).text@.len() && old(self).indentation_levels@.len() == 1
                && old(self).pending_dedents == 0 && !old(self).pending_indent ==> final(self).current_token.token == TokenKind::EndOfFile,
            ({
                let l0 = *old(self);
                let fin = *final(self);
                let debt = l0.resolved_debt();
                if debt.dedents > 0 {
                    &&& fin.current_token == (Token {
                        token: TokenKind::Dedent,
                        file_span: FileSpan {
                            file_index: l0.file_number,
                            span: l0.last_indentation,
                        },
                    })
                    &&& fin.indentation_levels@ == l0.indentation_levels@.drop_last()
                    &&& fin.pending_dedents as int == debt.dedents - 1
                    &&& fin.pending_indent == debt.indent
                    &&& fin.char_pos == l0.char_pos
                    &&& fin.last_indentation == l0.last_indentation
                    &&& fin.last_level == l0.last_level
                } else if debt.indent {
                    &&& fin.current_token == (Token {
                        token: TokenKind::Indent,
                        file_span: FileSpan {
                            file_index: l0.file_number,
                            span: l0.last_indentation,
                        },
                    })
                    &&& fin.indentation_levels@ == l0.indentation_levels@.push(l0.last_level)
                    &&& fin.pending_dedents == 0
                    &&& !fin.pending_indent
                    &&& fin.char_pos == l0.char_pos
                    &&& fin.last_indentation == l0.last_indentation
                } else {
                    let e = content_run_end(l0.text@, l0.char_pos as int);
                    if e == l0.text@.len() {
                        &&& fin.char_pos as int == e
                        &&& fin.current_token.file_span.span.start as int == text_byte_len(
                            l0.text@,
                        )
                        &&& fin.current_token.file_span.span.end as int == text_byte_len(l0.text@)
                        &&& (l0.indentation_levels@.len() > 1 ==> fin.current_token.token
                            == TokenKind::Dedent && fin.indentation_levels@
                            == l0.indentation_levels@.drop_last())
                        &&& (l0.indentation_levels@.len() == 1 ==> fin.current_token.token
                            == TokenKind::EndOfFile && fin.indentation_levels@
                            == l0.indentation_levels@)
                    } else {
                        let after = terminator_end(l0.text@, e);
                        &&& fin.current_token.token == TokenKind::EndOfLine
                        &&& fin.current_token.file_span.span.start as int == text_byte_len(
                            l0.text@.take(e),
                        )
                        &&& fin.current_token.file_span.span.end as int == text_byte_len(
                            l0.text@.take(after),
                        )
                        &&& fin.indentation_levels@ == l0.indentation_levels@
                        &&& fin.compare_pending
                        &&& fin.char_pos as int == indent_run_end(l0.text@, after)
                        &&& fin.last_indentation.start == fin.current_token.file_span.span.end
                        &&& fin.last_indentation.end == fin.current_index
                        &&& fin.last_level.bytes as int == fin.char_pos - after
                        &&& fin.last_level.column as int == column_after(
                            l0.text@,
                            after,
                            fin.char_pos as int,
                            1,
                        )
                    }
                }
            }),
            final(errors)@.len() == old(errors)@.len() + (if old(self).resolved_debt().mismatch {
                1int
            } else {
                0int
            }),
            forall|k: int| 0 <= k < old(errors)@.len() ==> final(errors)@[k] == old(errors)@[k],
            forall|k: int|
                old(errors)@.len() <= k < final(errors)@.len() ==> (#[trigger] final(
                    errors
                )@[k]).is_inconsistent_indentation(
                    Some(
                        FileSpan {
                            file_index: old(self).file_number,
                            span: old(self).last_indentation,
                        },
                    ),
                ),
            old(self).indentation_levels@.len() == 1 ==> final(errors)@.len() == old(
                errors,
            )@.len(),
    {
        match mode {
            LexerMode::Normal => self.advance_normal(errors),
        }
    }

    /// True when the cursor stands on horizontal whitespace.
    fn at_indent_char(&self) -> (r: bool)
        ensures
            r == (self.current_char matches Some(c) && (c == ' ' || c == '\t')),
    {
        match self.current_char {
            Some(c) => c == ' ' || c == '\t',
            None => false,
        }
    }

    /// True when the cursor stands on line content: a scalar value that
    /// does not terminate the line.
    fn at_content_char(&self) -> (r: bool)
        ensures
            r == (self.current_char matches Some(c) && !spec_is_newline(c)),
    {
        match self.current_char {
            Some(c) => !is_newline(c),
            None => false,
        }
    }

    /// Moves the cursor one scalar value forward.
    fn bump(&mut self)
        requires
            old(self).wf(),
            old(self).current_char is Some,
        ensures
            final(self).wf(),
            final(self).char_pos == old(self).char_pos + 1,
            old(self).current_index <= final(self).current_index,
            *final(self) == (Lexer {
                char_pos: final(self).char_pos,
                current_index: final(self).current_index,
                current_char: final(self).current_char,
                ..*old(self)
            }),
    {
        let c = self.current_char.unwrap();
        proof {
            lemma_text_byte_len_push(self.text@.take(self.char_pos as int), c);
            assert(self.text@.take(self.char_pos as int).push(c) =~= self.text@.take(
                self.char_pos as int + 1,
            ));
            lemma_text_byte_len_split(self.text@, self.char_pos as int + 1);
            lemma_char_len_bounds(c);
        }
        let w = char_utf8_len(c);
        self.current_index = self.current_index + w;
        self.char_pos = self.char_pos + 1;
        self.current_char = if self.char_pos < self.char_count {
            Some(self.text.get_char(self.char_pos))
        } else {
            None
        };
    }

    /// Measures the run of leading horizontal whitespace at the cursor: its
    /// span, its byte width and the display column it reaches (a tab
    /// advances the column to the next multiple of the tab stop). The
    /// comparison against the indentation stack is left for the next
    /// `advance`.
    fn read_indentation(&mut self)
        requires
            old(self).wf(),
            old(self).pending_dedents == 0,
            !old(self).pending_indent,
            old(self).current_token.token != TokenKind::EndOfFile,
        ensures
            final(self).wf(),
            final(self).compare_pending,
            final(self).pending_dedents == 0,
            !final(self).pending_indent,
            final(self).current_token == old(self).current_token,
            final(self).indentation_levels == old(self).indentation_levels,
            final(self).indents_emitted == old(self).indents_emitted,
            final(self).dedents_emitted == old(self).dedents_emitted,
            final(self).text@ == old(self).text@,
            final(self).file_number == old(self).file_number,
            final(self).char_pos >= old(self).char_pos,
            final(self).char_pos as int == indent_run_end(old(self).text@, old(self).char_pos as int),
            final(self).last_indentation.start == old(self).current_index,
            final(self).last_indentation.end == final(self).current_index,
            final(self).current_index - old(self).current_index == final(self).char_pos - old(
                self,
            ).char_pos,
            final(self).last_level.bytes == final(self).char_pos - old(self).char_pos,
            final(self).last_level.column as int == column_after(
                old(self).text@,
                old(self).char_pos as int,
                final(self).char_pos as int,
                1,
            ),
    {
        let ghost snap = *self;
        let start = self.current_index;
        let mut column: usize = 1;
        while self.at_indent_char()
            invariant
                self.wf(),
                self.pending_dedents == 0,
                !self.pending_indent,
                self.compare_pending == snap.compare_pending,
                self.current_token == snap.current_token,
                self.indentation_levels == snap.indentation_levels,
                self.indents_emitted == snap.indents_emitted,
                self.dedents_emitted == snap.dedents_emitted,
                self.text == snap.text,
                self.file_number == snap.file_number,
                self.last_indentation == snap.last_indentation,
                self.last_level == snap.last_level,
                self.char_count == snap.char_count,
                self.text_bytes == snap.text_bytes,
                snap.char_pos <= self.char_pos,
                start == snap.current_index,
                start <= self.current_index,
                indent_run_end(snap.text@, snap.char_pos as int) == indent_run_end(
                    snap.text@,
                    self.char_pos as int,
                ),
                self.current_index - snap.current_index == self.char_pos - snap.char_pos,
                column >= 1,
                column as int == column_after(
                    snap.text@,
                    snap.char_pos as int,
                    self.char_pos as int,
                    1,
                ),
            decreases self.char_count - self.char_pos,
        {
            let ghost p = self.char_pos as int;
            let c = self.current_char.unwrap();
            proof {
                assert(spec_is_indent_char(c));
                assert(indent_run_end(snap.text@, p) == indent_run_end(snap.text@, p + 1));
                lemma_column_after_snoc(snap.text@, snap.char_pos as int, p, 1);
                assert(c as u32 == 32 || c as u32 == 9);
                assert(char_len(c) == 1);
                lemma_text_byte_len_push(self.text@.take(p), c);
                assert(self.text@.take(p).push(c) =~= self.text@.take(p + 1));
            }
            let step: usize = if c == '\t' {
                TAB_STOP - ((column - 1) % TAB_STOP)
            } else {
                1
            };
            column = if column <= usize::MAX - step {
                column + step
            } else {
                usize::MAX
            };
            self.bump();
        }
        proof {
            lemma_text_byte_len_split(self.text@, self.char_pos as int);
            assert(self.char_pos as int == indent_run_end(snap.text@, self.char_pos as int));
        }
        self.last_indentation = Span { start, end: self.current_index };
        self.last_level = IndentationLevel { bytes: self.current_index - start, column };
        self.compare_pending = true;
    }

    /// Compares the measured indentation against the stack top: equal keeps
    /// the stack; greater owes one Indent; smaller owes one Dedent per
    /// enclosing level wider than the measured width, and when no enclosing
    /// level matches it exactly, reports inconsistent indentation and
    /// resynchronizes by owing a fresh Indent at the measured width. Blank
    /// lines and the end of the file take part in no comparison.
    fn compare_indentation(&mut self, errors: &mut Vec<Error>)
        requires
            old(self).wf(),
            old(self).compare_pending,
        ensures
            final(self).wf(),
            !final(self).compare_pending,
            final(self).current_token == old(self).current_token,
            final(self).indentation_levels == old(self).indentation_levels,
            final(self).indents_emitted == old(self).indents_emitted,
            final(self).dedents_emitted == old(self).dedents_emitted,
            final(self).text@ == old(self).text@,
            final(self).file_number == old(self).file_number,
            final(self).char_pos == old(self).char_pos,
            final(self).current_char == old(self).current_char,
            final(self).current_index == old(self).current_index,
            final(self).last_indentation == old(self).last_indentation,
            final(self).last_level == old(self).last_level,
            final(self).pending_dedents as int == old(self).boundary_debt().dedents,
            final(self).pending_indent == old(self).boundary_debt().indent,
            final(errors)@.len() == old(errors)@.len() + (if old(self).boundary_debt().mismatch {
                1int
            } else {
                0int
            }),
            final(errors)@.len() >= old(errors)@.len(),
            final(errors)@.len() <= old(errors)@.len() + 1,
            forall|k: int| 0 <= k < old(errors)@.len() ==> final(errors)@[k] == old(errors)@[k],
            forall|k: int|
                old(errors)@.len() <= k < final(errors)@.len() ==> (#[trigger] final(
                    errors
                )@[k]).is_inconsistent_indentation(
                    Some(
                        FileSpan {
                            file_index: old(self).file_number,
                            span: old(self).last_indentation,
                        },
                    ),
                ),
            old(self).indentation_levels@.len() == 1 ==> final(errors)@.len() == old(
                errors,
            )@.len(),
    {
        self.compare_pending = false;
        let blank = match self.current_char {
            Some(c) => is_newline(c),
            None => true,
        };
        if blank {
            return ;
        }
        let w = self.last_level.bytes;
        let top_index = self.indentation_levels.len() - 1;
        let top = self.indentation_levels[top_index];
        if w > top.bytes {
            self.pending_indent = true;
        } else if w < top.bytes {
            let ghost s = self.indentation_levels@;
            let mut k: usize = 1;
            proof {
                assert(s[s.len() - 1].bytes > w);
            }
            while self.indentation_levels[self.indentation_levels.len() - 1 - k].bytes > w
                invariant
                    self.wf(),
                    s == self.indentation_levels@,
                    1 <= k < s.len(),
                    s[0].bytes == 0 <= w,
                    forall|j: int|
                        s.len() - k <= j < s.len() ==> (#[trigger] s[j]).bytes > w,
                decreases s.len() - k,
            {
                proof {
                    assert(s[s.len() - 1 - k as int].bytes > w);
                    assert(s.len() - 1 - k as int != 0);
                }
                k = k + 1;
            }
            proof {
                assert(s[s.len() - 1 - k as int].bytes <= w);
                lemma_wider_count(s, w as int, k as int);
            }
            let match_index = self.indentation_levels.len() - 1 - k;
            let match_level = self.indentation_levels[match_index];
            if match_level.bytes != w {
                errors.push(
                    Error {
                        location: Some(
                            FileSpan {
                                file_index: self.file_number,
                                span: self.last_indentation,
                            },
                        ),
                        kind: ErrorKind::InconsistentIndentation,
                    },
                );
                self.pending_indent = true;
            }
            self.pending_dedents = k;
        }
    }

    /// Computes the next token in regular mode: first any owed Dedent or
    /// Indent for the current line boundary, then the line's content is
    /// skipped up to its terminator, which yields an EndOfLine token and a
    /// fresh indentation measurement; at the end of the file, one Dedent
    /// per open level and finally the EndOfFile token.
    fn advance_normal(&mut self, errors: &mut Vec<Error>)
        requires
            old(self).wf(),
        ensures
            final(self).wf(),
            final(self).file_number == old(self).file_number,
            final(self).text@ == old(self).text@,
            final(self).indents_emitted@ == old(self).indents_emitted@ + (
            if final(self).current_token.token == TokenKind::Indent {
                1int
            } else {
                0int
            }),
            final(self).dedents_emitted@ == old(self).dedents_emitted@ + (
            if final(self).current_token.token == TokenKind::Dedent {
                1int
            } else {
                0int
            }),
            old(self).current_token.token != TokenKind::EndOfFile ==> final(self).measure() < old(
                self,
            ).measure(),
            old(self).char_pos == old(self).text@.len() && old(self).indentation_levels@.len() == 1
                && old(self).pending_dedents == 0 && !old(self).pending_indent ==> final(self).current_token.token == TokenKind::EndOfFile,
            ({
                let l0 = *old(self);
                let fin = *final(self);
                let debt = l0.resolved_debt();
                if debt.dedents > 0 {
                    &&& fin.current_token == (Token {
                        token: TokenKind::Dedent,
                        file_span: FileSpan {
                            file_index: l0.file_number,
                            span: l0.last_indentation,
                        },
                    })
                    &&& fin.indentation_levels@ == l0.indentation_levels@.drop_last()
                    &&& fin.pending_dedents as int == debt.dedents - 1
                    &&& fin.pending_indent == debt.indent
                    &&& fin.char_pos == l0.char_pos
                    &&& fin.last_indentation == l0.last_indentation
                    &&& fin.last_level == l0.last_level
                } else if debt.indent {
                    &&& fin.current_token == (Token {
                        token: TokenKind::Indent,
                        file_span: FileSpan {
                            file_index: l0.file_number,
                            span: l0.last_indentation,
                        },
                    })
                    &&& fin.indentation_levels@ == l0.indentation_levels@.push(l0.last_level)
                    &&& fin.pending_dedents == 0
                    &&& !fin.pending_indent
                    &&& fin.char_pos == l0.char_pos
                    &&& fin.last_indentation == l0.last_indentation
                } else {
                    let e = content_run_end(l0.text@, l0.char_pos as int);
                    if e == l0.text@.len() {
                        &&& fin.char_pos as int == e
                        &&& fin.current_token.file_span.span.start as int == text_byte_len(
                            l0.text@,
                        )
                        &&& fin.current_token.file_span.span.end as int == text_byte_len(l0.text@)
                        &&& (l0.indentation_levels@.len() > 1 ==> fin.current_token.token
                            == TokenKind::Dedent && fin.indentation_levels@
                            == l0.indentation_levels@.drop_last())
                        &&& (l0.indentation_levels@.len() == 1 ==> fin.current_token.token
                            == TokenKind::EndOfFile && fin.indentation_levels@
                            == l0.indentation_levels@)
                    } else {
                        let after = terminator_end(l0.text@, e);
                        &&& fin.current_token.token == TokenKind::EndOfLine
                        &&& fin.current_token.file_span.span.start as int == text_byte_len(
                            l0.text@.take(e),
                        )
                        &&& fin.current_token.file_span.span.end as int == text_byte_len(
                            l0.text@.take(after),
                        )
                        &&& fin.indentation_levels@ == l0.indentation_levels@
                        &&& fin.compare_pending
                        &&& fin.char_pos as int == indent_run_end(l0.text@, after)
                        &&& fin.last_indentation.start == fin.current_token.file_span.span.end
                        &&& fin.last_indentation.end == fin.current_index
                        &&& fin.last_level.bytes as int == fin.char_pos - after
                        &&& fin.last_level.column as int == column_after(
                            l0.text@,
                            after,
                            fin.char_pos as int,
                            1,
                        )
                    }
                }
            }),
            final(errors)@.len() == old(errors)@.len() + (if old(self).resolved_debt().mismatch {
                1int
            } else {
                0int
            }),
            forall|k: int| 0 <= k < old(errors)@.len() ==> final(errors)@[k] == old(errors)@[k],
            forall|k: int|
                old(errors)@.len() <= k < final(errors)@.len() ==> (#[trigger] final(
                    errors
                )@[k]).is_inconsistent_indentation(
                    Some(
                        FileSpan {
                            file_index: old(self).file_number,
                            span: old(self).last_indentation,
                        },
                    ),
                ),
            old(self).indentation_levels@.len() == 1 ==> final(errors)@.len() == old(
                errors,
            )@.len(),
    {
        proof {
            let s = self.indentation_levels@;
            assert(s[s.len() - 1].bytes >= s.len() - 1);
            assert(s.len() <= text_byte_len(self.text@) + 1);
        }
        if self.compare_pending {
            self.compare_indentation(errors);
        }
        if self.pending_dedents > 0 {
            self.pending_dedents = self.pending_dedents - 1;
            let _ = self.indentation_levels.pop();
            self.current_token = Token {
                token: TokenKind::Dedent,
                file_span: FileSpan {
                    file_index: self.file_number,
                    span: self.last_indentation,
                },
            };
            self.dedents_emitted = Ghost(self.dedents_emitted@ + 1);
            return ;
        }
        if self.pending_indent {
            self.pending_indent = false;
            let level = self.last_level;
            self.indentation_levels.push(level);
            self.current_token = Token {
                token: TokenKind::Indent,
                file_span: FileSpan {
                    file_index: self.file_number,
                    span: self.last_indentation,
                },
            };
            self.indents_emitted = Ghost(self.indents_emitted@ + 1);
            return ;
        }
        let ghost mid = *self;
        while self.at_content_char()
            invariant
                self.wf(),
                self.pending_dedents == 0,
                !self.pending_indent,
                !self.compare_pending,
                self.current_token == mid.current_token,
                self.indentation_levels == mid.indentation_levels,
                self.indents_emitted == mid.indents_emitted,
                self.dedents_emitted == mid.dedents_emitted,
                self.text == mid.text,
                self.file_number == mid.file_number,
                self.last_indentation == mid.last_indentation,
                self.last_level == mid.last_level,
                self.char_count == mid.char_count,
                self.text_bytes == mid.text_bytes,
                mid.char_pos <= self.char_pos,
                content_run_end(mid.text@, mid.char_pos as int) == content_run_end(
                    mid.text@,
                    self.char_pos as int,
                ),
            decreases self.char_count - self.char_pos,
        {
            proof {
                assert(content_run_end(mid.text@, self.char_pos as int) == content_run_end(
                    mid.text@,
                    self.char_pos as int + 1,
                ));
            }
            self.bump();
        }
        proof {
            assert(self.char_pos as int == content_run_end(mid.text@, mid.char_pos as int));
        }
        match self.current_char {
            None => {
                if self.indentation_levels.len() > 1 {
                    let _ = self.indentation_levels.pop();
                    self.current_token = Token {
                        token: TokenKind::Dedent,
                        file_span: FileSpan {
                            file_index: self.file_number,
                            span: Span { start: self.current_index, end: self.current_index },
                        },
                    };
                    self.dedents_emitted = Ghost(self.dedents_emitted@ + 1);
                } else {
                    self.current_token = Token {
                        token: TokenKind::EndOfFile,
                        file_span: FileSpan {
                            file_index: self.file_number,
                            span: Span { start: self.current_index, end: self.current_index },
                        },
                    };
                }
                proof {
                    lemma_text_byte_len_split(self.text@, self.char_pos as int);
                }
            },
            Some(c0) => {
                let start = self.current_index;
                self.bump();
                if c0 == '\r' {
                    let absorb = match self.current_char {
                        Some(c) => c == '\n',
                        None => false,
                    };
                    if absorb {
                        self.bump();
                    }
                }
                proof {
                    lemma_text_byte_len_split(self.text@, self.char_pos as int);
                }
                self.current_token = Token {
                    token: TokenKind::EndOfLine,
                    file_span: FileSpan {
                        file_index: self.file_number,
                        span: Span { start, end: self.current_index },
                    },
                };
                self.read_indentation();
            },
        }
        proof {
            if old(self).current_token.token != TokenKind::EndOfFile {
                if self.char_pos > mid.char_pos {
                    lemma_measure_progress(mid, *self);
                }
                assert(self.measure() < mid.measure());
                assert(mid.measure() <= old(self).measure());
            }
        }
    }
}

/// Multiplying both sides of an inequality by a non-negative factor keeps
/// the inequality.
proof fn lemma_mul_le(a: int, b: int, w: int)
    by (nonlinear_arith)
    requires
        a <= b,
        w >= 0,
    ensures
        a * w <= b * w,
{
}

/// A lexer that consumed at least one scalar value has a smaller measure,
/// whatever happened at the line boundary.
proof fn lemma_measure_progress(pre: Lexer<'_>, post: Lexer<'_>)
    requires
        pre.wf(),
        post.wf(),
        pre.text@ == post.text@,
        post.char_pos > pre.char_pos,
    ensures
        post.measure() < pre.measure(),
{
    let l = text_byte_len(pre.text@);
    let w = 2 * l + 8;
    let s_post = post.indentation_levels@;
    assert(s_post[s_post.len() - 1].bytes >= s_post.len() - 1);
    assert(s_post.len() <= l + 1);
    let s_pre = pre.indentation_levels@;
    assert(s_pre[s_pre.len() - 1].bytes >= s_pre.len() - 1);
    assert(s_pre.len() <= l + 1);
    lemma_mul_le(
        pre.text@.len() - post.char_pos,
        pre.text@.len() - pre.char_pos - 1,
        w,
    );
    assert((pre.text@.len() - pre.char_pos - 1) * w == (pre.text@.len() - pre.char_pos) * w - w)
        by (nonlinear_arith);
}

/// Law: when the lexer has produced the end-of-file token, it has emitted
/// exactly as many Dedent tokens as Indent tokens over the whole file.
pub proof fn lemma_indent_dedent_balance<'a>(lexer: Lexer<'a>)
    requires
        lexer.wf(),
        lexer.current_token.token == TokenKind::EndOfFile,
    ensures
        lexer.indents_emitted@ == lexer.dedents_emitted@,
{
}

/// Computes the byte width of one scalar value's UTF-8 encoding.
pub fn char_utf8_len(c: char) -> (n: usize)
    ensures
        n as int == char_len(c),
{
    let u = c as u32;
    proof {
        vstd::utf8::char_is_scalar(c);
    }
    if u < 0x80 {
        1
    } else if u < 0x800 {
        2
    } else if u < 0x10000 {
        3
    } else {
        4
    }
}

} // verus!
