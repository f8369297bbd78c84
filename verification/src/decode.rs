//! Failure-tolerant UTF-8 decoding.
//!
//! Raw file bytes are decoded into text; each maximal invalid byte run is
//! replaced by one replacement character and reported with one diagnostic
//! carrying the exact bytes, so no input byte is ever dropped silently.

use vstd::prelude::*;
use vstd::utf8::*;
use crate::error::Error;
use crate::error::ErrorKind;
use crate::files::FileSpan;
use crate::files::Span;
use crate::text::char_len;
use crate::text::text_byte_len;
use crate::text::str_byte_len;
use crate::text::string_push;
use crate::text::char_from_u32;
use crate::text::lemma_text_byte_len_push;

verus! {

/// The replacement character, substituted for each invalid byte run.
pub const REPLACEMENT_CHARACTER: char = '\u{FFFD}';

/// True when `b1` may follow the leading byte `b0` of a 3-byte encoding
/// without forcing an overlong encoding or a surrogate.
pub open spec fn valid_second_byte_width_3(b0: u8, b1: u8) -> bool {
    if b0 == 0xe0 {
        0xa0 <= b1 <= 0xbf
    } else if b0 == 0xed {
        0x80 <= b1 <= 0x9f
    } else {
        is_continuation_byte(b1)
    }
}

/// True when `b1` may follow the leading byte `b0` of a 4-byte encoding
/// without forcing an overlong encoding or a value above the Unicode range.
pub open spec fn valid_second_byte_width_4(b0: u8, b1: u8) -> bool {
    if b0 == 0xf0 {
        0x90 <= b1 <= 0xbf
    } else if b0 == 0xf4 {
        0x80 <= b1 <= 0x8f
    } else if 0xf1 <= b0 <= 0xf3 {
        is_continuation_byte(b1)
    } else {
        false
    }
}

/// Length in bytes of the maximal invalid run at the head of `bs`: the
/// longest prefix that could still begin a well-formed encoding, and at
/// least the one offending byte.
pub open spec fn invalid_run_len(bs: Seq<u8>) -> int
    recommends
        bs.len() > 0,
        !valid_first_scalar(bs),
{
    if bs.len() >= 2 && is_leading_byte_width_3(bs[0]) && valid_second_byte_width_3(bs[0], bs[1]) {
        2
    } else if bs.len() >= 2 && is_leading_byte_width_4(bs[0]) && valid_second_byte_width_4(
        bs[0],
        bs[1],
    ) {
        if bs.len() >= 3 && is_continuation_byte(bs[2]) {
            3
        } else {
            2
        }
    } else {
        1
    }
}

/// The scalar values produced by lossy UTF-8 decoding: each well-formed
/// encoding yields its scalar value, each maximal invalid run yields one
/// replacement character.
pub open spec fn lossy_chars(bs: Seq<u8>) -> Seq<char>
    decreases bs.len(),
{
    if bs.len() == 0 {
        seq![]
    } else if valid_first_scalar(bs) {
        seq![decode_first_scalar(bs) as char] + lossy_chars(pop_first_scalar(bs))
    } else {
        seq![REPLACEMENT_CHARACTER] + lossy_chars(bs.skip(invalid_run_len(bs)))
    }
}

/// The invalid byte runs of a lossy decode of `bs`, in order, each paired
/// with the byte offset in the decoded text at which its replacement
/// character was inserted; `out_off` is the byte length of the text decoded
/// before `bs`.
pub open spec fn invalid_runs(bs: Seq<u8>, out_off: int) -> Seq<(int, Seq<u8>)>
    decreases bs.len(),
{
    if bs.len() == 0 {
        seq![]
    } else if valid_first_scalar(bs) {
        invalid_runs(pop_first_scalar(bs), out_off + length_of_first_scalar(bs))
    } else {
        seq![(out_off, bs.take(invalid_run_len(bs)))] + invalid_runs(
            bs.skip(invalid_run_len(bs)),
            out_off + 3,
        )
    }
}

/// One chunk of input consumed by the lossy decoder: the well-formed
/// encoding of one scalar value, or one maximal invalid run.
pub ghost enum Chunk {
    Scalar(char),
    Invalid(Seq<u8>),
}

/// The input bytes a chunk stands for.
pub open spec fn chunk_bytes(ch: Chunk) -> Seq<u8> {
    match ch {
        Chunk::Scalar(c) => encode_scalar(c as u32),
        Chunk::Invalid(run) => run,
    }
}

/// The one scalar value a chunk contributes to the decoded text.
pub open spec fn chunk_char(ch: Chunk) -> char {
    match ch {
        Chunk::Scalar(c) => c,
        Chunk::Invalid(_) => REPLACEMENT_CHARACTER,
    }
}

/// The chunks a lossy decode cuts `bs` into, in input order.
pub open spec fn chunks(bs: Seq<u8>) -> Seq<Chunk>
    decreases bs.len(),
{
    if bs.len() == 0 {
        seq![]
    } else if valid_first_scalar(bs) {
        seq![Chunk::Scalar(decode_first_scalar(bs) as char)] + chunks(pop_first_scalar(bs))
    } else {
        seq![Chunk::Invalid(bs.take(invalid_run_len(bs)))] + chunks(bs.skip(invalid_run_len(bs)))
    }
}

/// The concatenation of the chunks' bytes.
pub open spec fn chunks_bytes(chs: Seq<Chunk>) -> Seq<u8>
    decreases chs.len(),
{
    if chs.len() == 0 {
        seq![]
    } else {
        chunk_bytes(chs[0]) + chunks_bytes(chs.drop_first())
    }
}

/// The invalid runs among the chunks, in order.
pub open spec fn chunk_runs(chs: Seq<Chunk>) -> Seq<Seq<u8>>
    decreases chs.len(),
{
    if chs.len() == 0 {
        seq![]
    } else {
        match chs[0] {
            Chunk::Invalid(run) => seq![run] + chunk_runs(chs.drop_first()),
            Chunk::Scalar(_) => chunk_runs(chs.drop_first()),
        }
    }
}

proof fn lemma_chunks_cons(bs: Seq<u8>)
    requires
        bs.len() > 0,
    ensures
        chunks(bs).len() > 0,
        valid_first_scalar(bs) ==> chunks(bs).drop_first() =~= chunks(pop_first_scalar(bs)),
        !valid_first_scalar(bs) ==> chunks(bs).drop_first() =~= chunks(
            bs.skip(invalid_run_len(bs)),
        ),
{
}

/// Law: lossy decoding drops no byte. The input splits into consecutive
/// chunks; each chunk is either the well-formed encoding of the scalar
/// value it decodes to, or one non-empty maximal invalid run; the decoded
/// text holds exactly one scalar value per chunk, a replacement character
/// for each invalid run; and the diagnostics carry exactly the invalid
/// runs, in input order.
pub proof fn lemma_lossy_decode_no_loss(bs: Seq<u8>)
    ensures
        chunks_bytes(chunks(bs)) == bs,
        chunks(bs).map_values(|ch: Chunk| chunk_char(ch)) == lossy_chars(bs),
        forall|k: int|
            0 <= k < chunks(bs).len() ==> ((#[trigger] chunks(bs)[k]) matches Chunk::Invalid(run)
                ==> run.len() > 0),
        invalid_runs(bs, 0).map_values(|p: (int, Seq<u8>)| p.1) == chunk_runs(chunks(bs)),
{
    lemma_lossy_decode_no_loss_from(bs, 0);
}

proof fn lemma_lossy_decode_no_loss_from(bs: Seq<u8>, off: int)
    ensures
        chunks_bytes(chunks(bs)) == bs,
        chunks(bs).map_values(|ch: Chunk| chunk_char(ch)) == lossy_chars(bs),
        forall|k: int|
            0 <= k < chunks(bs).len() ==> ((#[trigger] chunks(bs)[k]) matches Chunk::Invalid(run)
                ==> run.len() > 0),
        invalid_runs(bs, off).map_values(|p: (int, Seq<u8>)| p.1) == chunk_runs(chunks(bs)),
    decreases bs.len(),
{
    if bs.len() == 0 {
        assert(chunks_bytes(chunks(bs)) =~= bs);
        assert(chunks(bs).map_values(|ch: Chunk| chunk_char(ch)) =~= lossy_chars(bs));
        assert(invalid_runs(bs, off).map_values(|p: (int, Seq<u8>)| p.1) =~= chunk_runs(
            chunks(bs),
        ));
    } else if valid_first_scalar(bs) {
        let rest = pop_first_scalar(bs);
        let c = decode_first_scalar(bs) as char;
        lemma_first_scalar_encode(bs);
        lemma_lossy_decode_no_loss_from(rest, off + length_of_first_scalar(bs));
        lemma_chunks_cons(bs);
        assert(chunks(bs)[0] == Chunk::Scalar(c));
        assert(chunk_bytes(Chunk::Scalar(c)) == take_first_scalar(bs));
        assert(chunks_bytes(chunks(bs)) =~= take_first_scalar(bs) + chunks_bytes(chunks(rest)));
        assert(take_first_scalar(bs) + rest =~= bs);
        assert(chunks_bytes(chunks(bs)) =~= bs);
        assert(chunks(bs).map_values(|ch: Chunk| chunk_char(ch)) =~= lossy_chars(bs));
        assert(invalid_runs(bs, off) == invalid_runs(rest, off + length_of_first_scalar(bs)));
        assert(chunk_runs(chunks(bs)) =~= chunk_runs(chunks(rest)));
        assert(invalid_runs(bs, off).map_values(|p: (int, Seq<u8>)| p.1) =~= chunk_runs(
            chunks(bs),
        ));
    } else {
        let k = invalid_run_len(bs);
        let run = bs.take(k);
        let rest = bs.skip(k);
        lemma_lossy_decode_no_loss_from(rest, off + 3);
        lemma_chunks_cons(bs);
        assert(chunks(bs)[0] == Chunk::Invalid(run));
        assert(run.len() > 0);
        assert(chunks_bytes(chunks(bs)) =~= run + chunks_bytes(chunks(rest)));
        assert(run + rest =~= bs);
        assert(chunks_bytes(chunks(bs)) =~= bs);
        assert(chunks(bs).map_values(|ch: Chunk| chunk_char(ch)) =~= lossy_chars(bs));
        assert(invalid_runs(bs, off) == seq![(off, run)] + invalid_runs(rest, off + 3));
        assert(chunk_runs(chunks(bs)) =~= seq![run] + chunk_runs(chunks(rest)));
        assert(invalid_runs(bs, off).map_values(|p: (int, Seq<u8>)| p.1) =~= chunk_runs(
            chunks(bs),
        ));
    }
}

/// Law: on fully valid input, lossy decoding is exactly UTF-8 decoding and
/// produces no diagnostics.
pub proof fn lemma_lossy_valid_input(bs: Seq<u8>, off: int)
    requires
        valid_utf8(bs),
    ensures
        lossy_chars(bs) == decode_utf8(bs),
        invalid_runs(bs, off).len() == 0,
    decreases bs.len(),
{
    if bs.len() > 0 {
        lemma_lossy_valid_input(pop_first_scalar(bs), off + length_of_first_scalar(bs));
    }
}

proof fn lemma_width_1_scalar(b0: u8)
    by (bit_vector)
    requires
        b0 <= 0x7f,
    ensures
        codepoint_width_1(b0) == b0 as u32,
{
}

proof fn lemma_width_2_scalar(b0: u8, b1: u8)
    by (bit_vector)
    requires
        0xc2 <= b0 <= 0xdf,
        0x80 <= b1 <= 0xbf,
    ensures
        0x80 <= codepoint_width_2(b0, b1) <= 0x7ff,
{
}

proof fn lemma_width_2_overlong(b0: u8, b1: u8)
    by (bit_vector)
    requires
        b0 == 0xc0 || b0 == 0xc1,
        0x80 <= b1 <= 0xbf,
    ensures
        codepoint_width_2(b0, b1) < 0x80,
{
}

proof fn lemma_width_3_scalar(b0: u8, b1: u8, b2: u8)
    by (bit_vector)
    requires
        0xe0 <= b0 <= 0xef,
        valid_second_byte_width_3(b0, b1),
        0x80 <= b2 <= 0xbf,
    ensures
        0x80 <= b1 <= 0xbf,
        0x800 <= codepoint_width_3(b0, b1, b2) <= 0xffff,
        !(0xd800 <= codepoint_width_3(b0, b1, b2) <= 0xdfff),
{
}

proof fn lemma_width_3_bad_second(b0: u8, b1: u8, b2: u8)
    by (bit_vector)
    requires
        0xe0 <= b0 <= 0xef,
        0x80 <= b1 <= 0xbf,
        !valid_second_byte_width_3(b0, b1),
        0x80 <= b2 <= 0xbf,
    ensures
        codepoint_width_3(b0, b1, b2) < 0x800 || (0xd800 <= codepoint_width_3(b0, b1, b2)
            <= 0xdfff),
{
}

proof fn lemma_width_4_scalar(b0: u8, b1: u8, b2: u8, b3: u8)
    by (bit_vector)
    requires
        0xf0 <= b0 <= 0xf7,
        valid_second_byte_width_4(b0, b1),
        0x80 <= b2 <= 0xbf,
        0x80 <= b3 <= 0xbf,
    ensures
        0x80 <= b1 <= 0xbf,
        0x10000 <= codepoint_width_4(b0, b1, b2, b3) <= 0x10ffff,
{
}

proof fn lemma_width_4_bad_second(b0: u8, b1: u8, b2: u8, b3: u8)
    by (bit_vector)
    requires
        0xf0 <= b0 <= 0xf7,
        0x80 <= b1 <= 0xbf,
        !valid_second_byte_width_4(b0, b1),
        0x80 <= b2 <= 0xbf,
        0x80 <= b3 <= 0xbf,
    ensures
        codepoint_width_4(b0, b1, b2, b3) < 0x10000 || codepoint_width_4(b0, b1, b2, b3)
            > 0x10ffff,
{
}

/// The scalar decoded from a well-formed head re-encodes to exactly the
/// bytes consumed, so the decoded scalar value occupies as many bytes in
/// the output text as its encoding did in the input.
proof fn lemma_first_scalar_encode(bs: Seq<u8>)
    requires
        valid_first_scalar(bs),
    ensures
        encode_scalar((decode_first_scalar(bs) as char) as u32) == take_first_scalar(bs),
        char_len(decode_first_scalar(bs) as char) == length_of_first_scalar(bs),
{
    let head = take_first_scalar(bs);
    assert(head.len() == length_of_first_scalar(bs));
    assert(head[0] == bs[0]);
    if length_of_first_scalar(bs) >= 2 {
        assert(head[1] == bs[1]);
    }
    if length_of_first_scalar(bs) >= 3 {
        assert(head[2] == bs[2]);
    }
    if length_of_first_scalar(bs) >= 4 {
        assert(head[3] == bs[3]);
    }
    assert(valid_first_scalar(head));
    assert(decode_first_scalar(head) == decode_first_scalar(bs));
    assert(length_of_first_scalar(head) == length_of_first_scalar(bs));
    assert(pop_first_scalar(head) =~= Seq::<u8>::empty());
    assert(valid_utf8(Seq::<u8>::empty()));
    assert(valid_utf8(head));
    decode_utf8_first_scalar(head);
    assert(take_first_scalar(head) =~= head);
}

/// Classification of the bytes at one position of the input.
enum Scanned {
    /// A well-formed encoding of one scalar value.
    Scalar { value: u32, len: usize },
    /// A maximal invalid run.
    Invalid { len: usize },
}

/// Decides `valid_second_byte_width_3`.
fn second_byte_width_3_ok(b0: u8, b1: u8) -> (r: bool)
    ensures
        r == valid_second_byte_width_3(b0, b1),
{
    if b0 == 0xe0 {
        0xa0 <= b1 && b1 <= 0xbf
    } else if b0 == 0xed {
        0x80 <= b1 && b1 <= 0x9f
    } else {
        0x80 <= b1 && b1 <= 0xbf
    }
}

/// Decides `valid_second_byte_width_4`.
fn second_byte_width_4_ok(b0: u8, b1: u8) -> (r: bool)
    ensures
        r == valid_second_byte_width_4(b0, b1),
{
    if b0 == 0xf0 {
        0x90 <= b1 && b1 <= 0xbf
    } else if b0 == 0xf4 {
        0x80 <= b1 && b1 <= 0x8f
    } else if 0xf1 <= b0 && b0 <= 0xf3 {
        0x80 <= b1 && b1 <= 0xbf
    } else {
        false
    }
}

/// Examines the bytes starting at position `i`: either the well-formed
/// encoding of one scalar value, with its value and length, or the maximal
/// invalid run at that position, with its length.
fn scan_scalar(bytes: &Vec<u8>, i: usize) -> (r: Scanned)
    requires
        i < bytes@.len(),
    ensures
        ({
            let tail = bytes@.skip(i as int);
            match r {
                Scanned::Scalar { value, len } => {
                    &&& valid_first_scalar(tail)
                    &&& value == decode_first_scalar(tail)
                    &&& is_scalar(value)
                    &&& len as int == length_of_first_scalar(tail)
                    &&& i + len <= bytes@.len()
                },
                Scanned::Invalid { len } => {
                    &&& !valid_first_scalar(tail)
                    &&& len as int == invalid_run_len(tail)
                    &&& 1 <= len
                    &&& i + len <= bytes@.len()
                },
            }
        }),
{
    let ghost tail = bytes@.skip(i as int);
    let n = bytes.len();
    let b0 = bytes[i];
    proof {
        assert(tail.len() == n - i);
        assert(tail[0] == b0);
        if tail.len() >= 2 {
            assert(tail[1] == bytes@[i as int + 1]);
        }
        if tail.len() >= 3 {
            assert(tail[2] == bytes@[i as int + 2]);
        }
        if tail.len() >= 4 {
            assert(tail[3] == bytes@[i as int + 3]);
        }
    }
    if b0 < 0x80 {
        proof {
            lemma_width_1_scalar(b0);
        }
        Scanned::Scalar { value: b0 as u32, len: 1 }
    } else if 0xc2 <= b0 && b0 <= 0xdf {
        if i + 1 < n {
            let b1 = bytes[i + 1];
            if 0x80 <= b1 && b1 <= 0xbf {
                let value = (((b0 & 0x1f) as u32) << 6) | ((b1 & 0x3f) as u32);
                proof {
                    lemma_width_2_scalar(b0, b1);
                    assert(value == codepoint_width_2(b0, b1));
                }
                Scanned::Scalar { value, len: 2 }
            } else {
                Scanned::Invalid { len: 1 }
            }
        } else {
            Scanned::Invalid { len: 1 }
        }
    } else if 0xe0 <= b0 && b0 <= 0xef {
        if i + 1 < n {
            let b1 = bytes[i + 1];
            if second_byte_width_3_ok(b0, b1) {
                if i + 2 < n {
                    let b2 = bytes[i + 2];
                    if 0x80 <= b2 && b2 <= 0xbf {
                        let value = (((b0 & 0x0f) as u32) << 12) | (((b1 & 0x3f) as u32) << 6) | ((
                        b2 & 0x3f) as u32);
                        proof {
                            lemma_width_3_scalar(b0, b1, b2);
                            assert(value == codepoint_width_3(b0, b1, b2));
                        }
                        Scanned::Scalar { value, len: 3 }
                    } else {
                        Scanned::Invalid { len: 2 }
                    }
                } else {
                    Scanned::Invalid { len: 2 }
                }
            } else {
                proof {
                    if tail.len() >= 3 && is_continuation_byte(b1) && is_continuation_byte(
                        tail[2],
                    ) {
                        lemma_width_3_bad_second(b0, b1, tail[2] as u8);
                    }
                }
                Scanned::Invalid { len: 1 }
            }
        } else {
            Scanned::Invalid { len: 1 }
        }
    } else if 0xf0 <= b0 && b0 <= 0xf4 {
        if i + 1 < n {
            let b1 = bytes[i + 1];
            if second_byte_width_4_ok(b0, b1) {
                if i + 2 < n {
                    let b2 = bytes[i + 2];
                    if 0x80 <= b2 && b2 <= 0xbf {
                        if i + 3 < n {
                            let b3 = bytes[i + 3];
                            if 0x80 <= b3 && b3 <= 0xbf {
                                let value = (((b0 & 0x07) as u32) << 18) | (((b1 & 0x3f) as u32)
                                    << 12) | (((b2 & 0x3f) as u32) << 6) | ((b3 & 0x3f) as u32);
                                proof {
                                    lemma_width_4_scalar(b0, b1, b2, b3);
                                    assert(value == codepoint_width_4(b0, b1, b2, b3));
                                }
                                Scanned::Scalar { value, len: 4 }
                            } else {
                                Scanned::Invalid { len: 3 }
                            }
                        } else {
                            Scanned::Invalid { len: 3 }
                        }
                    } else {
                        Scanned::Invalid { len: 2 }
                    }
                } else {
                    Scanned::Invalid { len: 2 }
                }
            } else {
                proof {
                    if tail.len() >= 4 && is_continuation_byte(b1) && is_continuation_byte(tail[2])
                        && is_continuation_byte(tail[3]) {
                        lemma_width_4_bad_second(b0, b1, tail[2] as u8, tail[3] as u8);
                    }
                }
                Scanned::Invalid { len: 1 }
            }
        } else {
            Scanned::Invalid { len: 1 }
        }
    } else {
        proof {
            if (b0 == 0xc0 || b0 == 0xc1) && tail.len() >= 2 && is_continuation_byte(tail[1]) {
                lemma_width_2_overlong(b0, tail[1] as u8);
            }
            if 0xf5 <= b0 && b0 <= 0xf7 && tail.len() >= 4 && is_continuation_byte(tail[1])
                && is_continuation_byte(tail[2]) && is_continuation_byte(tail[3]) {
                lemma_width_4_bad_second(b0, tail[1] as u8, tail[2] as u8, tail[3] as u8);
            }
        }
        Scanned::Invalid { len: 1 }
    }
}

/// Decodes raw file bytes into text. Each well-formed encoding contributes
/// its scalar value; each maximal invalid run is replaced by one
/// replacement character and reported with one diagnostic that carries the
/// exact invalid bytes and whose span covers the replacement character's
/// bytes in the decoded text of file `file_index`.
pub fn parse_utf8(bytes: Vec<u8>, file_index: usize, errors: &mut Vec<Error>) -> (text: String)
    ensures
        text@ == lossy_chars(bytes@),
        final(errors)@.len() == old(errors)@.len() + invalid_runs(bytes@, 0).len(),
        forall|k: int| 0 <= k < old(errors)@.len() ==> final(errors)@[k] == old(errors)@[k],
        forall|k: int|
            0 <= k < invalid_runs(bytes@, 0).len() ==> (#[trigger] final(errors)@[old(
                errors,
            )@.len() + k]).is_invalid_utf8(
                file_index,
                invalid_runs(bytes@, 0)[k].0,
                invalid_runs(bytes@, 0)[k].1,
            ),
{
    let n = bytes.len();
    let mut text = String::new();
    let mut i: usize = 0;
    let ghost mut runs_done: Seq<(int, Seq<u8>)> = Seq::empty();
    proof {
        assert(bytes@.skip(0) =~= bytes@);
        assert(text@ =~= Seq::<char>::empty());
        assert(text_byte_len(text@) == 0);
        assert(text@ + lossy_chars(bytes@) =~= lossy_chars(bytes@));
        assert(runs_done + invalid_runs(bytes@, 0) =~= invalid_runs(bytes@, 0));
    }
    while i < n
        invariant
            n == bytes@.len(),
            i <= n,
            lossy_chars(bytes@) == text@ + lossy_chars(bytes@.skip(i as int)),
            invalid_runs(bytes@, 0) == runs_done + invalid_runs(
                bytes@.skip(i as int),
                text_byte_len(text@),
            ),
            errors@.len() == old(errors)@.len() + runs_done.len(),
            forall|k: int| 0 <= k < old(errors)@.len() ==> errors@[k] == old(errors)@[k],
            forall|k: int|
                0 <= k < runs_done.len() ==> (#[trigger] errors@[old(
                    errors,
                )@.len() + k]).is_invalid_utf8(file_index, runs_done[k].0, runs_done[k].1),
        decreases n - i,
    {
        let ghost tail = bytes@.skip(i as int);
        let ghost text0 = text@;
        let ghost off = text_byte_len(text@);
        match scan_scalar(&bytes, i) {
            Scanned::Scalar { value, len } => {
                let c = char_from_u32(value).unwrap();
                string_push(&mut text, c);
                proof {
                    char_u32_cast(c, value);
                    assert(decode_first_scalar(tail) as char == c);
                    assert(pop_first_scalar(tail) =~= bytes@.skip(i as int + len as int));
                    assert(lossy_chars(tail) == seq![c] + lossy_chars(pop_first_scalar(tail)));
                    assert(text@ =~= text0 + seq![c]);
                    assert(text0 + (seq![c] + lossy_chars(pop_first_scalar(tail))) =~= (text0
                        + seq![c]) + lossy_chars(pop_first_scalar(tail)));
                    lemma_text_byte_len_push(text0, c);
                    lemma_first_scalar_encode(tail);
                    assert(text_byte_len(text@) == off + length_of_first_scalar(tail));
                    assert(invalid_runs(tail, off) == invalid_runs(
                        pop_first_scalar(tail),
                        off + length_of_first_scalar(tail),
                    ));
                }
                i = i + len;
            },
            Scanned::Invalid { len } => {
                let mut run: Vec<u8> = Vec::new();
                let mut j: usize = 0;
                while j < len
                    invariant
                        i + len <= n,
                        n == bytes@.len(),
                        j <= len,
                        run@ == bytes@.subrange(i as int, i as int + j as int),
                    decreases len - j,
                {
                    run.push(bytes[i + j]);
                    proof {
                        assert(run@ =~= bytes@.subrange(i as int, i as int + j as int + 1));
                    }
                    j = j + 1;
                }
                let start = str_byte_len(text.as_str());
                string_push(&mut text, REPLACEMENT_CHARACTER);
                let end = str_byte_len(text.as_str());
                proof {
                    lemma_text_byte_len_push(text0, REPLACEMENT_CHARACTER);
                    assert(REPLACEMENT_CHARACTER as u32 == 0xfffd);
                    assert(char_len(REPLACEMENT_CHARACTER) == 3);
                }
                errors.push(
                    Error {
                        location: Some(
                            FileSpan { file_index, span: Span { start, end } },
                        ),
                        kind: ErrorKind::InvalidUtf8 { bytes: run },
                    },
                );
                proof {
                    let run_bytes = tail.take(len as int);
                    assert(run_bytes =~= bytes@.subrange(i as int, i as int + len as int));
                    assert(tail.skip(len as int) =~= bytes@.skip(i as int + len as int));
                    assert(lossy_chars(tail) == seq![REPLACEMENT_CHARACTER] + lossy_chars(
                        tail.skip(len as int),
                    ));
                    assert(text@ =~= text0 + seq![REPLACEMENT_CHARACTER]);
                    assert(text0 + (seq![REPLACEMENT_CHARACTER] + lossy_chars(
                        tail.skip(len as int),
                    )) =~= (text0 + seq![REPLACEMENT_CHARACTER]) + lossy_chars(
                        tail.skip(len as int),
                    ));
                    assert(invalid_runs(tail, off) == seq![(off, run_bytes)] + invalid_runs(
                        tail.skip(len as int),
                        off + 3,
                    ));
                    assert(start as int == off);
                    assert(end as int == off + 3);
                    let ghost runs0 = runs_done;
                    runs_done = runs_done.push((off, run_bytes));
                    assert(runs0 + (seq![(off, run_bytes)] + invalid_runs(
                        tail.skip(len as int),
                        off + 3,
                    )) =~= runs_done + invalid_runs(tail.skip(len as int), off + 3));
                    assert(errors@[old(errors)@.len() + runs0.len() as int].is_invalid_utf8(
                        file_index,
                        off,
                        run_bytes,
                    ));
                    assert(text_byte_len(text@) == off + 3);
                }
                i = i + len;
            },
        }
    }
    proof {
        assert(bytes@.skip(n as int) =~= Seq::<u8>::empty());
        assert(lossy_chars(Seq::<u8>::empty()) =~= Seq::<char>::empty());
        assert(text@ + Seq::<char>::empty() =~= text@);
        assert(invalid_runs(Seq::<u8>::empty(), text_byte_len(text@)) =~= Seq::<(
            int,
            Seq<u8>,
        )>::empty());
        assert(runs_done + Seq::<(int, Seq<u8>)>::empty() =~= runs_done);
        assert(runs_done =~= invalid_runs(bytes@, 0));
    }
    text
}

} // verus!
