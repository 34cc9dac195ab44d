//! The conversion of a text corpus into a store of records.
//!
//! A line of the corpus is 40 hexadecimal digits, one separator byte and a
//! decimal occurrence count. Each line becomes one record, in the order of
//! the lines: the conversion does not sort.

use crate::error::{to_io_error, IoError, ParseError};
use crate::hexdigest::{decode_digest, hex_decoded, is_digest_text};
use crate::progress::{consumed_by, progress_marks, Progress};
use crate::record::{encode_count, record_bytes};
use vstd::prelude::*;
use vstd::slice::slice_subrange;
use vstd::utf8::valid_utf8;

verus! {

/// `c` is a decimal digit in ASCII.
pub open spec fn is_digit(c: u8) -> bool {
    0x30 <= c <= 0x39
}

/// Every byte of `text` is a decimal digit.
pub open spec fn all_digits(text: Seq<u8>) -> bool {
    forall|i: int| 0 <= i < text.len() ==> is_digit(#[trigger] text[i])
}

/// The number that a sequence of decimal digits spells.
pub open spec fn decimal_value(digits: Seq<u8>) -> nat
    decreases digits.len(),
{
    if digits.len() == 0 {
        0
    } else {
        decimal_value(digits.drop_last()) * 10 + (digits.last() - 0x30) as nat
    }
}

/// The digits of a count: the text without a plus sign in front.
pub open spec fn count_digits(text: Seq<u8>) -> Seq<u8> {
    if text.len() > 0 && text[0] == 0x2b {
        text.skip(1)
    } else {
        text
    }
}

/// The occurrence count that `text` spells: a decimal number of at least one
/// digit, with or without a plus sign in front, that fits in 32 bits. Any
/// other text spells none.
pub open spec fn parsed_count(text: Seq<u8>) -> Option<u32> {
    let digits = count_digits(text);
    if digits.len() > 0 && all_digits(digits) && decimal_value(digits) <= u32::MAX {
        Some(decimal_value(digits) as u32)
    } else {
        None
    }
}

/// A number does not get smaller when more digits follow it.
proof fn lemma_decimal_prefix(digits: Seq<u8>, k: int)
    requires
        all_digits(digits),
        0 <= k <= digits.len(),
    ensures
        decimal_value(digits.take(k)) <= decimal_value(digits),
    decreases digits.len() - k,
{
    if k == digits.len() {
        assert(digits.take(k) =~= digits);
    } else {
        lemma_decimal_prefix(digits, k + 1);
        assert(digits.take(k + 1).drop_last() =~= digits.take(k));
    }
}

/// Reads an occurrence count from its text.
pub fn parse_count(text: &[u8]) -> (count: Option<u32>)
    ensures
        count == parsed_count(text@),
{
    let start: usize = if text.len() > 0 && text[0] == 0x2b {
        1
    } else {
        0
    };
    let ghost digits = count_digits(text@);
    if start == text.len() {
        return None;
    }
    let mut value: u64 = 0;
    let mut i: usize = start;
    while i < text.len()
        invariant
            start <= i <= text.len(),
            digits == text@.skip(start as int),
            digits == count_digits(text@),
            all_digits(digits.take(i - start)),
            value == decimal_value(digits.take(i - start)),
            value <= u32::MAX,
        decreases text.len() - i,
    {
        let c: u8 = text[i];
        if c < 0x30 || c > 0x39 {
            assert(!is_digit(digits[i - start]));
            return None;
        }
        value = value * 10 + (c - 0x30) as u64;
        assert(digits.take(i - start + 1).drop_last() =~= digits.take(i - start));
        if value > 0xffff_ffff {
            proof {
                if all_digits(digits) {
                    lemma_decimal_prefix(digits, i - start + 1);
                }
            }
            return None;
        }
        i += 1;
    }
    assert(digits.take(i - start) =~= digits);
    Some(value as u32)
}

/// What a line of the corpus holds: the digest that its first 40 bytes spell
/// in hexadecimal and the occurrence count that its bytes from position 41
/// on spell in decimal. The byte at position 40 separates the two and may be
/// any byte.
pub open spec fn parsed_line(line: Seq<u8>) -> Result<(Seq<u8>, u32), ParseError> {
    if line.len() < 41 {
        Err(ParseError::ShortLine)
    } else if !is_digest_text(line.subrange(0, 40)) {
        Err(ParseError::BadDigest)
    } else {
        match parsed_count(line.skip(41)) {
            Some(count) => Ok((hex_decoded(line.subrange(0, 40)), count)),
            None => Err(ParseError::BadCount),
        }
    }
}

/// The record that a line of the corpus becomes.
pub open spec fn line_record(line: Seq<u8>) -> Result<Seq<u8>, ParseError> {
    match parsed_line(line) {
        Ok((digest, count)) => Ok(record_bytes(digest, count)),
        Err(e) => Err(e),
    }
}

/// Turns one line of the corpus, without its line terminator, into the bytes
/// of its record.
pub fn convert_line(line: &[u8]) -> (record: Result<[u8; 24], ParseError>)
    ensures
        match line_record(line@) {
            Ok(bytes) => record matches Ok(r) && r@ == bytes,
            Err(e) => record == Err::<[u8; 24], ParseError>(e),
        },
{
    if line.len() < 41 {
        return Err(ParseError::ShortLine);
    }
    let digest: [u8; 20] = match decode_digest(slice_subrange(line, 0, 40)) {
        Ok(digest) => digest,
        Err(_) => {
            return Err(ParseError::BadDigest);
        },
    };
    let count: u32 = match parse_count(slice_subrange(line, 41, line.len())) {
        Some(count) => count,
        None => {
            return Err(ParseError::BadCount);
        },
    };
    let tail: [u8; 4] = encode_count(count);
    let mut record: [u8; 24] = [0u8; 24];
    let mut i: usize = 0;
    while i < 20
        invariant
            0 <= i <= 20,
            forall|j: int| 0 <= j < i ==> record@[j] == digest@[j],
        decreases 20 - i,
    {
        record[i] = digest[i];
        i += 1;
    }
    record[20] = tail[0];
    record[21] = tail[1];
    record[22] = tail[2];
    record[23] = tail[3];
    Ok(record)
}

/// Calls `std::str::from_utf8` on `bytes` and says whether it gave a string.
/// The contract claims what the documentation of that function says: it fails
/// exactly where the bytes are not valid UTF-8.
#[verifier::external_body]
pub(crate) fn is_text(bytes: &[u8]) -> (valid: bool)
    ensures
        valid == valid_utf8(bytes@),
{
    match std::str::from_utf8(bytes) {
        Ok(_) => true,
        Err(_) => false,
    }
}

/// The record that a line of the input becomes, or the error that ends the
/// conversion at that line: a line that is not text is invalid data, and a
/// line of text that is malformed is an error of the class "other".
pub open spec fn converted_line(line: Seq<u8>) -> Result<Seq<u8>, IoError> {
    if !valid_utf8(line) {
        Err(IoError::InvalidData)
    } else {
        match line_record(line) {
            Ok(bytes) => Ok(bytes),
            Err(e) => Err(IoError::Other(e)),
        }
    }
}

/// Turns one line of the input, without its line terminator, into the bytes
/// of its record.
pub fn convert_text_line(line: &[u8]) -> (record: Result<[u8; 24], IoError>)
    ensures
        match converted_line(line@) {
            Ok(bytes) => record matches Ok(r) && r@ == bytes,
            Err(e) => record == Err::<[u8; 24], IoError>(e),
        },
{
    if !is_text(line) {
        return Err(IoError::InvalidData);
    }
    match convert_line(line) {
        Ok(record) => Ok(record),
        Err(e) => Err(to_io_error(e)),
    }
}

/// The position of the first line feed of `input` at or behind `from`, or the
/// length of `input` where there is none.
pub open spec fn line_end(input: Seq<u8>, from: int) -> int
    decreases input.len() - from,
{
    if from >= input.len() {
        input.len() as int
    } else if input[from] == 0x0a {
        from
    } else {
        line_end(input, from + 1)
    }
}

/// A line ends at or behind the position where it starts, at the first line
/// feed from there on.
pub proof fn lemma_line_end(input: Seq<u8>, from: int)
    requires
        0 <= from <= input.len(),
    ensures
        from <= line_end(input, from) <= input.len(),
        forall|i: int| from <= i < line_end(input, from) ==> input[i] != 0x0a,
        line_end(input, from) < input.len() ==> input[line_end(input, from)] == 0x0a,
    decreases input.len() - from,
{
    if from < input.len() && input[from] != 0x0a {
        lemma_line_end(input, from + 1);
    }
}

/// The line of `input` that starts at `from` and ends before `end`, without
/// its terminator: the bytes between the two positions, less a carriage
/// return at their end where a line feed follows it.
pub open spec fn line_at(input: Seq<u8>, from: int, end: int) -> Seq<u8> {
    let raw = input.subrange(from, end);
    if end < input.len() && raw.len() > 0 && raw.last() == 0x0d {
        raw.drop_last()
    } else {
        raw
    }
}

/// The lines of `input` from the position `from` on. A line ends with a line
/// feed, or with a carriage return and a line feed; the last line may end
/// with the input.
pub open spec fn lines_from(input: Seq<u8>, from: int) -> Seq<Seq<u8>>
    decreases input.len() - from,
    via lines_from_decreases
{
    if 0 <= from < input.len() {
        let end = line_end(input, from);
        let later = if end < input.len() {
            lines_from(input, end + 1)
        } else {
            Seq::empty()
        };
        seq![line_at(input, from, end)] + later
    } else {
        Seq::empty()
    }
}

#[via_fn]
proof fn lines_from_decreases(input: Seq<u8>, from: int) {
    if 0 <= from < input.len() {
        lemma_line_end(input, from);
    }
}

/// The lines of `input`.
pub open spec fn lines_of(input: Seq<u8>) -> Seq<Seq<u8>> {
    lines_from(input, 0)
}

/// Every line of `lines` becomes a record.
pub open spec fn all_convert(lines: Seq<Seq<u8>>) -> bool {
    forall|i: int| 0 <= i < lines.len() ==> converted_line(#[trigger] lines[i]) is Ok
}

/// The records of `lines` one after the other, in the order of the lines.
pub open spec fn store_of(lines: Seq<Seq<u8>>) -> Seq<u8>
    decreases lines.len(),
{
    if lines.len() == 0 {
        Seq::empty()
    } else {
        store_of(lines.drop_last()) + match converted_line(lines.last()) {
            Ok(bytes) => bytes,
            Err(_) => Seq::empty(),
        }
    }
}

/// Appends the bytes of a record to `output`.
fn write_record(output: &mut Vec<u8>, record: &[u8; 24])
    ensures
        final(output)@ == old(output)@ + record@,
{
    let mut i: usize = 0;
    while i < 24
        invariant
            0 <= i <= 24,
            output@ == old(output)@ + record@.take(i as int),
        decreases 24 - i,
    {
        output.push(record[i]);
        i += 1;
    }
}

/// Converts a corpus held in memory. The records of its lines are appended
/// to `output`, in the order of the lines, and the percentages that the
/// conversion reports on its way are appended to `progress`. The conversion
/// ends at the first line that does not convert, with that line's error: what
/// the lines before it gave stays in `output` and `progress`.
pub fn convert_pwndb(input: &[u8], output: &mut Vec<u8>, progress: &mut Vec<u8>) -> (result: Result<
    (),
    IoError,
>)
    ensures
        match result {
            Ok(()) => {
                &&& all_convert(lines_of(input@))
                &&& final(output)@ == old(output)@ + store_of(lines_of(input@))
                &&& final(progress)@ == old(progress)@ + progress_marks(
                    lines_of(input@),
                    input@.len(),
                )
            },
            Err(e) => exists|k: int|
                {
                    &&& 0 <= k < lines_of(input@).len()
                    &&& all_convert(lines_of(input@).take(k))
                    &&& #[trigger] converted_line(lines_of(input@)[k]) == Err::<Seq<u8>, IoError>(e)
                    &&& final(output)@ == old(output)@ + store_of(lines_of(input@).take(k))
                    &&& final(progress)@ == old(progress)@ + progress_marks(
                        lines_of(input@).take(k),
                        input@.len(),
                    )
                },
        },
{
    let length: usize = input.len();
    let mut tracker = Progress::new(length as u64);
    let mut from: usize = 0;
    let ghost mut done: Seq<Seq<u8>> = Seq::empty();
    while from < length
        invariant
            length == input@.len(),
            0 <= from <= length,
            lines_of(input@) == done + lines_from(input@, from as int),
            all_convert(done),
            output@ == old(output)@ + store_of(done),
            progress@ == old(progress)@ + progress_marks(done, input@.len()),
            tracker.total() == input@.len(),
            tracker.consumed() == consumed_by(done),
            consumed_by(done) <= from,
        decreases length - from,
    {
        let mut end: usize = from;
        while end < length && input[end] != 0x0a
            invariant
                length == input@.len(),
                from <= end <= length,
                line_end(input@, end as int) == line_end(input@, from as int),
            decreases length - end,
        {
            end += 1;
        }
        let terminated: bool = end < length;
        let stop: usize = if terminated && end > from && input[end - 1] == 0x0d {
            end - 1
        } else {
            end
        };
        let line: &[u8] = slice_subrange(input, from, stop);
        proof {
            assert(line@ =~= line_at(input@, from as int, end as int));
            assert(lines_of(input@).take(done.len() as int) =~= done);
            assert(lines_of(input@)[done.len() as int] == line@);
            assert(done.push(line@).drop_last() =~= done);
        }
        match convert_text_line(line) {
            Err(e) => {
                return Err(e);
            },
            Ok(record) => {
                write_record(output, &record);
            },
        }
        if let Some(percentage) = tracker.advance(line.len() as u64) {
            progress.push(percentage);
        }
        proof {
            done = done.push(line@);
        }
        from = if terminated {
            end + 1
        } else {
            end
        };
    }
    Ok(())
}

} // verus!
