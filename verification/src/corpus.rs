//! The text of a corpus as it is written: for each pair of a digest and a
//! count a line of 40 hexadecimal digits, a colon and the count in decimal,
//! ended by a line feed. The lemmas say that the conversion reads such a text
//! back as the pairs it was written from.

use crate::convert::{
    all_digits, decimal_value, lemma_line_end, line_at, line_end, lines_from, lines_of,
    parsed_line,
};
use crate::error::ParseError;
use crate::hexdigest::{hex_decoded, is_hex};
use vstd::prelude::*;
use vstd::utf8::{partial_valid_utf8_extend_ascii_block, valid_utf8};

verus! {

/// The hexadecimal digit, in lower case, for a value below sixteen.
pub open spec fn hex_digit(value: int) -> u8 {
    if value < 10 {
        (0x30 + value) as u8
    } else {
        (0x61 + value - 10) as u8
    }
}

/// `bytes` in hexadecimal: two digits to a byte, the higher digit first.
pub open spec fn hex_text(bytes: Seq<u8>) -> Seq<u8> {
    Seq::new(
        2 * bytes.len(),
        |i: int|
            hex_digit(
                if i % 2 == 0 {
                    bytes[i / 2] as int / 16
                } else {
                    bytes[i / 2] as int % 16
                },
            ),
    )
}

/// `n` in decimal, without leading zeros.
pub open spec fn decimal_text(n: nat) -> Seq<u8>
    decreases n,
{
    if n < 10 {
        seq![(0x30 + n) as u8]
    } else {
        decimal_text(n / 10).push((0x30 + n % 10) as u8)
    }
}

/// The line of a corpus that spells the pair of `digest` and `count`.
pub open spec fn corpus_line(digest: Seq<u8>, count: u32) -> Seq<u8> {
    hex_text(digest) + seq![0x3au8] + decimal_text(count as nat)
}

/// The lines that spell `pairs`, one pair to a line.
pub open spec fn corpus_lines(pairs: Seq<(Seq<u8>, u32)>) -> Seq<Seq<u8>> {
    Seq::new(pairs.len(), |i: int| corpus_line(pairs[i].0, pairs[i].1))
}

/// The text of a corpus that spells `pairs`: their lines in order, each ended
/// by a line feed.
pub open spec fn corpus_of(pairs: Seq<(Seq<u8>, u32)>) -> Seq<u8>
    decreases pairs.len(),
{
    if pairs.len() == 0 {
        Seq::empty()
    } else {
        corpus_line(pairs[0].0, pairs[0].1) + seq![0x0au8] + corpus_of(pairs.skip(1))
    }
}

/// Hexadecimal text reads back as the bytes it was written from.
pub proof fn lemma_hex_round_trip(bytes: Seq<u8>)
    ensures
        hex_text(bytes).len() == 2 * bytes.len(),
        is_hex(hex_text(bytes)),
        hex_decoded(hex_text(bytes)) == bytes,
{
}

/// Decimal text is made of digits and reads back as the number it was
/// written from.
pub proof fn lemma_decimal_round_trip(n: nat)
    ensures
        decimal_text(n).len() > 0,
        all_digits(decimal_text(n)),
        decimal_value(decimal_text(n)) == n,
    decreases n,
{
    if n < 10 {
        assert(decimal_value(decimal_text(n).drop_last()) == 0);
    } else {
        lemma_decimal_round_trip(n / 10);
        assert(decimal_text(n).drop_last() =~= decimal_text(n / 10));
    }
}

/// A sequence of ASCII bytes is text.
pub proof fn lemma_ascii_is_text(bytes: Seq<u8>)
    requires
        forall|i: int| 0 <= i < bytes.len() ==> #[trigger] bytes[i] < 0x80,
    ensures
        valid_utf8(bytes),
{
    partial_valid_utf8_extend_ascii_block(bytes, 0, bytes.len() as int);
    assert(bytes.subrange(0, bytes.len() as int) =~= bytes);
}

/// What holds of the line that spells a pair: it is text without a line feed
/// or a carriage return, and it reads back as the pair.
pub proof fn lemma_corpus_line(digest: Seq<u8>, count: u32)
    requires
        digest.len() == 20,
    ensures
        corpus_line(digest, count).len() >= 42,
        forall|i: int|
            0 <= i < corpus_line(digest, count).len() ==> {
                &&& #[trigger] corpus_line(digest, count)[i] != 0x0a
                &&& corpus_line(digest, count)[i] != 0x0d
                &&& corpus_line(digest, count)[i] < 0x80
            },
        valid_utf8(corpus_line(digest, count)),
        parsed_line(corpus_line(digest, count)) == Ok::<(Seq<u8>, u32), ParseError>((digest, count)),
{
    let line = corpus_line(digest, count);
    let digits = decimal_text(count as nat);
    lemma_hex_round_trip(digest);
    lemma_decimal_round_trip(count as nat);
    assert(line.subrange(0, 40) =~= hex_text(digest));
    assert(line.skip(41) =~= digits);
    assert forall|i: int| 0 <= i < line.len() implies {
        &&& #[trigger] line[i] != 0x0a
        &&& line[i] != 0x0d
        &&& line[i] < 0x80
    } by {}
    lemma_ascii_is_text(line);
}

/// The first line feed at or behind `from` is at `end`, where no line feed
/// stands before `end` and one stands there, or the input ends there.
pub proof fn lemma_line_end_at(input: Seq<u8>, from: int, end: int)
    requires
        0 <= from <= end <= input.len(),
        forall|i: int| from <= i < end ==> input[i] != 0x0a,
        end < input.len() ==> input[end] == 0x0a,
    ensures
        line_end(input, from) == end,
    decreases end - from,
{
    if from < end {
        lemma_line_end_at(input, from + 1, end);
    }
}

/// The lines of an input from a position on are the lines of what is left of
/// the input behind that position.
pub proof fn lemma_lines_shift(input: Seq<u8>, from: int)
    requires
        0 <= from <= input.len(),
    ensures
        lines_from(input, from) == lines_of(input.skip(from)),
{
    lemma_lines_shift_by(input, from, 0);
}

proof fn lemma_lines_shift_by(input: Seq<u8>, shift: int, from: int)
    requires
        0 <= shift,
        0 <= from,
        shift + from <= input.len(),
    ensures
        lines_from(input, shift + from) == lines_from(input.skip(shift), from),
    decreases input.len() - shift - from,
{
    let rest = input.skip(shift);
    if from < rest.len() {
        lemma_line_end(rest, from);
        let end = line_end(rest, from);
        assert forall|i: int| shift + from <= i < shift + end implies input[i] != 0x0a by {
            assert(rest[i - shift] == input[i]);
        }
        lemma_line_end_at(input, shift + from, shift + end);
        assert(line_at(input, shift + from, shift + end) == line_at(rest, from, end));
        if end < rest.len() {
            lemma_lines_shift_by(input, shift, end + 1);
        }
    }
}

/// The lines of the text that spells `pairs` are the lines that spell them.
pub proof fn lemma_corpus_lines(pairs: Seq<(Seq<u8>, u32)>)
    requires
        forall|i: int| 0 <= i < pairs.len() ==> (#[trigger] pairs[i]).0.len() == 20,
    ensures
        lines_of(corpus_of(pairs)) == corpus_lines(pairs),
    decreases pairs.len(),
{
    if pairs.len() > 0 {
        let corpus = corpus_of(pairs);
        let line = corpus_line(pairs[0].0, pairs[0].1);
        let later = pairs.skip(1);
        let end = line.len() as int;
        lemma_corpus_line(pairs[0].0, pairs[0].1);
        lemma_line_end_at(corpus, 0, end);
        assert(line_at(corpus, 0, end) == line);
        assert(corpus.skip(end + 1) =~= corpus_of(later));
        lemma_corpus_lines(later);
        lemma_lines_shift(corpus, end + 1);
    }
}

} // verus!
