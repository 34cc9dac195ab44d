//! What holds of the library as a whole, proved from the definitions that
//! the contracts of its functions use.

use crate::convert::{all_convert, converted_line, lines_of, parsed_line, store_of};
use crate::corpus::{corpus_of, lemma_corpus_line, lemma_corpus_lines};
use crate::error::{IoError, ParseError};
use crate::keepass_finder::{finding_of, findings, group_secrets, Group, Node};
use crate::progress::{consumed_by, lemma_percent_monotonic, percent_of, progress_marks};
use crate::pwn_db::{
    bisect, breach_count, found_at, holds, lemma_search, password_count, sorted,
};
use crate::record::{
    be_bytes, be_u32, digest_at, lemma_lt_asymmetric, record_bytes, records, relation,
    well_formed, Relation,
};
use vstd::prelude::*;
use vstd::utf8::valid_utf8;

verus! {

/// The four bytes of a count spell that count.
pub proof fn lemma_count_bytes(count: u32)
    ensures
        be_bytes(count).len() == 4,
        be_u32(be_bytes(count)) == count,
{
}

/// A store of whole records with one more record at its end holds the
/// records that it held before and then that one.
pub proof fn lemma_records_push(store: Seq<u8>, digest: Seq<u8>, count: u32)
    requires
        store.len() % 24 == 0,
        digest.len() == 20,
    ensures
        records(store + record_bytes(digest, count)) == records(store).push((digest, count)),
{
    let longer = store + record_bytes(digest, count);
    let n = store.len() / 24;
    lemma_count_bytes(count);
    assert forall|i: int| 0 <= i < n + 1 implies records(longer)[i] == records(store).push(
        (digest, count),
    )[i] by {
        if i < n {
            assert(digest_at(longer, i) =~= digest_at(store, i));
            assert(longer.subrange(24 * i + 20, 24 * i + 24) =~= store.subrange(
                24 * i + 20,
                24 * i + 24,
            ));
        } else {
            assert(digest_at(longer, i) =~= digest);
            assert(longer.subrange(24 * i + 20, 24 * i + 24) =~= be_bytes(count));
        }
    }
}

/// Lines that spell the pairs `pairs`, one pair to a line, convert to a store
/// that holds those pairs as its records, in the order of the lines.
pub proof fn lemma_store_of_lines(lines: Seq<Seq<u8>>, pairs: Seq<(Seq<u8>, u32)>)
    requires
        lines.len() == pairs.len(),
        forall|j: int|
            0 <= j < lines.len() ==> valid_utf8(#[trigger] lines[j]) && parsed_line(lines[j]) == Ok::<
                (Seq<u8>, u32),
                ParseError,
            >(pairs[j]),
    ensures
        all_convert(lines),
        store_of(lines).len() == 24 * lines.len(),
        records(store_of(lines)) == pairs,
        well_formed(pairs),
    decreases lines.len(),
{
    if lines.len() > 0 {
        let n = lines.len() - 1;
        lemma_store_of_lines(lines.drop_last(), pairs.drop_last());
        let (digest, count) = pairs[n];
        assert(converted_line(lines[n]) == Ok::<Seq<u8>, IoError>(
            record_bytes(digest, count),
        ));
        lemma_records_push(store_of(lines.drop_last()), digest, count);
        lemma_count_bytes(count);
    }
}

/// Round trip, for any way of writing the lines. Let lines of text spell
/// pairs of a digest and a count, one pair to a line, with the digests in
/// strictly ascending order. Then every line converts, the store that the
/// conversion writes holds exactly those pairs, and a search of that store
/// for the digest of any of the pairs gives that pair's count.
pub proof fn law_round_trip_of_lines(lines: Seq<Seq<u8>>, pairs: Seq<(Seq<u8>, u32)>, i: int)
    requires
        lines.len() == pairs.len(),
        forall|j: int|
            0 <= j < lines.len() ==> valid_utf8(#[trigger] lines[j]) && parsed_line(lines[j]) == Ok::<
                (Seq<u8>, u32),
                ParseError,
            >(pairs[j]),
        sorted(pairs),
        0 <= i < pairs.len(),
    ensures
        all_convert(lines),
        records(store_of(lines)) == pairs,
        bisect(records(store_of(lines)), pairs[i].0, 0, pairs.len() as int) == pairs[i].1,
{
    lemma_store_of_lines(lines, pairs);
    law_sorted_search(pairs, i);
}

/// Round trip. Let pairs of a digest of twenty bytes and a count be written
/// as a corpus, a line to each pair, with the digests in strictly ascending
/// order. Then every line of that corpus converts, the store that the
/// conversion writes holds exactly those pairs, and a search of that store
/// for the digest of any of the pairs gives that pair's count.
pub proof fn law_round_trip(pairs: Seq<(Seq<u8>, u32)>, i: int)
    requires
        well_formed(pairs),
        sorted(pairs),
        0 <= i < pairs.len(),
    ensures
        all_convert(lines_of(corpus_of(pairs))),
        records(store_of(lines_of(corpus_of(pairs)))) == pairs,
        bisect(records(store_of(lines_of(corpus_of(pairs)))), pairs[i].0, 0, pairs.len() as int)
            == pairs[i].1,
{
    let lines = lines_of(corpus_of(pairs));
    lemma_corpus_lines(pairs);
    assert forall|j: int| 0 <= j < lines.len() implies valid_utf8(#[trigger] lines[j])
        && parsed_line(lines[j]) == Ok::<(Seq<u8>, u32), ParseError>(pairs[j]) by {
        lemma_corpus_line(pairs[j].0, pairs[j].1);
    }
    law_round_trip_of_lines(lines, pairs, i);
}

/// On records sorted by digest, a search for the digest of the record at any
/// position gives the count of that record.
pub proof fn law_sorted_search(records: Seq<(Seq<u8>, u32)>, i: int)
    requires
        well_formed(records),
        sorted(records),
        0 <= i < records.len(),
    ensures
        bisect(records, records[i].0, 0, records.len() as int) == records[i].1,
        breach_count(records, records[i].0) == records[i].1,
{
    let target = records[i].0;
    lemma_search(records, target);
    assert(found_at(records, target, i));
    let j = choose|j: int| found_at(records, target, j);
    if j < i {
        lemma_lt_asymmetric(records[j].0, records[i].0);
    } else if i < j {
        lemma_lt_asymmetric(records[i].0, records[j].0);
    }
}

/// Not found. A search for a digest that no record has gives zero, whatever
/// the order of the records; so does every search of an empty store.
pub proof fn law_not_found(records: Seq<(Seq<u8>, u32)>, digest: Seq<u8>)
    requires
        records.len() == 0 || !holds(records, digest),
    ensures
        bisect(records, digest, 0, records.len() as int) == 0,
{
    lemma_search(records, digest);
}

/// A store of exactly one record gives that record's count for its digest,
/// and zero for every other digest.
pub proof fn law_single_record(records: Seq<(Seq<u8>, u32)>, digest: Seq<u8>)
    requires
        records.len() == 1,
    ensures
        bisect(records, digest, 0, 1) == if digest == records[0].0 {
            records[0].1
        } else {
            0
        },
{
    match relation(digest, records[0].0) {
        Relation::Below => {
            assert(bisect(records, digest, 0, 0) == 0);
        },
        Relation::Above => {
            assert(bisect(records, digest, 1, 1) == 0);
        },
        Relation::Same => {},
    }
}

/// `marks` ascend strictly and lie above `floor` and at or below `top`.
pub open spec fn ascending_between(marks: Seq<u8>, floor: int, top: int) -> bool {
    &&& forall|i: int| 0 <= i < marks.len() ==> floor < #[trigger] marks[i] <= top
    &&& forall|i: int, j: int| 0 <= i < j < marks.len() ==> marks[i] < marks[j]
}

/// Monotonic progress. The percentages that a conversion reports ascend
/// strictly, lie above zero, and do not pass the percentage reached at the
/// end, which is at most 100.
pub proof fn law_progress_ascends(lines: Seq<Seq<u8>>, total: nat)
    ensures
        ascending_between(progress_marks(lines, total), 0, percent_of(consumed_by(lines), total) as int),
        percent_of(consumed_by(lines), total) <= 100,
    decreases lines.len(),
{
    lemma_percent_monotonic(0, consumed_by(lines), total);
    if lines.len() > 0 {
        law_progress_ascends(lines.drop_last(), total);
        lemma_percent_monotonic(consumed_by(lines.drop_last()), consumed_by(lines), total);
    }
}

/// Filter. Each finding has a count other than zero, and that count is what
/// the store gives for one of the passwords met, under whose path it is
/// reported.
pub proof fn law_findings_filtered(
    secrets: Seq<(Seq<Seq<char>>, Seq<char>)>,
    records: Seq<(Seq<u8>, u32)>,
    i: int,
)
    requires
        0 <= i < findings(secrets, records).len(),
    ensures
        findings(secrets, records)[i].1 != 0,
        exists|j: int|
            0 <= j < secrets.len() && (#[trigger] secrets[j]).0 == findings(secrets, records)[i].0
                && password_count(records, secrets[j].1) == findings(secrets, records)[i].1,
    decreases secrets.len(),
{
    let first = finding_of(secrets[0], records);
    let rest = secrets.skip(1);
    if i >= first.len() {
        law_findings_filtered(rest, records, i - first.len());
        let j = choose|j: int|
            0 <= j < rest.len() && (#[trigger] rest[j]).0 == findings(rest, records)[i - first.len()].0
                && password_count(records, rest[j].1) == findings(rest, records)[i - first.len()].1;
    }
}

/// An entry without a password is passed over: the walk meets the same
/// passwords from its position on as from the next position on.
pub proof fn law_no_password_no_query(group: Group, ancestors: Seq<Seq<char>>, from: int)
    requires
        0 <= from < group.children.len(),
        group.children[from] matches Node::Entry(entry) && entry.password is None,
    ensures
        group_secrets(group, ancestors, from) == group_secrets(group, ancestors, from + 1),
{
}

} // verus!
