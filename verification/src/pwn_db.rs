//! Point queries on a store of records sorted by digest.

use crate::hash::{sha1, sha1_digest};
use crate::record::{
    compare_digests, digest_lt, lemma_lt_asymmetric, lemma_lt_total, lemma_lt_transitive,
    lemma_records_well_formed, read_count, read_digest, records, relation, well_formed, Relation,
    RECORD_LENGTH,
};
use vstd::prelude::*;
use vstd::utf8::encode_utf8;

verus! {

/// The digests of `records` ascend strictly: the records are sorted by digest
/// and no digest occurs twice.
pub open spec fn sorted(records: Seq<(Seq<u8>, u32)>) -> bool {
    forall|i: int, j: int|
        0 <= i < j < records.len() ==> digest_lt((#[trigger] records[i]).0, (#[trigger] records[j]).0)
}

/// The record at position `i` of `records` has the digest `digest`.
pub open spec fn found_at(records: Seq<(Seq<u8>, u32)>, digest: Seq<u8>, i: int) -> bool {
    0 <= i < records.len() && records[i].0 == digest
}

/// Some record of `records` has the digest `digest`.
pub open spec fn holds(records: Seq<(Seq<u8>, u32)>, digest: Seq<u8>) -> bool {
    exists|i: int| found_at(records, digest, i)
}

/// The occurrence count that `records` keep for `digest`: the count of a record
/// with that digest, and zero where there is none.
pub open spec fn breach_count(records: Seq<(Seq<u8>, u32)>, digest: Seq<u8>) -> u32 {
    if holds(records, digest) {
        records[choose|i: int| found_at(records, digest, i)].1
    } else {
        0
    }
}

/// What a binary search for `target` over the positions from `begin` up to,
/// and not including, `end` comes to, whatever the order of `records`: it
/// compares with the record in the middle, goes on below it or above it, and
/// ends with that record's count when the digests are the same, or with zero
/// when no position is left.
pub open spec fn bisect(records: Seq<(Seq<u8>, u32)>, target: Seq<u8>, begin: int, end: int) -> u32
    decreases end - begin,
{
    if begin >= end {
        0
    } else {
        let middle = (begin + end) / 2;
        match relation(target, records[middle].0) {
            Relation::Below => bisect(records, target, begin, middle),
            Relation::Above => bisect(records, target, middle + 1, end),
            Relation::Same => records[middle].1,
        }
    }
}

/// A binary search ends with zero or with the count of a record that has the
/// digest searched for, whatever the order of the records.
pub proof fn lemma_bisect_sound(records: Seq<(Seq<u8>, u32)>, target: Seq<u8>, begin: int, end: int)
    requires
        0 <= begin,
        end <= records.len(),
    ensures
        bisect(records, target, begin, end) == 0 || exists|i: int|
            begin <= i < end && found_at(records, target, i) && records[i].1 == bisect(
                records,
                target,
                begin,
                end,
            ),
    decreases end - begin,
{
    if begin < end {
        let middle = (begin + end) / 2;
        match relation(target, records[middle].0) {
            Relation::Below => lemma_bisect_sound(records, target, begin, middle),
            Relation::Above => lemma_bisect_sound(records, target, middle + 1, end),
            Relation::Same => {
                assert(found_at(records, target, middle));
            },
        }
    }
}

/// On sorted records, a binary search over an interval outside of which the
/// target cannot lie ends with the count that the records keep for the target.
pub proof fn lemma_bisect_sorted(records: Seq<(Seq<u8>, u32)>, target: Seq<u8>, begin: int, end: int)
    requires
        well_formed(records),
        sorted(records),
        target.len() == 20,
        0 <= begin <= end <= records.len(),
        forall|i: int| 0 <= i < begin ==> digest_lt((#[trigger] records[i]).0, target),
        forall|i: int| end <= i < records.len() ==> digest_lt(target, (#[trigger] records[i]).0),
    ensures
        bisect(records, target, begin, end) == breach_count(records, target),
    decreases end - begin,
{
    if begin >= end {
        if holds(records, target) {
            let i = choose|i: int| found_at(records, target, i);
            if i < begin {
                lemma_lt_asymmetric(records[i].0, target);
            } else {
                lemma_lt_asymmetric(target, records[i].0);
            }
        }
    } else {
        let middle = (begin + end) / 2;
        let probed = records[middle].0;
        match relation(target, probed) {
            Relation::Below => {
                assert forall|i: int| middle <= i < records.len() implies digest_lt(
                    target,
                    (#[trigger] records[i]).0,
                ) by {
                    if middle < i {
                        lemma_lt_transitive(target, probed, records[i].0);
                    }
                }
                lemma_bisect_sorted(records, target, begin, middle);
            },
            Relation::Above => {
                lemma_lt_total(target, probed);
                assert forall|i: int| 0 <= i < middle + 1 implies digest_lt(
                    (#[trigger] records[i]).0,
                    target,
                ) by {
                    if i < middle {
                        lemma_lt_transitive(records[i].0, probed, target);
                    }
                }
                lemma_bisect_sorted(records, target, middle + 1, end);
            },
            Relation::Same => {
                assert(found_at(records, target, middle));
                let i = choose|i: int| found_at(records, target, i);
                if i < middle {
                    lemma_lt_asymmetric(records[i].0, records[middle].0);
                } else if middle < i {
                    lemma_lt_asymmetric(records[middle].0, records[i].0);
                }
            },
        }
    }
}

/// What holds of a binary search over all of `records`: it ends with zero or
/// with the count of a record that has the digest searched for, and on sorted
/// records of twenty-byte digests with the count that the records keep for it.
pub proof fn lemma_search(records: Seq<(Seq<u8>, u32)>, target: Seq<u8>)
    ensures
        !holds(records, target) ==> bisect(records, target, 0, records.len() as int) == 0,
        bisect(records, target, 0, records.len() as int) != 0 ==> exists|i: int|
            found_at(records, target, i) && records[i].1 == bisect(
                records,
                target,
                0,
                records.len() as int,
            ),
        well_formed(records) && sorted(records) && target.len() == 20 ==> bisect(
            records,
            target,
            0,
            records.len() as int,
        ) == breach_count(records, target),
{
    lemma_bisect_sound(records, target, 0, records.len() as int);
    if well_formed(records) && sorted(records) && target.len() == 20 {
        lemma_bisect_sorted(records, target, 0, records.len() as int);
    }
}

/// The largest number of records whose byte offsets fit in 64 bits.
pub const MAX_RECORDS: u64 = 0xffff_ffff_ffff_ffff / RECORD_LENGTH;

/// The state of one binary search: the digest searched for and the interval
/// of positions in which it may still lie. Whoever holds the store reads the
/// record that [`Search::probe`] names and hands its digest to
/// [`Search::narrow`], until the digest is found or no position is left.
pub struct Search {
    target: [u8; 20],
    begin: u64,
    end: u64,
}

impl Search {
    #[verifier::type_invariant]
    spec fn inv(self) -> bool {
        self.begin <= self.end <= MAX_RECORDS
    }

    /// The digest searched for.
    pub closed spec fn target(self) -> Seq<u8> {
        self.target@
    }

    /// The first position of the interval.
    pub closed spec fn begin(self) -> int {
        self.begin as int
    }

    /// The position behind the last one of the interval.
    pub closed spec fn end(self) -> int {
        self.end as int
    }

    /// The position in the middle of the interval.
    pub open spec fn middle(self) -> int {
        (self.begin() + self.end()) / 2
    }

    /// Starts a search for `target` over all whole records of a store of
    /// `store_len` bytes.
    pub fn new(target: [u8; 20], store_len: u64) -> (search: Search)
        ensures
            search.target() == target@,
            search.begin() == 0,
            search.end() == store_len / 24,
    {
        Search { target, begin: 0, end: store_len / RECORD_LENGTH }
    }

    /// The position of the record to read next: the middle of the interval. It
    /// is `None` when the interval is empty, and the digest is then not in
    /// the store.
    pub fn probe(&self) -> (position: Option<u64>)
        ensures
            self.begin() <= self.end() <= MAX_RECORDS,
            self.begin() == self.end() ==> position.is_none(),
            self.begin() < self.end() ==> position == Some(self.middle() as u64),
    {
        proof {
            use_type_invariant(self);
        }
        if self.begin != self.end {
            Some((self.begin + self.end) / 2)
        } else {
            None
        }
    }

    /// The byte offset in the store of the record to read next: 24 times what
    /// [`Search::probe`] gives.
    pub fn probe_offset(&self) -> (offset: Option<u64>)
        ensures
            self.begin() == self.end() ==> offset.is_none(),
            self.begin() < self.end() ==> offset == Some((24 * self.middle()) as u64),
            self.begin() < self.end() ==> 24 * self.middle() + 24 <= u64::MAX,
    {
        proof {
            use_type_invariant(self);
        }
        if self.begin != self.end {
            Some((self.begin + self.end) / 2 * RECORD_LENGTH)
        } else {
            None
        }
    }

    /// Takes the digest `probed` of the record in the middle of the interval
    /// and says whether it is the digest searched for. If it is not, the
    /// interval shrinks to the positions below the middle, where the target
    /// sorts before `probed`, and to those above it otherwise. On an empty
    /// interval nothing changes and the answer is `false`.
    pub fn narrow(&mut self, probed: &[u8; 20]) -> (found: bool)
        ensures
            final(self).target() == old(self).target(),
            old(self).begin() >= old(self).end() ==> !found && *final(self) == *old(self),
            old(self).begin() < old(self).end() ==> match relation(old(self).target(), probed@) {
                Relation::Same => found && *final(self) == *old(self),
                Relation::Below => {
                    &&& !found
                    &&& final(self).begin() == old(self).begin()
                    &&& final(self).end() == old(self).middle()
                },
                Relation::Above => {
                    &&& !found
                    &&& final(self).begin() == old(self).middle() + 1
                    &&& final(self).end() == old(self).end()
                },
            },
    {
        proof {
            use_type_invariant(&*self);
        }
        if self.begin >= self.end {
            return false;
        }
        let middle: u64 = (self.begin + self.end) / 2;
        match compare_digests(&self.target, probed) {
            Relation::Below => {
                self.end = middle;
                false
            },
            Relation::Above => {
                self.begin = middle + 1;
                false
            },
            Relation::Same => true,
        }
    }
}

/// A store of records held in memory. Its view is the sequence of its records.
pub struct PwnDb {
    data: Vec<u8>,
    num_records: u64,
}

impl View for PwnDb {
    type V = Seq<(Seq<u8>, u32)>;

    closed spec fn view(&self) -> Seq<(Seq<u8>, u32)> {
        records(self.data@)
    }
}

impl PwnDb {
    #[verifier::type_invariant]
    spec fn inv(self) -> bool {
        self.num_records == self.data@.len() / 24
    }

    /// The bytes of the store.
    pub closed spec fn bytes(self) -> Seq<u8> {
        self.data@
    }

    /// Takes the bytes of a store. The store holds as many records as fit
    /// whole in `data`; bytes left over at the end are never read.
    pub fn new(data: Vec<u8>) -> (db: PwnDb)
        ensures
            db.bytes() == data@,
            db@ == records(data@),
    {
        let num_records: u64 = (data.len() / 24) as u64;
        PwnDb { data, num_records }
    }

    /// The number of records in the store.
    pub fn num_records(&self) -> (n: u64)
        ensures
            n == self@.len(),
    {
        proof {
            use_type_invariant(self);
        }
        self.num_records
    }

    /// The occurrence count that the store gives for `digest`, by binary
    /// search. Zero says that the digest was not found. On a store sorted by
    /// digest this is the count of the record with that digest, and zero where
    /// there is none. On any store it is zero or the count of a record with
    /// that digest.
    pub fn search_digest(&self, digest: &[u8; 20]) -> (count: u32)
        ensures
            count == bisect(self@, digest@, 0, self@.len() as int),
            sorted(self@) ==> count == breach_count(self@, digest@),
            !holds(self@, digest@) ==> count == 0,
            count != 0 ==> exists|i: int| found_at(self@, digest@, i) && self@[i].1 == count,
    {
        proof {
            use_type_invariant(self);
        }
        let mut search = Search::new(*digest, self.data.len() as u64);
        loop
            invariant
                self.num_records == self.data@.len() / 24,
                search.target() == digest@,
                0 <= search.begin() <= search.end() <= self@.len(),
                bisect(self@, digest@, search.begin(), search.end()) == bisect(
                    self@,
                    digest@,
                    0,
                    self@.len() as int,
                ),
            decreases search.end() - search.begin(),
        {
            match search.probe() {
                None => {
                    proof {
                        lemma_records_well_formed(self.data@);
                        lemma_search(self@, digest@);
                    }
                    return 0;
                },
                Some(position) => {
                    assert(position < self.data.len() / 24);
                    let index: usize = position as usize;
                    let probed = read_digest(self.data.as_slice(), index);
                    if search.narrow(&probed) {
                        proof {
                            lemma_records_well_formed(self.data@);
                            lemma_search(self@, digest@);
                        }
                        return read_count(self.data.as_slice(), index);
                    }
                },
            }
        }
    }

    /// The occurrence count that the store gives for the SHA-1 digest of
    /// `password`. Zero says that the password was not found.
    pub fn search(&self, password: &str) -> (count: u32)
        ensures
            count == password_count(self@, password@),
            sorted(self@) ==> count == breach_count(self@, password_digest(password@)),
    {
        let digest = hash_password(password);
        self.search_digest(&digest)
    }
}

/// The digest under which a store keeps `password`.
pub fn hash_password(password: &str) -> (digest: [u8; 20])
    ensures
        digest@ == password_digest(password@),
{
    sha1(password.as_bytes())
}

/// The digest under which a store keeps `password`: the SHA-1 digest of its
/// UTF-8 bytes.
pub open spec fn password_digest(password: Seq<char>) -> Seq<u8> {
    sha1_digest(encode_utf8(password))
}

/// The occurrence count that a binary search over `records` gives for
/// `password`.
pub open spec fn password_count(records: Seq<(Seq<u8>, u32)>, password: Seq<char>) -> u32 {
    bisect(records, password_digest(password), 0, records.len() as int)
}

} // verus!
