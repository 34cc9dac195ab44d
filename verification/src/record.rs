//! The layout of a record: a digest of twenty bytes followed by an occurrence
//! count of four bytes, most significant byte first.

use vstd::prelude::*;

verus! {

/// Bytes in a record.
pub const RECORD_LENGTH: u64 = 24;

/// The number that four bytes spell, most significant byte first.
pub open spec fn be_u32(bytes: Seq<u8>) -> u32
    recommends
        bytes.len() == 4,
{
    (bytes[0] * 0x100_0000 + bytes[1] * 0x1_0000 + bytes[2] * 0x100 + bytes[3]) as u32
}

/// The four bytes that spell `count`, most significant byte first.
pub open spec fn be_bytes(count: u32) -> Seq<u8> {
    seq![
        (count / 0x100_0000) as u8,
        (count / 0x1_0000 % 0x100) as u8,
        (count / 0x100 % 0x100) as u8,
        (count % 0x100) as u8,
    ]
}

/// Reads an occurrence count from its four bytes.
pub fn decode_count(bytes: &[u8; 4]) -> (count: u32)
    ensures
        count == be_u32(bytes@),
{
    let b0: u32 = bytes[0] as u32;
    let b1: u32 = bytes[1] as u32;
    let b2: u32 = bytes[2] as u32;
    let b3: u32 = bytes[3] as u32;
    b0 * 0x100_0000 + b1 * 0x1_0000 + b2 * 0x100 + b3
}

/// Writes an occurrence count as its four bytes.
pub fn encode_count(count: u32) -> (bytes: [u8; 4])
    ensures
        bytes@ == be_bytes(count),
        be_u32(bytes@) == count,
{
    [
        (count / 0x100_0000) as u8,
        (count / 0x1_0000 % 0x100) as u8,
        (count / 0x100 % 0x100) as u8,
        (count % 0x100) as u8,
    ]
}

/// The digest of the record at position `index` of a store.
pub open spec fn digest_at(store: Seq<u8>, index: int) -> Seq<u8> {
    store.subrange(24 * index, 24 * index + 20)
}

/// The occurrence count of the record at position `index` of a store.
pub open spec fn count_at(store: Seq<u8>, index: int) -> u32 {
    be_u32(store.subrange(24 * index + 20, 24 * index + 24))
}

/// The records that a store holds, each a digest with its occurrence count,
/// in the order of the store. Bytes at the end that do not fill a record are
/// left out.
pub open spec fn records(store: Seq<u8>) -> Seq<(Seq<u8>, u32)> {
    Seq::new(store.len() / 24, |index: int| (digest_at(store, index), count_at(store, index)))
}

/// Every digest of `records` has twenty bytes.
pub open spec fn well_formed(records: Seq<(Seq<u8>, u32)>) -> bool {
    forall|i: int| 0 <= i < records.len() ==> (#[trigger] records[i]).0.len() == 20
}

/// Every digest of a store has twenty bytes.
pub proof fn lemma_records_well_formed(store: Seq<u8>)
    ensures
        well_formed(records(store)),
{
}

/// The bytes of one record.
pub open spec fn record_bytes(digest: Seq<u8>, count: u32) -> Seq<u8> {
    digest + be_bytes(count)
}

/// Copies the digest of the record at position `index` out of a store.
pub fn read_digest(store: &[u8], index: usize) -> (digest: [u8; 20])
    requires
        index < store@.len() / 24,
    ensures
        digest@ == digest_at(store@, index as int),
{
    assert(index * 24 + 24 <= store.len() <= usize::MAX);
    let base: usize = index * 24;
    let mut digest: [u8; 20] = [0u8; 20];
    let mut i: usize = 0;
    while i < 20
        invariant
            0 <= i <= 20,
            base == index * 24,
            base + 24 <= store.len(),
            forall|j: int| 0 <= j < i ==> digest@[j] == store@[base + j],
        decreases 20 - i,
    {
        digest[i] = store[base + i];
        i += 1;
    }
    digest
}

/// Reads the occurrence count of the record at position `index` of a store.
pub fn read_count(store: &[u8], index: usize) -> (count: u32)
    requires
        index < store@.len() / 24,
    ensures
        count == count_at(store@, index as int),
{
    assert(index * 24 + 24 <= store.len() <= usize::MAX);
    let base: usize = index * 24 + 20;
    let bytes: [u8; 4] = [store[base], store[base + 1], store[base + 2], store[base + 3]];
    decode_count(&bytes)
}

/// How one digest stands to another in the order of the store.
#[derive(Clone, Copy, Debug, PartialEq, Eq, Structural)]
pub enum Relation {
    /// The first digest sorts before the second.
    Below,
    /// The two digests are the same.
    Same,
    /// The first digest sorts after the second.
    Above,
}

/// `k` is the first position at which `a` and `b` hold different bytes.
pub open spec fn differs_first_at(a: Seq<u8>, b: Seq<u8>, k: int) -> bool {
    &&& 0 <= k < a.len()
    &&& k < b.len()
    &&& a[k] != b[k]
    &&& forall|i: int| 0 <= i < k ==> a[i] == b[i]
}

/// `a` sorts strictly before `b`: at the first position where they differ,
/// `a` holds the smaller byte. This is the lexicographic order of two byte
/// sequences of one length, each byte read as an unsigned number.
pub open spec fn digest_lt(a: Seq<u8>, b: Seq<u8>) -> bool {
    exists|k: int| #[trigger] differs_first_at(a, b, k) && a[k] < b[k]
}

/// How `a` stands to `b`.
pub open spec fn relation(a: Seq<u8>, b: Seq<u8>) -> Relation {
    if a == b {
        Relation::Same
    } else if digest_lt(a, b) {
        Relation::Below
    } else {
        Relation::Above
    }
}

/// The order is transitive.
pub proof fn lemma_lt_transitive(a: Seq<u8>, b: Seq<u8>, c: Seq<u8>)
    requires
        digest_lt(a, b),
        digest_lt(b, c),
    ensures
        digest_lt(a, c),
{
    let i = choose|k: int| #[trigger] differs_first_at(a, b, k) && a[k] < b[k];
    let j = choose|k: int| #[trigger] differs_first_at(b, c, k) && b[k] < c[k];
    let m = if i <= j { i } else { j };
    assert(differs_first_at(a, c, m));
}

/// The order is strict: a digest that sorts before another is not that other,
/// and does not sort after it.
pub proof fn lemma_lt_asymmetric(a: Seq<u8>, b: Seq<u8>)
    requires
        digest_lt(a, b),
    ensures
        a != b,
        !digest_lt(b, a),
{
    let i = choose|k: int| #[trigger] differs_first_at(a, b, k) && a[k] < b[k];
    if digest_lt(b, a) {
        let j = choose|k: int| #[trigger] differs_first_at(b, a, k) && b[k] < a[k];
    }
}

/// Two sequences of one length that agree below `k` and are not the same
/// differ first at some position from `k` on.
proof fn lemma_first_difference(a: Seq<u8>, b: Seq<u8>, k: int) -> (d: int)
    requires
        a.len() == b.len(),
        a != b,
        0 <= k <= a.len(),
        forall|i: int| 0 <= i < k ==> a[i] == b[i],
    ensures
        differs_first_at(a, b, d),
    decreases a.len() - k,
{
    if k == a.len() {
        assert(a =~= b);
        0
    } else if a[k] != b[k] {
        k
    } else {
        lemma_first_difference(a, b, k + 1)
    }
}

/// The order is total on sequences of one length.
pub proof fn lemma_lt_total(a: Seq<u8>, b: Seq<u8>)
    requires
        a.len() == b.len(),
    ensures
        a == b || digest_lt(a, b) || digest_lt(b, a),
{
    if a != b {
        let d = lemma_first_difference(a, b, 0);
        assert(differs_first_at(b, a, d));
    }
}

/// Compares two digests byte by byte from the front.
pub fn compare_digests(a: &[u8; 20], b: &[u8; 20]) -> (r: Relation)
    ensures
        r == relation(a@, b@),
        r == Relation::Above ==> digest_lt(b@, a@),
{
    let mut i: usize = 0;
    while i < 20
        invariant
            0 <= i <= 20,
            forall|j: int| 0 <= j < i ==> a@[j] == b@[j],
        decreases 20 - i,
    {
        if a[i] < b[i] {
            proof {
                assert(differs_first_at(a@, b@, i as int));
            }
            return Relation::Below;
        }
        if a[i] > b[i] {
            proof {
                assert(differs_first_at(b@, a@, i as int));
                lemma_lt_asymmetric(b@, a@);
            }
            return Relation::Above;
        }
        i += 1;
    }
    assert(a@ =~= b@);
    Relation::Same
}

} // verus!
