//! Transfers in the order of their hashes.
use crate::keccak;
use crate::keccak::KeccakHash;
use crate::leaf_set;
use crate::leaf_set::lower_bound;
use crate::transfer::PendingTransfer;
use vstd::prelude::*;

verus! {

/// The hashes of transfers.
pub open spec fn hashes_of(values: Seq<PendingTransfer>) -> Seq<KeccakHash> {
    Seq::new(values.len(), |i: int| values[i]@.hash())
}

/// The transfers with the given hash, in the order in which they stand.
pub open spec fn with_hash(values: Seq<PendingTransfer>, hash: KeccakHash) -> Seq<PendingTransfer> {
    values.filter(|value: PendingTransfer| value@.hash() == hash)
}

/// `sorted` holds the transfers of `values` in the order of their hashes,
/// those with equal hashes in the order in which they stood.
pub open spec fn is_stable_sort(values: Seq<PendingTransfer>, sorted: Seq<PendingTransfer>) -> bool {
    &&& leaf_set::is_sorted(hashes_of(sorted))
    &&& forall|hash: KeccakHash| #[trigger] with_hash(sorted, hash) == with_hash(values, hash)
}

proof fn lemma_with_hash_add(a: Seq<PendingTransfer>, b: Seq<PendingTransfer>, hash: KeccakHash)
    ensures
        with_hash(a + b, hash) == with_hash(a, hash) + with_hash(b, hash),
{
    Seq::filter_distributes_over_add(a, b, |value: PendingTransfer| value@.hash() == hash);
}

proof fn lemma_with_hash_one(value: PendingTransfer, hash: KeccakHash)
    ensures
        with_hash(seq![value], hash) == if value@.hash() == hash {
            seq![value]
        } else {
            seq![]
        },
{
    reveal(Seq::filter);
    let one = seq![value];
    assert(one.drop_last() =~= seq![]);
    assert(with_hash(one.drop_last(), hash) =~= seq![]);
    assert(with_hash(one, hash) =~= if value@.hash() == hash {
        seq![value]
    } else {
        seq![]
    });
}

/// A hash that no transfer has, none is found with.
proof fn lemma_with_hash_none(values: Seq<PendingTransfer>, hash: KeccakHash)
    requires
        forall|i: int| 0 <= i < values.len() ==> values[i]@.hash() != hash,
    ensures
        with_hash(values, hash) == Seq::<PendingTransfer>::empty(),
    decreases values.len(),
{
    reveal(Seq::filter);
    if values.len() > 0 {
        lemma_with_hash_none(values.drop_last(), hash);
    }
}

/// Putting a transfer where its hash belongs, in front of those with the same
/// hash, keeps a sorted sequence of transfers sorted.
proof fn lemma_insert_keeps_stable_sort(
    values: Seq<PendingTransfer>,
    sorted: Seq<PendingTransfer>,
    value: PendingTransfer,
    pos: int,
)
    requires
        is_stable_sort(values, sorted),
        leaf_set::is_lower_bound(hashes_of(sorted), value@.hash(), pos),
    ensures
        is_stable_sort(seq![value] + values, sorted.insert(pos, value)),
{
    let hashes = hashes_of(sorted);
    let result = sorted.insert(pos, value);
    let front = sorted.take(pos);
    let back = sorted.skip(pos);
    assert(sorted =~= front + back);
    assert(result =~= front + (seq![value] + back));
    assert forall|hash: KeccakHash| #[trigger]
        with_hash(result, hash) == with_hash(seq![value] + values, hash) by {
        lemma_with_hash_add(front, back, hash);
        lemma_with_hash_add(front, seq![value] + back, hash);
        lemma_with_hash_add(seq![value], back, hash);
        lemma_with_hash_add(seq![value], values, hash);
        lemma_with_hash_one(value, hash);
        assert(with_hash(sorted, hash) == with_hash(values, hash));
        if value@.hash() == hash {
            keccak::lemma_lt_irreflexive(hash);
            assert forall|i: int| 0 <= i < front.len() implies front[i]@.hash() != hash by {
                assert(hashes[i].spec_lt(hash));
            }
            lemma_with_hash_none(front, hash);
        }
        assert(with_hash(result, hash) =~= with_hash(seq![value] + values, hash));
    }
    let new_hashes = hashes_of(result);
    assert(new_hashes =~= hashes.insert(pos, value@.hash()));
    assert forall|i: int, j: int| 0 <= i < j < new_hashes.len() implies !new_hashes[j].spec_lt(
        new_hashes[i],
    ) by {
        if i < pos && j == pos {
            if value@.hash().spec_lt(hashes[i]) {
                keccak::lemma_lt_transitive(hashes[i], value@.hash(), hashes[i]);
                keccak::lemma_lt_irreflexive(hashes[i]);
            }
        }
    }
}

/// A transfer is found with its hash.
proof fn lemma_found_with_hash(values: Seq<PendingTransfer>, i: int)
    requires
        0 <= i < values.len(),
    ensures
        with_hash(values, values[i]@.hash()).len() > 0,
    decreases values.len(),
{
    reveal(Seq::filter);
    if i < values.len() - 1 {
        lemma_found_with_hash(values.drop_last(), i);
    }
}

/// Sorting keeps the set of hashes.
pub proof fn lemma_sort_keeps_hashes(values: Seq<PendingTransfer>, sorted: Seq<PendingTransfer>)
    requires
        is_stable_sort(values, sorted),
    ensures
        hashes_of(sorted).to_set() == hashes_of(values).to_set(),
{
    lemma_hashes_within(values, sorted);
    lemma_hashes_within(sorted, values);
    assert(hashes_of(sorted).to_set() =~= hashes_of(values).to_set());
}

proof fn lemma_hashes_within(a: Seq<PendingTransfer>, b: Seq<PendingTransfer>)
    requires
        forall|hash: KeccakHash| #[trigger] with_hash(a, hash) == with_hash(b, hash),
    ensures
        hashes_of(a).to_set().subset_of(hashes_of(b).to_set()),
{
    assert forall|hash: KeccakHash| hashes_of(a).to_set().contains(hash) implies hashes_of(
        b,
    ).to_set().contains(hash) by {
        let i = choose|i: int| 0 <= i < a.len() && hashes_of(a)[i] == hash;
        lemma_found_with_hash(a, i);
        assert(with_hash(a, hash) == with_hash(b, hash));
        if forall|j: int| 0 <= j < b.len() ==> b[j]@.hash() != hash {
            lemma_with_hash_none(b, hash);
        } else {
            let j = choose|j: int| 0 <= j < b.len() && b[j]@.hash() == hash;
            assert(hashes_of(b)[j] == hash);
        }
    }
}

/// Two transfers with the same hash are both found with it.
proof fn lemma_two_with_hash(values: Seq<PendingTransfer>, i: int, j: int)
    requires
        0 <= i < j < values.len(),
        values[i]@.hash() == values[j]@.hash(),
    ensures
        with_hash(values, values[i]@.hash()).len() > 1,
    decreases values.len(),
{
    reveal(Seq::filter);
    if j < values.len() - 1 {
        lemma_two_with_hash(values.drop_last(), i, j);
    } else {
        lemma_found_with_hash(values.drop_last(), i);
    }
}

/// Of transfers with distinct hashes at most one is found with a hash.
proof fn lemma_one_with_hash(values: Seq<PendingTransfer>, hash: KeccakHash)
    requires
        hashes_of(values).no_duplicates(),
    ensures
        with_hash(values, hash).len() <= 1,
    decreases values.len(),
{
    reveal(Seq::filter);
    if values.len() > 0 {
        let front = values.drop_last();
        let hashes = hashes_of(values);
        assert(hashes_of(front) =~= hashes.drop_last());
        lemma_one_with_hash(front, hash);
        if values.last()@.hash() == hash {
            assert forall|i: int| 0 <= i < front.len() implies front[i]@.hash() != hash by {
                assert(hashes[i] != hashes[values.len() - 1]);
            }
            lemma_with_hash_none(front, hash);
        }
    }
}

/// Transfers with distinct hashes are sorted into ascending order.
pub proof fn lemma_sort_of_distinct(values: Seq<PendingTransfer>, sorted: Seq<PendingTransfer>)
    requires
        is_stable_sort(values, sorted),
        hashes_of(values).no_duplicates(),
    ensures
        leaf_set::is_ascending(hashes_of(sorted)),
{
    let hashes = hashes_of(sorted);
    assert forall|i: int, j: int| 0 <= i < j < hashes.len() implies hashes[i].spec_lt(
        hashes[j],
    ) by {
        if hashes[i] == hashes[j] {
            lemma_two_with_hash(sorted, i, j);
            lemma_one_with_hash(values, hashes[i]);
            assert(with_hash(sorted, hashes[i]) == with_hash(values, hashes[i]));
        }
        keccak::lemma_lt_total(hashes[i], hashes[j]);
    }
}

/// Sort transfers according to their hash values.
pub fn sort_by_hash(values: Vec<PendingTransfer>) -> (r: (Vec<PendingTransfer>, Vec<KeccakHash>))
    ensures
        is_stable_sort(values@, r.0@),
        r.0@.len() == values@.len(),
        r.1@ == hashes_of(r.0@),
{
    let mut rest = values;
    let mut sorted: Vec<PendingTransfer> = Vec::new();
    let mut hashes: Vec<KeccakHash> = Vec::new();
    assert(values@.skip(values@.len() as int) =~= seq![]);
    assert(hashes@ =~= hashes_of(sorted@));
    loop
        invariant
            rest@.len() <= values@.len(),
            rest@ == values@.take(rest@.len() as int),
            sorted@.len() == values@.len() - rest@.len(),
            is_stable_sort(values@.skip(rest@.len() as int), sorted@),
            hashes@ == hashes_of(sorted@),
        ensures
            rest@.len() == 0,
        decreases rest@.len(),
    {
        match rest.pop() {
            None => {
                break;
            },
            Some(value) => {
                let hash = value.keccak256();
                let pos = lower_bound(&hashes, &hash);
                proof {
                    let n = rest@.len() as int;
                    lemma_insert_keeps_stable_sort(values@.skip(n + 1), sorted@, value, pos as int);
                    assert(values@.skip(n) =~= seq![value] + values@.skip(n + 1));
                }
                sorted.insert(pos, value);
                hashes.insert(pos, hash);
                assert(hashes@ =~= hashes_of(sorted@));
            },
        }
    }
    assert(values@.skip(0) =~= values@);
    (sorted, hashes)
}

} // verus!
