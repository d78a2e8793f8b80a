//! An ordered set of hashes, the leaves of a tree.
use crate::keccak;
use crate::keccak::KeccakHash;
use vstd::prelude::*;

verus! {

/// Each hash comes before all that stand behind it.
pub open spec fn is_ascending(hashes: Seq<KeccakHash>) -> bool {
    forall|i: int, j: int| 0 <= i < j < hashes.len() ==> hashes[i].spec_lt(hashes[j])
}

/// No hash comes before one that stands in front of it.
pub open spec fn is_sorted(hashes: Seq<KeccakHash>) -> bool {
    forall|i: int, j: int| 0 <= i < j < hashes.len() ==> !hashes[j].spec_lt(hashes[i])
}

/// The hashes in front of position `pos`, and no others, come before `hash`.
pub open spec fn is_lower_bound(hashes: Seq<KeccakHash>, hash: KeccakHash, pos: int) -> bool {
    &&& 0 <= pos <= hashes.len()
    &&& forall|i: int| 0 <= i < pos ==> hashes[i].spec_lt(hash)
    &&& forall|i: int| pos <= i < hashes.len() ==> !hashes[i].spec_lt(hash)
}

/// The members of a set of hashes in ascending order.
pub open spec fn ascending(set: Set<KeccakHash>) -> Seq<KeccakHash> {
    choose|hashes: Seq<KeccakHash>| is_ascending(hashes) && hashes.to_set() == set
}

/// An ascending sequence is determined by the set of its members.
pub proof fn lemma_ascending_unique(s: Seq<KeccakHash>, t: Seq<KeccakHash>)
    requires
        is_ascending(s),
        is_ascending(t),
        s.to_set() == t.to_set(),
    ensures
        s == t,
    decreases s.len(),
{
    if s.len() == 0 {
        if t.len() > 0 {
            assert(s.to_set().contains(t[0]));
        }
        assert(s =~= t);
    } else {
        assert(t.to_set().contains(s.last()));
        assert(s.to_set().contains(t.last()));
        let i = choose|i: int| 0 <= i < t.len() && t[i] == s.last();
        let j = choose|j: int| 0 <= j < s.len() && s[j] == t.last();
        if s.last() != t.last() {
            assert(s.last().spec_lt(t.last()));
            assert(t.last().spec_lt(s.last()));
            keccak::lemma_lt_transitive(s.last(), t.last(), s.last());
            keccak::lemma_lt_irreflexive(s.last());
        }
        lemma_remove(s, s.len() - 1);
        lemma_remove(t, t.len() - 1);
        let u = s.remove(s.len() - 1);
        let v = t.remove(t.len() - 1);
        lemma_ascending_unique(u, v);
        assert(s =~= u.push(s.last()));
        assert(t =~= v.push(t.last()));
    }
}

proof fn lemma_insert(s: Seq<KeccakHash>, pos: int, hash: KeccakHash)
    requires
        is_ascending(s),
        is_lower_bound(s, hash, pos),
        !s.to_set().contains(hash),
    ensures
        is_ascending(s.insert(pos, hash)),
        s.insert(pos, hash).to_set() == s.to_set().insert(hash),
{
    let t = s.insert(pos, hash);
    assert forall|i: int| pos <= i < s.len() implies hash.spec_lt(s[i]) by {
        assert(s.to_set().contains(s[i]));
        keccak::lemma_lt_total(hash, s[i]);
    }
    assert forall|h: KeccakHash| s.to_set().insert(hash).contains(h) implies t.to_set().contains(
        h,
    ) by {
        if h == hash {
            assert(t[pos] == h);
        } else {
            let i = choose|i: int| 0 <= i < s.len() && s[i] == h;
            assert(t[if i < pos { i } else { i + 1 }] == h);
        }
    }
    assert(t.to_set() =~= s.to_set().insert(hash));
}

proof fn lemma_remove(s: Seq<KeccakHash>, pos: int)
    requires
        is_ascending(s),
        0 <= pos < s.len(),
    ensures
        is_ascending(s.remove(pos)),
        s.remove(pos).to_set() == s.to_set().remove(s[pos]),
{
    let t = s.remove(pos);
    assert forall|h: KeccakHash| s.to_set().remove(s[pos]).contains(h) implies t.to_set().contains(
        h,
    ) by {
        let i = choose|i: int| 0 <= i < s.len() && s[i] == h;
        assert(t[if i < pos { i } else { i - 1 }] == h);
    }
    assert forall|h: KeccakHash| t.to_set().contains(h) implies s.to_set().remove(s[pos]).contains(
        h,
    ) by {
        let i = choose|i: int| 0 <= i < t.len() && t[i] == h;
        let j = if i < pos { i } else { i + 1 };
        assert(s[j] == h);
        keccak::lemma_lt_irreflexive(s[pos]);
    }
    assert(t.to_set() =~= s.to_set().remove(s[pos]));
}

/// An ascending sequence is the ascending order of its members.
pub proof fn lemma_ascending_of_members(s: Seq<KeccakHash>)
    requires
        is_ascending(s),
    ensures
        ascending(s.to_set()) == s,
{
    lemma_ascending_unique(ascending(s.to_set()), s);
}

/// Every finite set of hashes has an ascending order.
pub proof fn lemma_ascending_exists(set: Set<KeccakHash>)
    requires
        set.finite(),
    ensures
        is_ascending(ascending(set)),
        ascending(set).to_set() == set,
    decreases set.len(),
{
    if set =~= Set::empty() {
        let none = Seq::<KeccakHash>::empty();
        assert(none.to_set() =~= set);
        assert(is_ascending(none));
    } else {
        let hash = set.choose();
        let rest = set.remove(hash);
        lemma_ascending_exists(rest);
        let s = ascending(rest);
        let pos = lemma_lower_bound_exists(s, hash, s.len() as int);
        lemma_insert(s, pos, hash);
        assert(rest.insert(hash) =~= set);
        assert(is_ascending(s.insert(pos, hash)));
    }
}

proof fn lemma_lower_bound_exists(s: Seq<KeccakHash>, hash: KeccakHash, high: int) -> (pos: int)
    requires
        is_ascending(s),
        0 <= high <= s.len(),
        forall|i: int| high <= i < s.len() ==> !s[i].spec_lt(hash),
    ensures
        is_lower_bound(s, hash, pos),
    decreases high,
{
    if high == 0 {
        0
    } else if s[high - 1].spec_lt(hash) {
        assert forall|i: int| 0 <= i < high implies s[i].spec_lt(hash) by {
            if i < high - 1 {
                keccak::lemma_lt_transitive(s[i], s[high - 1], hash);
            }
        }
        high
    } else {
        lemma_lower_bound_exists(s, hash, high - 1)
    }
}

proof fn lemma_ascending_is_sorted(s: Seq<KeccakHash>)
    requires
        is_ascending(s),
    ensures
        is_sorted(s),
{
    assert forall|i: int, j: int| 0 <= i < j < s.len() implies !s[j].spec_lt(s[i]) by {
        if s[j].spec_lt(s[i]) {
            keccak::lemma_lt_transitive(s[i], s[j], s[i]);
            keccak::lemma_lt_irreflexive(s[i]);
        }
    }
}

/// Find the position of a hash in a sorted vector.
pub fn lower_bound(hashes: &Vec<KeccakHash>, hash: &KeccakHash) -> (pos: usize)
    requires
        is_sorted(hashes@),
    ensures
        is_lower_bound(hashes@, *hash, pos as int),
{
    let mut low: usize = 0;
    let mut high: usize = hashes.len();
    while low < high
        invariant
            low <= high <= hashes@.len(),
            is_sorted(hashes@),
            forall|i: int| 0 <= i < low ==> hashes@[i].spec_lt(*hash),
            forall|i: int| high <= i < hashes@.len() ==> !hashes@[i].spec_lt(*hash),
        decreases high - low,
    {
        let mid: usize = low + (high - low) / 2;
        let ghost at = hashes@[mid as int];
        if hashes[mid].less_than(hash) {
            assert forall|i: int| 0 <= i <= mid implies hashes@[i].spec_lt(*hash) by {
                keccak::lemma_lt_total(hashes@[i], at);
                if i < mid && hashes@[i] != at {
                    keccak::lemma_lt_transitive(hashes@[i], at, *hash);
                }
            }
            low = mid + 1;
        } else {
            assert forall|i: int| mid <= i < hashes@.len() implies !hashes@[i].spec_lt(*hash) by {
                keccak::lemma_lt_total(at, hashes@[i]);
                if i > mid && hashes@[i].spec_lt(*hash) && hashes@[i] != at {
                    keccak::lemma_lt_transitive(at, hashes@[i], *hash);
                }
            }
            high = mid;
        }
    }
    low
}

/// An ordered set of hashes.
#[derive(Debug)]
pub struct LeafSet {
    /// The members, in ascending order.
    hashes: Vec<KeccakHash>,
}

impl View for LeafSet {
    type V = Set<KeccakHash>;

    closed spec fn view(&self) -> Set<KeccakHash> {
        self.hashes@.to_set()
    }
}

/// A set of leaves has finitely many members.
pub proof fn lemma_members_finite(set: LeafSet)
    ensures
        set@.finite(),
{
    vstd::seq_lib::seq_to_set_is_finite(set.hashes@);
}

impl Clone for LeafSet {
    fn clone(&self) -> (set: LeafSet)
        ensures
            set@ == self@,
    {
        proof {
            use_type_invariant(self);
        }
        let hashes = self.hashes.clone();
        assert(hashes@ =~= self.hashes@);
        LeafSet { hashes }
    }
}

impl Default for LeafSet {
    /// The empty set.
    fn default() -> (set: LeafSet)
        ensures
            set@ == Set::<KeccakHash>::empty(),
    {
        LeafSet::new()
    }
}

impl LeafSet {
    #[verifier::type_invariant]
    spec fn sorted(self) -> bool {
        is_ascending(self.hashes@)
    }

    /// The empty set.
    pub fn new() -> (set: LeafSet)
        ensures
            set@ == Set::<KeccakHash>::empty(),
    {
        let set = LeafSet { hashes: Vec::new() };
        assert(set@ =~= Set::<KeccakHash>::empty());
        set
    }

    /// The number of members that come before the given hash.
    fn position(&self, hash: &KeccakHash) -> (pos: usize)
        ensures
            is_lower_bound(self.hashes@, *hash, pos as int),
    {
        proof {
            use_type_invariant(self);
            lemma_ascending_is_sorted(self.hashes@);
        }
        lower_bound(&self.hashes, hash)
    }

    /// Is the hash a member, given its position?
    fn is_at(&self, hash: &KeccakHash, pos: usize) -> (r: bool)
        requires
            is_lower_bound(self.hashes@, *hash, pos as int),
        ensures
            r == (pos < self.hashes@.len() && self.hashes@[pos as int] == *hash),
            r == self@.contains(*hash),
    {
        proof {
            use_type_invariant(self);
            keccak::lemma_lt_irreflexive(*hash);
            if self@.contains(*hash) {
                let i = choose|i: int| 0 <= i < self.hashes@.len() && self.hashes@[i] == *hash;
                assert(i >= pos);
                if i > pos {
                    assert(self.hashes@[pos as int].spec_lt(self.hashes@[i]));
                }
            }
        }
        pos < self.hashes.len() && self.hashes[pos] == *hash
    }

    /// Is the hash a member of the set?
    pub fn contains(&self, hash: &KeccakHash) -> (r: bool)
        ensures
            r == self@.contains(*hash),
    {
        let pos = self.position(hash);
        self.is_at(hash, pos)
    }

    /// Add a hash, and say whether it was new to the set.
    pub fn insert(&mut self, hash: KeccakHash) -> (r: bool)
        ensures
            final(self)@ == old(self)@.insert(hash),
            r == !old(self)@.contains(hash),
    {
        let pos = self.position(&hash);
        if self.is_at(&hash, pos) {
            assert(self@ =~= self@.insert(hash));
            return false;
        }
        proof {
            use_type_invariant(&*self);
        }
        let ghost before = self.hashes@;
        let mut hashes: Vec<KeccakHash> = Vec::new();
        std::mem::swap(&mut self.hashes, &mut hashes);
        hashes.insert(pos, hash);
        proof {
            lemma_insert(before, pos as int, hash);
        }
        self.hashes = hashes;
        true
    }

    /// Take a hash out, and say whether it was a member of the set.
    pub fn remove(&mut self, hash: &KeccakHash) -> (r: bool)
        ensures
            final(self)@ == old(self)@.remove(*hash),
            r == old(self)@.contains(*hash),
    {
        let pos = self.position(hash);
        if !self.is_at(hash, pos) {
            assert(self@ =~= self@.remove(*hash));
            return false;
        }
        proof {
            use_type_invariant(&*self);
        }
        let ghost before = self.hashes@;
        let mut hashes: Vec<KeccakHash> = Vec::new();
        std::mem::swap(&mut self.hashes, &mut hashes);
        hashes.remove(pos);
        proof {
            lemma_remove(before, pos as int);
        }
        self.hashes = hashes;
        true
    }

    /// The set of the given hashes.
    pub fn from_hashes(hashes: &Vec<KeccakHash>) -> (set: LeafSet)
        ensures
            set@ == hashes@.to_set(),
    {
        let mut set = LeafSet::new();
        let mut i: usize = 0;
        assert(hashes@.take(0).to_set() =~= Set::<KeccakHash>::empty());
        while i < hashes.len()
            invariant
                i <= hashes@.len(),
                set@ == hashes@.take(i as int).to_set(),
            decreases hashes@.len() - i,
        {
            set.insert(hashes[i]);
            proof {
                let before = hashes@.take(i as int);
                before.lemma_push_to_set_commute(hashes@[i as int]);
                assert(hashes@.take(i + 1) =~= before.push(hashes@[i as int]));
            }
            i += 1;
        }
        assert(hashes@.take(i as int) =~= hashes@);
        set
    }

    /// The members of the set, in ascending order.
    pub fn to_vec(&self) -> (hashes: Vec<KeccakHash>)
        ensures
            hashes@ == ascending(self@),
    {
        proof {
            use_type_invariant(self);
            lemma_ascending_of_members(self.hashes@);
        }
        let hashes = self.hashes.clone();
        assert(hashes@ =~= self.hashes@);
        hashes
    }

    /// The members of the set, in ascending order.
    pub fn as_slice(&self) -> (hashes: &[KeccakHash])
        ensures
            hashes@ == ascending(self@),
    {
        proof {
            use_type_invariant(self);
            lemma_ascending_of_members(self.hashes@);
        }
        self.hashes.as_slice()
    }
}

} // verus!
