//! Segment identifiers and small sets of them.
use vstd::prelude::*;
use std::collections::HashSet;

verus! {

broadcast use vstd::std_specs::hash::group_hash_axioms;

/// Identifies one segment: the memory pool it was cut from and its position in
/// that pool.
#[derive(Clone, Copy, Debug, PartialEq, Eq, Hash, Structural)]
pub struct SegmentId {
    pub slab_id: u64,
    pub index: usize,
}

impl SegmentId {
    /// The identifier packed into one integer: the pool in the high 64 bits, the
    /// position in the low 64 bits.
    pub open spec fn spec_key(self) -> u128 {
        (self.slab_id as u128 * 0x1_0000_0000_0000_0000u128 + self.index as u128) as u128
    }

    /// The identifier of segment number `index` of memory pool `slab_id`.
    pub fn new(slab_id: u64, index: usize) -> (id: SegmentId)
        ensures
            id == (SegmentId { slab_id, index }),
    {
        SegmentId { slab_id, index }
    }

    /// The identifier packed into one integer, as the registry keys it.
    pub fn key(&self) -> (k: u128)
        ensures
            k == self.spec_key(),
    {
        (self.slab_id as u128) * 0x1_0000_0000_0000_0000u128 + (self.index as u128)
    }

    /// Distinct identifiers have distinct keys.
    pub proof fn lemma_key_injective(a: SegmentId, b: SegmentId)
        requires
            a.spec_key() == b.spec_key(),
        ensures
            a == b,
    {
    }
}

/// A finite set of segment identifiers that remembers in which order they were
/// inserted.
///
/// Membership is kept in a hash set of packed identifiers. A hash set has no
/// order of its own, so the members are listed beside it in the order in which
/// they came: walking the set always goes the same way.
#[derive(Debug)]
pub struct SegmentSet {
    items: Vec<SegmentId>,
    members: HashSet<u128>,
}

impl View for SegmentSet {
    type V = Set<SegmentId>;

    closed spec fn view(&self) -> Set<SegmentId> {
        self.items@.to_set()
    }
}

/// Whether `keys` are the packed identifiers of `items`.
pub open spec fn keys_of(keys: Set<u128>, items: Seq<SegmentId>) -> bool {
    &&& forall|i: int| 0 <= i < items.len() ==> keys.contains((#[trigger] items[i]).spec_key())
    &&& forall|k: u128| #[trigger]
        keys.contains(k) ==> exists|i: int| 0 <= i < items.len() && (#[trigger] items[i]).spec_key() == k
}

/// A key is among the packed identifiers exactly if its identifier is listed.
pub proof fn lemma_keys_of(keys: Set<u128>, items: Seq<SegmentId>, id: SegmentId)
    requires
        keys_of(keys, items),
    ensures
        keys.contains(id.spec_key()) <==> items.contains(id),
{
    if keys.contains(id.spec_key()) {
        let i = choose|i: int| 0 <= i < items.len() && (#[trigger] items[i]).spec_key() == id.spec_key();
        SegmentId::lemma_key_injective(items[i], id);
        assert(items[i] == id);
    }
    if items.contains(id) {
        let i = items.index_of(id);
        assert(items[i] == id);
    }
}

impl SegmentSet {
    #[verifier::type_invariant]
    spec fn distinct(self) -> bool {
        &&& self.items@.no_duplicates()
        &&& keys_of(self.members@, self.items@)
    }

    /// The members in the order in which they were inserted.
    pub closed spec fn order(&self) -> Seq<SegmentId> {
        self.items@
    }

    /// The set is what its order lists; it is finite.
    pub proof fn lemma_view_of_order(&self)
        ensures
            self@ == self.order().to_set(),
            self@.finite(),
    {
        vstd::seq_lib::seq_to_set_is_finite(self.items@);
    }

    /// The empty set.
    pub fn new() -> (set: SegmentSet)
        ensures
            set@ == Set::<SegmentId>::empty(),
            set.order() == Seq::<SegmentId>::empty(),
    {
        let set = SegmentSet { items: Vec::new(), members: HashSet::new() };
        assert(set.items@.to_set() =~= Set::<SegmentId>::empty());
        set
    }

    /// The number of members.
    pub fn len(&self) -> (n: usize)
        ensures
            n == self@.len(),
            n == self.order().len(),
            self.order().no_duplicates(),
            self@.finite(),
    {
        proof {
            use_type_invariant(self);
            self.items@.unique_seq_to_set();
            vstd::seq_lib::seq_to_set_is_finite(self.items@);
        }
        self.items.len()
    }

    /// The member at position `i` of the insertion order.
    pub fn get(&self, i: usize) -> (id: SegmentId)
        requires
            i < self.order().len(),
        ensures
            id == self.order()[i as int],
            self@.contains(id),
    {
        self.items[i]
    }

    /// Whether `id` is a member.
    pub fn contains(&self, id: SegmentId) -> (found: bool)
        ensures
            found == self@.contains(id),
    {
        proof {
            use_type_invariant(self);
            lemma_keys_of(self.members@, self.items@, id);
        }
        self.members.contains(&id.key())
    }

    /// Adds `id`; says whether it was new.
    pub fn insert(&mut self, id: SegmentId) -> (fresh: bool)
        ensures
            final(self)@ == old(self)@.insert(id),
            fresh == !old(self)@.contains(id),
            final(self).order() == (if fresh {
                old(self).order().push(id)
            } else {
                old(self).order()
            }),
    {
        proof {
            use_type_invariant(&*self);
        }
        if self.contains(id) {
            assert(self.items@.to_set().insert(id) =~= self.items@.to_set());
            false
        } else {
            let mut taken = SegmentSet::new();
            std::mem::swap(self, &mut taken);
            let SegmentSet { mut items, mut members } = taken;
            let ghost before = items@;
            let ghost keys = members@;
            members.insert(id.key());
            items.push(id);
            proof {
                before.lemma_push_to_set_commute(id);
                assert forall|i: int| 0 <= i < items@.len() implies members@.contains(
                    (#[trigger] items@[i]).spec_key(),
                ) by {
                    if i < before.len() {
                        assert(keys.contains(before[i].spec_key()));
                    }
                }
                assert forall|k: u128| #[trigger] members@.contains(k) implies exists|i: int|
                    0 <= i < items@.len() && (#[trigger] items@[i]).spec_key() == k by {
                    if k == id.spec_key() {
                        assert(items@[before.len() as int].spec_key() == k);
                    } else {
                        let j = choose|j: int|
                            0 <= j < before.len() && (#[trigger] before[j]).spec_key() == k;
                        assert(items@[j].spec_key() == k);
                    }
                }
            }
            *self = SegmentSet { items, members };
            true
        }
    }

    /// Removes `id`; says whether it was a member.
    pub fn remove(&mut self, id: SegmentId) -> (present: bool)
        ensures
            final(self)@ == old(self)@.remove(id),
            present == old(self)@.contains(id),
            final(self).order() == (if present {
                old(self).order().remove(old(self).order().index_of(id))
            } else {
                old(self).order()
            }),
    {
        proof {
            use_type_invariant(&*self);
        }
        if !self.contains(id) {
            assert(self.items@.to_set().remove(id) =~= self.items@.to_set());
            return false;
        }
        let mut i: usize = 0;
        while i < self.items.len() && !(self.items[i] == id)
            invariant
                i <= self.items.len(),
                self.items@ == old(self).items@,
                self.members@ == old(self).members@,
                self.items@.contains(id),
                forall|j: int| 0 <= j < i ==> self.items@[j] != id,
            decreases self.items.len() - i,
        {
            i += 1;
        }
        proof {
            if i == self.items.len() {
                let j = self.items@.index_of(id);
                assert(self.items@[j] == id);
            }
        }
        let mut taken = SegmentSet::new();
        std::mem::swap(self, &mut taken);
        let SegmentSet { mut items, mut members } = taken;
        let ghost before = items@;
        let ghost keys = members@;
        members.remove(&id.key());
        items.remove(i);
        proof {
            assert(before.index_of(id) == i as int);
            let after = items@;
            assert(after == before.remove(i as int));
            assert(after.no_duplicates());
            assert(after.to_set() =~= before.to_set().remove(id)) by {
                assert forall|x: SegmentId| after.to_set().contains(x) implies before.to_set().remove(
                    id,
                ).contains(x) by {
                    let j = choose|j: int| 0 <= j < after.len() && after[j] == x;
                    if j < i {
                        assert(before[j] == x);
                    } else {
                        assert(before[j + 1] == x);
                    }
                }
                assert forall|x: SegmentId| before.to_set().remove(id).contains(x) implies after.to_set().contains(
                    x,
                ) by {
                    let j = choose|j: int| 0 <= j < before.len() && before[j] == x;
                    if j < i {
                        assert(after[j] == x);
                    } else {
                        assert(after[j - 1] == x);
                    }
                }
            }
            assert forall|j: int| 0 <= j < after.len() implies members@.contains(
                (#[trigger] after[j]).spec_key(),
            ) by {
                let from = if j < i {
                    j
                } else {
                    j + 1
                };
                assert(after[j] == before[from]);
                assert(keys.contains(before[from].spec_key()));
                if before[from].spec_key() == id.spec_key() {
                    SegmentId::lemma_key_injective(before[from], id);
                }
            }
            assert forall|k: u128| #[trigger] members@.contains(k) implies exists|j: int|
                0 <= j < after.len() && (#[trigger] after[j]).spec_key() == k by {
                let from = choose|j: int|
                    0 <= j < before.len() && (#[trigger] before[j]).spec_key() == k;
                if from < i {
                    assert(after[from].spec_key() == k);
                } else {
                    assert(from != i);
                    assert(after[from - 1].spec_key() == k);
                }
            }
        }
        *self = SegmentSet { items, members };
        true
    }
}

impl Clone for SegmentSet {
    fn clone(&self) -> (copy: SegmentSet)
        ensures
            copy@ == self@,
            copy.order() == self.order(),
    {
        proof {
            use_type_invariant(self);
        }
        let mut items: Vec<SegmentId> = Vec::new();
        let mut members: HashSet<u128> = HashSet::new();
        let mut i: usize = 0;
        while i < self.items.len()
            invariant
                i <= self.items.len(),
                items@ == self.items@.take(i as int),
                keys_of(members@, items@),
            decreases self.items.len() - i,
        {
            let id = self.items[i];
            let ghost before = items@;
            let ghost keys = members@;
            members.insert(id.key());
            items.push(id);
            proof {
                assert forall|j: int| 0 <= j < items@.len() implies members@.contains(
                    (#[trigger] items@[j]).spec_key(),
                ) by {
                    if j < before.len() {
                        assert(keys.contains(before[j].spec_key()));
                    }
                }
                assert forall|k: u128| #[trigger] members@.contains(k) implies exists|j: int|
                    0 <= j < items@.len() && (#[trigger] items@[j]).spec_key() == k by {
                    if keys.contains(k) {
                        let j = choose|j: int|
                            0 <= j < before.len() && (#[trigger] before[j]).spec_key() == k;
                        assert(items@[j].spec_key() == k);
                    } else {
                        assert(items@[before.len() as int].spec_key() == k);
                    }
                }
            }
            i += 1;
        }
        assert(items@ =~= self.items@);
        SegmentSet { items, members }
    }
}

} // verus!
