use vstd::prelude::*;

use std::collections::HashMap;
use hibitset::BitSet;
use hibitset::BitSetLike;

verus! {

broadcast use vstd::std_specs::hash::group_hash_axioms;

#[verifier::external_type_specification]
#[verifier::external_body]
pub struct ExBitSet(BitSet);

/// The set of indices placed in a hibitset presence bitset.
pub uninterp spec fn bitset_elems(b: BitSet) -> Set<u32>;

/// Indices beyond this bound can make hibitset's fixed four-layer structure
/// panic (its capacity is two to the twentieth on the smallest supported
/// word size), so every index handed to it stays below.
pub const MAX_ENTITY_INDEX: u32 = 0x0010_0000;

/// Relies on hibitset::BitSet::new: the new set holds no index.
#[verifier::external_body]
fn bitset_new() -> (b: BitSet)
    ensures
        bitset_elems(b) == Set::<u32>::empty(),
{
    BitSet::new()
}

/// Relies on hibitset::BitSet::add: places one index in the set and reports
/// whether it was already there; indices over the capacity bound panic and
/// are excluded here.
#[verifier::external_body]
fn bitset_add(b: &mut BitSet, id: u32) -> (was: bool)
    requires
        id < MAX_ENTITY_INDEX,
    ensures
        bitset_elems(*final(b)) == bitset_elems(*old(b)).insert(id),
        was == bitset_elems(*old(b)).contains(id),
{
    b.add(id)
}

/// Relies on hibitset::BitSet::contains.
#[verifier::external_body]
fn bitset_contains(b: &BitSet, id: u32) -> (r: bool)
    ensures
        r == bitset_elems(*b).contains(id),
{
    b.contains(id)
}

/// Relies on hibitset's BitIter (through BitSetLike::iter), which yields the
/// set indices in ascending order, lowest bit of each layer first.
#[verifier::external_body]
fn bitset_to_vec(b: &BitSet) -> (r: Vec<u32>)
    ensures
        forall|k1: int, k2: int| 0 <= k1 < k2 < r@.len() ==> r@[k1] < r@[k2],
        forall|k: int| 0 <= k < r@.len() ==> bitset_elems(*b).contains(#[trigger] r@[k]),
        forall|id: u32| #[trigger] bitset_elems(*b).contains(id) ==> r@.contains(id),
{
    b.iter().collect()
}

/// One component kind's storage: a presence bitset over entity indices and
/// the component value for each present index.
pub struct ComponentStorage<C> {
    mask: BitSet,
    data: HashMap<u32, C>,
}

impl<C> ComponentStorage<C> {
    /// The stored components, keyed by entity index.
    pub closed spec fn view(self) -> Map<u32, C> {
        self.data@
    }

    /// The presence bitset lists exactly the stored indices.
    pub closed spec fn wf(self) -> bool {
        bitset_elems(self.mask) == self.data@.dom()
    }

    pub fn new() -> (s: ComponentStorage<C>)
        ensures
            s.wf(),
            s@ == Map::<u32, C>::empty(),
    {
        let s = ComponentStorage { mask: bitset_new(), data: HashMap::new() };
        proof {
            assert(s@.dom() =~= Set::<u32>::empty());
        }
        s
    }

    /// Stores a component for an entity index, replacing any previous one.
    pub fn insert(&mut self, id: u32, component: C)
        requires
            old(self).wf(),
            id < MAX_ENTITY_INDEX,
        ensures
            final(self).wf(),
            final(self)@ == old(self)@.insert(id, component),
    {
        bitset_add(&mut self.mask, id);
        self.data.insert(id, component);
        proof {
            assert(bitset_elems(self.mask) =~= self.data@.dom());
        }
    }

    /// Whether a component is stored for this index; reads the bitset alone.
    pub fn contains_id(&self, id: u32) -> (r: bool)
        requires
            self.wf(),
        ensures
            r == self@.contains_key(id),
    {
        bitset_contains(&self.mask, id)
    }

    /// The component for a present index. The presence precondition is the
    /// contract every storage adapter keeps; the public iterators only ever
    /// call this with indices of their surviving mask, so it is unreachable
    /// with an absent one.
    pub fn get(&self, id: u32) -> (c: &C)
        requires
            self.wf(),
            self@.contains_key(id),
        ensures
            *c == self@[id],
    {
        match self.data.get(&id) {
            Some(c) => c,
            None => vstd::pervasive::unreached(),
        }
    }

    /// The present indices in ascending order.
    pub fn ids(&self) -> (r: Vec<u32>)
        requires
            self.wf(),
        ensures
            forall|k1: int, k2: int| 0 <= k1 < k2 < r@.len() ==> r@[k1] < r@[k2],
            forall|k: int| 0 <= k < r@.len() ==> self@.contains_key(#[trigger] r@[k]),
            forall|id: u32| #[trigger] self@.contains_key(id) ==> r@.contains(id),
    {
        bitset_to_vec(&self.mask)
    }
}

/// A source of components that a query can span: a presence set, an accessor
/// defined exactly on it, and an enumeration of it in ascending order.
/// Composing two sources intersects their presence sets, so the composite is
/// itself a source and composition is order-independent in the result set.
pub trait Join: Sized {
    type Component;

    /// The source's own well-formedness; what a storage adapter must keep.
    spec fn inv(&self) -> bool;

    /// The presence set: the identifiers this source has a component for.
    spec fn mask(&self) -> Set<u32>;

    /// The component held for a present identifier.
    spec fn value(&self, id: u32) -> Self::Component;

    fn contains(&self, id: u32) -> (r: bool)
        requires
            self.inv(),
        ensures
            r == self.mask().contains(id),
    ;

    /// The accessor: defined only on present identifiers, and never reached
    /// with any other through the public iterator.
    fn get(&self, id: u32) -> (c: Self::Component)
        requires
            self.inv(),
            self.mask().contains(id),
        ensures
            c == self.value(id),
    ;

    /// The present identifiers in ascending order.
    fn ids(&self) -> (r: Vec<u32>)
        requires
            self.inv(),
        ensures
            forall|k1: int, k2: int| 0 <= k1 < k2 < r@.len() ==> r@[k1] < r@[k2],
            forall|k: int| 0 <= k < r@.len() ==> self.mask().contains(#[trigger] r@[k]),
            forall|id: u32| #[trigger] self.mask().contains(id) ==> r@.contains(id),
    ;

}

/// A single-pass lazy iterator over a source's surviving identifiers in
/// ascending order; to iterate again, construct a fresh join from the same
/// sources.
pub fn join<J: Join>(source: J) -> (it: JoinIterator<J>)
    requires
        source.inv(),
    ensures
        it.wf(),
        it.source_spec() == source,
        it.cursor_spec() == 0,
        forall|k1: int, k2: int|
            0 <= k1 < k2 < it.ids_view().len() ==> it.ids_view()[k1] < it.ids_view()[k2],
        forall|k: int|
            0 <= k < it.ids_view().len() ==> source.mask().contains(#[trigger] it.ids_view()[k]),
        forall|id: u32| #[trigger] source.mask().contains(id) ==> it.ids_view().contains(id),
{
    let ids = source.ids();
    JoinIterator { ids, cursor: 0, source }
}

/// Lazily yields, in ascending identifier order, the component of each
/// identifier present in the joined source.
pub struct JoinIterator<J: Join> {
    ids: Vec<u32>,
    cursor: usize,
    source: J,
}

impl<J: Join> JoinIterator<J> {
    pub closed spec fn ids_view(self) -> Seq<u32> {
        self.ids@
    }

    pub closed spec fn cursor_spec(self) -> int {
        self.cursor as int
    }

    pub closed spec fn source_spec(self) -> J {
        self.source
    }

    pub open spec fn wf(self) -> bool {
        &&& self.source_spec().inv()
        &&& 0 <= self.cursor_spec() <= self.ids_view().len()
        &&& forall|k: int|
            0 <= k < self.ids_view().len() ==> self.source_spec().mask().contains(
                #[trigger] self.ids_view()[k],
            )
    }

    /// The next surviving identifier's component, or `None` when exhausted.
    pub fn next(&mut self) -> (r: Option<J::Component>)
        requires
            old(self).wf(),
        ensures
            final(self).wf(),
            final(self).ids_view() == old(self).ids_view(),
            final(self).source_spec() == old(self).source_spec(),
            old(self).cursor_spec() < old(self).ids_view().len() ==> {
                &&& final(self).cursor_spec() == old(self).cursor_spec() + 1
                &&& r == Some(
                    old(self).source_spec().value(old(self).ids_view()[old(self).cursor_spec()]),
                )
            },
            old(self).cursor_spec() == old(self).ids_view().len() ==> r is None
                && final(self).cursor_spec() == old(self).cursor_spec(),
    {
        if self.cursor < self.ids.len() {
            let id = self.ids[self.cursor];
            self.cursor = self.cursor + 1;
            Some(self.source.get(id))
        } else {
            None
        }
    }
}

impl<'a, C> Join for &'a ComponentStorage<C> {
    type Component = &'a C;

    open spec fn inv(&self) -> bool {
        (**self).wf()
    }

    open spec fn mask(&self) -> Set<u32> {
        (**self)@.dom()
    }

    open spec fn value(&self, id: u32) -> &'a C {
        &(**self)@[id]
    }

    fn contains(&self, id: u32) -> (r: bool) {
        (**self).contains_id(id)
    }

    fn get(&self, id: u32) -> (c: &'a C) {
        (**self).get(id)
    }

    fn ids(&self) -> (r: Vec<u32>) {
        (**self).ids()
    }
}

/// The composite of two sources: present exactly where both are, yielding
/// the pair of their components.
impl<A: Join, B: Join> Join for (A, B) {
    type Component = (A::Component, B::Component);

    open spec fn inv(&self) -> bool {
        self.0.inv() && self.1.inv()
    }

    open spec fn mask(&self) -> Set<u32> {
        self.0.mask().intersect(self.1.mask())
    }

    open spec fn value(&self, id: u32) -> (A::Component, B::Component) {
        (self.0.value(id), self.1.value(id))
    }

    fn contains(&self, id: u32) -> (r: bool) {
        let r0 = self.0.contains(id);
        let r1 = self.1.contains(id);
        r0 && r1
    }

    fn get(&self, id: u32) -> (c: (A::Component, B::Component)) {
        (self.0.get(id), self.1.get(id))
    }

    fn ids(&self) -> (r: Vec<u32>) {
        let base = self.0.ids();
        let n = base.len();
        let mut r: Vec<u32> = Vec::new();
        let mut k: usize = 0;
        while k < n
            invariant
                self.0.inv(),
                self.1.inv(),
                k <= n,
                n == base@.len(),
                forall|k1: int, k2: int| 0 <= k1 < k2 < base@.len() ==> base@[k1] < base@[k2],
                forall|k2: int|
                    0 <= k2 < base@.len() ==> self.0.mask().contains(#[trigger] base@[k2]),
                forall|id: u32| #[trigger] self.0.mask().contains(id) ==> base@.contains(id),
                forall|t1: int, t2: int| 0 <= t1 < t2 < r@.len() ==> r@[t1] < r@[t2],
                forall|t: int|
                    0 <= t < r@.len() ==> self.mask().contains(#[trigger] r@[t]),
                forall|t: int|
                    0 <= t < r@.len() ==> exists|k2: int|
                        0 <= k2 < k && base@[k2] == #[trigger] r@[t],
                forall|k2: int|
                    0 <= k2 < k && self.1.mask().contains(#[trigger] base@[k2]) ==> r@.contains(
                        base@[k2],
                    ),
            decreases n - k,
        {
            let id = base[k];
            if self.1.contains(id) {
                let ghost r_pre = r@;
                r.push(id);
                proof {
                    assert(r@[r_pre.len() as int] == id);
                    assert forall|t1: int, t2: int|
                        0 <= t1 < t2 < r@.len() implies r@[t1] < r@[t2] by {
                        if t2 == r_pre.len() as int {
                            let k2 = choose|k2: int|
                                0 <= k2 < k && base@[k2] == #[trigger] r_pre[t1];
                            assert(base@[k2] < base@[k as int]);
                        }
                    }
                    assert forall|k2: int|
                        0 <= k2 < k + 1 && self.1.mask().contains(#[trigger] base@[k2])
                            implies r@.contains(base@[k2]) by {
                        if k2 < k {
                            let t = choose|t: int| 0 <= t < r_pre.len() && r_pre[t] == base@[k2];
                            assert(r@[t] == base@[k2]);
                        } else {
                            assert(r@[r_pre.len() as int] == base@[k2]);
                        }
                    }
                }
            } else {
                proof {
                    assert forall|k2: int|
                        0 <= k2 < k + 1 && self.1.mask().contains(#[trigger] base@[k2])
                            implies r@.contains(base@[k2]) by {
                        if k2 == k as int {
                            assert(false);
                        }
                    }
                }
            }
            k = k + 1;
        }
        proof {
            assert forall|id: u32| #[trigger] self.mask().contains(id) implies r@.contains(id) by {
                assert(self.0.mask().contains(id));
                assert(base@.contains(id));
                let k2 = choose|k2: int| 0 <= k2 < base@.len() && base@[k2] == id;
                assert(self.1.mask().contains(base@[k2]));
            }
        }
        r
    }
}

/// Law: composing two sources in either order yields the same surviving
/// identifier set, and the same pair of components for each survivor, only
/// tupled the other way around.
pub proof fn lemma_join_commutes<A: Join, B: Join>(ab: (A, B), ba: (B, A))
    requires
        ab.0 == ba.1,
        ab.1 == ba.0,
    ensures
        ab.mask() == ba.mask(),
        forall|id: u32|
            ab.mask().contains(id) ==> (#[trigger] ab.value(id)).0 == ba.value(id).1
                && ab.value(id).1 == ba.value(id).0,
{
    assert(ab.mask() =~= ba.mask());
}

/// Law: composition associates: grouping three sources either way yields the
/// same surviving identifier set, and the same three components for each
/// survivor, only tupled differently.
pub proof fn lemma_join_associates<A: Join, B: Join, C: Join>(lhs: ((A, B), C), rhs: (A, (B, C)))
    requires
        lhs.0.0 == rhs.0,
        lhs.0.1 == rhs.1.0,
        lhs.1 == rhs.1.1,
    ensures
        lhs.mask() == rhs.mask(),
        forall|id: u32|
            lhs.mask().contains(id) ==> (#[trigger] lhs.value(id)).0.0 == rhs.value(id).0
                && lhs.value(id).0.1 == rhs.value(id).1.0 && lhs.value(id).1 == rhs.value(id).1.1,
{
    assert(lhs.mask() =~= rhs.mask());
}

} // verus!
