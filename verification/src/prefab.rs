use vstd::prelude::*;

use bimap::BiHashMap;
use crate::join::ComponentStorage;
use crate::join::MAX_ENTITY_INDEX;

verus! {

#[verifier::external_type_specification]
#[verifier::external_body]
#[verifier::reject_recursive_types(L)]
#[verifier::reject_recursive_types(R)]
#[verifier::reject_recursive_types(LS)]
#[verifier::reject_recursive_types(RS)]
pub struct ExBiHashMap<L, R, LS, RS>(BiHashMap<L, R, LS, RS>);

/// The left-right pairs held in a bimap over entity indices.
pub uninterp spec fn bimap_pairs(m: BiHashMap<u32, u32>) -> Set<(u32, u32)>;

/// Relies on bimap::BiHashMap::new: the new map holds no pair.
#[verifier::external_body]
fn bimap_new() -> (m: BiHashMap<u32, u32>)
    ensures
        bimap_pairs(m) == Set::<(u32, u32)>::empty(),
{
    BiHashMap::new()
}

/// Relies on bimap::BiHashMap::get_by_left: the right value paired with the
/// given left value, or `None` when no pair has that left value.
#[verifier::external_body]
fn bimap_get_by_left(m: &BiHashMap<u32, u32>, l: u32) -> (r: Option<u32>)
    ensures
        match r {
            Some(v) => bimap_pairs(*m).contains((l, v)),
            None => forall|v: u32| !(#[trigger] bimap_pairs(*m).contains((l, v))),
        },
{
    m.get_by_left(&l).copied()
}

/// Relies on bimap::BiHashMap::insert_no_overwrite: inserts the pair, unless
/// either value already occurs on its side, in which case the map is
/// unchanged and the pair comes back in the error.
#[verifier::external_body]
fn bimap_insert_no_overwrite(m: &mut BiHashMap<u32, u32>, l: u32, r: u32) -> (res: Result<
    (),
    (u32, u32),
>)
    ensures
        match res {
            Ok(_) => (forall|v: u32| !(#[trigger] bimap_pairs(*old(m)).contains((l, v)))) && (
            forall|u: u32| !(#[trigger] bimap_pairs(*old(m)).contains((u, r)))) && bimap_pairs(
                *final(m),
            ) == bimap_pairs(*old(m)).insert((l, r)),
            Err(p) => p == (l, r) && bimap_pairs(*final(m)) == bimap_pairs(*old(m)) && ((exists|
                v: u32,
            |
                #[trigger] bimap_pairs(*old(m)).contains((l, v))) || (exists|u: u32|
                #[trigger] bimap_pairs(*old(m)).contains((u, r)))),
        },
{
    m.insert_no_overwrite(l, r)
}

/// An entity: a stable index into the world's component storages.
#[derive(Clone, Copy, PartialEq, Eq, Structural, Debug, Hash)]
pub struct Entity {
    index: u32,
}

impl Entity {
    pub closed spec fn view(self) -> u32 {
        self.index
    }

    pub fn new(index: u32) -> (e: Entity)
        ensures
            e@ == index,
    {
        Entity { index }
    }

    pub fn index_value(&self) -> (r: u32)
        ensures
            r == self@,
    {
        self.index
    }
}

/// The entity allocator: hands out fresh indices in ascending order.
pub struct Entities {
    next_index: u32,
}

impl Entities {
    /// The next index to be handed out; all earlier ones are in use.
    pub closed spec fn view(self) -> u32 {
        self.next_index
    }

    pub fn new() -> (e: Entities)
        ensures
            e@ == 0,
    {
        Entities { next_index: 0 }
    }

    pub fn next_index_value(&self) -> (r: u32)
        ensures
            r == self@,
    {
        self.next_index
    }

    pub fn new_entity(&mut self) -> (e: Entity)
        requires
            old(self)@ < u32::MAX,
        ensures
            e@ == old(self)@,
            final(self)@ == old(self)@ + 1,
    {
        let e = Entity { index: self.next_index };
        self.next_index = self.next_index + 1;
        e
    }
}

impl Default for Entities {
    /// A fresh allocator, starting from index zero.
    fn default() -> (e: Self)
        ensures
            e@ == 0,
    {
        Entities::new()
    }
}

/// Every world-side index in the link map was handed out by the allocator,
/// so the next fresh index collides with none of them.
pub open spec fn rights_below(pairs: Set<(u32, u32)>, bound: u32) -> bool {
    forall|p: (u32, u32)| #[trigger] pairs.contains(p) ==> p.1 < bound
}

/// The translation, built up while a prefab is instantiated, between the
/// prefab's local entities and the world entities created for them; each
/// side maps to exactly one partner.
pub struct PrefabLink {
    map: BiHashMap<u32, u32>,
}

impl PrefabLink {
    /// The (local index, world index) pairs recorded so far.
    pub closed spec fn pairs(self) -> Set<(u32, u32)> {
        bimap_pairs(self.map)
    }

    /// Each local entity has one world entity and conversely.
    pub open spec fn wf(self) -> bool {
        forall|p1: (u32, u32), p2: (u32, u32)|
            #[trigger] self.pairs().contains(p1) && #[trigger] self.pairs().contains(p2) && (p1.0
                == p2.0 || p1.1 == p2.1) ==> p1 == p2
    }

    pub fn new() -> (l: PrefabLink)
        ensures
            l.wf(),
            l.pairs() == Set::<(u32, u32)>::empty(),
    {
        PrefabLink { map: bimap_new() }
    }

    /// The world entity standing for a local entity: the one recorded
    /// earlier, or a fresh one, recorded now.
    pub fn build_link(&mut self, local: Entity, entities: &mut Entities) -> (e: Entity)
        requires
            old(self).wf(),
            rights_below(old(self).pairs(), old(entities)@),
            old(entities)@ < u32::MAX,
        ensures
            final(self).wf(),
            rights_below(final(self).pairs(), final(entities)@),
            final(self).pairs().contains((local@, e@)),
            old(self).pairs().contains((local@, e@)) ==> final(self).pairs() == old(self).pairs()
                && final(entities)@ == old(entities)@,
            !old(self).pairs().contains((local@, e@)) ==> e@ == old(entities)@ && final(entities)@
                == old(entities)@ + 1 && final(self).pairs() == old(self).pairs().insert(
                (local@, e@),
            ),
            old(entities)@ <= final(entities)@ <= old(entities)@ + 1,
    {
        match bimap_get_by_left(&self.map, local.index_value()) {
            Some(v) => Entity::new(v),
            None => {
                let e = entities.new_entity();
                let res = bimap_insert_no_overwrite(&mut self.map, local.index_value(), e.index_value());
                match res {
                    Ok(_) => {
                        proof {
                            assert forall|p1: (u32, u32), p2: (u32, u32)|
                                #[trigger] self.pairs().contains(p1)
                                    && #[trigger] self.pairs().contains(p2) && (p1.0 == p2.0 || p1.1
                                    == p2.1) implies p1 == p2 by {
                                let np = (local@, e@);
                                if p1 != np && p2 != np {
                                    assert(old(self).pairs().contains(p1));
                                    assert(old(self).pairs().contains(p2));
                                }
                            }
                        }
                        e
                    },
                    Err(_) => vstd::pervasive::unreached(),
                }
            },
        }
    }
}

/// A value holding entity references that must be retargeted from a
/// prefab's local entities to the world entities standing for them.
pub trait ConvertToWorld {
    /// Replaces each held local entity by its world counterpart, recording
    /// fresh links as needed.
    fn convert_to_world(&mut self, link: &mut PrefabLink, entities: &mut Entities)
        requires
            old(link).wf(),
            rights_below(old(link).pairs(), old(entities)@),
            old(entities)@ < u32::MAX,
        ensures
            final(link).wf(),
            rights_below(final(link).pairs(), final(entities)@),
            old(entities)@ <= final(entities)@,
    ;
}

impl ConvertToWorld for Entity {
    fn convert_to_world(&mut self, link: &mut PrefabLink, entities: &mut Entities) {
        *self = link.build_link(*self, entities);
    }
}

/// The components of one kind that a prefab will instantiate, each tied to a
/// local entity of the prefab.
pub struct ComponentStorageInPrefab<C> {
    components: Vec<C>,
    entities: Vec<Entity>,
}

impl<C> ComponentStorageInPrefab<C> {
    pub closed spec fn components_view(self) -> Seq<C> {
        self.components@
    }

    pub closed spec fn entities_view(self) -> Seq<Entity> {
        self.entities@
    }

    pub open spec fn wf(self) -> bool {
        self.components_view().len() == self.entities_view().len()
    }

    pub fn insert(&mut self, entity: Entity, component: C)
        ensures
            final(self).entities_view() == old(self).entities_view().push(entity),
            final(self).components_view() == old(self).components_view().push(component),
    {
        self.entities.push(entity);
        self.components.push(component);
    }
}

impl<C> Default for ComponentStorageInPrefab<C> {
    /// An empty prefab storage.
    fn default() -> (s: Self)
        ensures
            s.wf(),
            s.components_view().len() == 0,
            s.entities_view().len() == 0,
    {
        ComponentStorageInPrefab { components: Vec::new(), entities: Vec::new() }
    }
}

/// The entity allocator crossed the index bound of the presence bitsets, so
/// an instantiation could not be completed.
#[derive(Clone, Copy, PartialEq, Eq, Structural, Debug)]
pub struct EntityIndicesExhausted {}

impl<C: Clone + ConvertToWorld> ComponentStorageInPrefab<C> {
    /// Instantiates these components into a world storage: each local entity
    /// is translated through the link (allocating world entities as needed),
    /// each component's own entity references are retargeted the same way,
    /// and the component is stored under the translated entity. Fails only
    /// when the allocator crosses the storages' index bound.
    pub fn attach(
        &self,
        target: &mut ComponentStorage<C>,
        link: &mut PrefabLink,
        entities: &mut Entities,
    ) -> (r: Result<(), EntityIndicesExhausted>)
        requires
            self.wf(),
            old(target).wf(),
            old(link).wf(),
            rights_below(old(link).pairs(), old(entities)@),
            old(entities)@ <= MAX_ENTITY_INDEX,
        ensures
            final(target).wf(),
            final(link).wf(),
            rights_below(final(link).pairs(), final(entities)@),
            r is Err ==> final(entities)@ >= MAX_ENTITY_INDEX,
            r is Ok ==> final(entities)@ <= MAX_ENTITY_INDEX,
    {
        let n = self.entities.len();
        let mut t: usize = 0;
        while t < n
            invariant
                t <= n,
                n == self.entities_view().len(),
                self.wf(),
                target.wf(),
                link.wf(),
                rights_below(link.pairs(), entities@),
                entities@ <= MAX_ENTITY_INDEX,
            decreases n - t,
        {
            let mut component = self.components[t].clone();
            component.convert_to_world(link, entities);
            if entities.next_index_value() >= MAX_ENTITY_INDEX {
                return Err(EntityIndicesExhausted {  });
            }
            let world_entity = link.build_link(self.entities[t], entities);
            proof {
                assert(link.pairs().contains((self.entities_view()[t as int]@, world_entity@)));
            }
            target.insert(world_entity.index_value(), component);
            t = t + 1;
        }
        Ok(())
    }
}

/// A prefab's root: the local entity under which the instantiation records
/// its link once all component storages are attached.
pub struct Prefab {
    root_entity: Entity,
}

impl Prefab {
    pub closed spec fn root_spec(self) -> u32 {
        self.root_entity@
    }

    pub fn new(root_entity: Entity) -> (p: Prefab)
        ensures
            p.root_spec() == root_entity@,
    {
        Prefab { root_entity }
    }

    /// Finishes an instantiation: translates the root entity and stores the
    /// completed link under it.
    pub fn attach(
        &self,
        link: PrefabLink,
        entities: &mut Entities,
        prefab_links: &mut ComponentStorage<PrefabLink>,
    )
        requires
            link.wf(),
            rights_below(link.pairs(), old(entities)@),
            old(entities)@ < MAX_ENTITY_INDEX,
            old(prefab_links).wf(),
        ensures
            final(prefab_links).wf(),
            final(entities)@ <= old(entities)@ + 1,
    {
        let mut link = link;
        let root = link.build_link(Entity { index: self.root_entity.index_value() }, entities);
        prefab_links.insert(root.index_value(), link);
    }
}

} // verus!
