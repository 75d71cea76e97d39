use vstd::prelude::*;

use std::collections::HashMap;
use std::collections::hash_map::Entry;

verus! {

broadcast use vstd::std_specs::hash::group_hash_axioms;

/// A stable interned identifier for a resource: the integrator assigns one
/// identifier per resource kind and keeps it stable for the process lifetime.
#[derive(Clone, Copy, PartialEq, Eq, Structural, Debug, Hash)]
pub struct ResourceId {
    id: u64,
}

impl ResourceId {
    pub closed spec fn view(self) -> u64 {
        self.id
    }

    pub fn new(id: u64) -> (r: ResourceId)
        ensures
            r@ == id,
    {
        ResourceId { id }
    }

    pub fn id_value(&self) -> (r: u64)
        ensures
            r == self@,
    {
        self.id
    }
}

/// The requested resource was never inserted; carries the identifier that
/// was asked for. The recoverable counterpart of a failed fetch.
#[derive(Clone, Copy, PartialEq, Eq, Structural, Debug)]
pub struct FetchError {
    resource: ResourceId,
}

impl FetchError {
    pub closed spec fn resource_spec(self) -> u64 {
        self.resource@
    }

    pub fn resource_id(&self) -> (r: ResourceId)
        ensures
            r@ == self.resource_spec(),
    {
        self.resource
    }
}

/// Pushed once for every first-time insertion of a resource, as an extension
/// point for observers interested in the set of resources changing.
#[derive(Clone, Copy, PartialEq, Eq, Structural, Debug)]
pub struct ResourcesChangeEvent {}

impl ResourcesChangeEvent {
    pub fn new() -> (r: ResourcesChangeEvent)
    {
        ResourcesChangeEvent {  }
    }
}

/// Anything that can live in the resource store; every type qualifies.
pub trait Resource {

}

impl<T> Resource for T {

}

/// The resource store: at most one instance per identifier, created lazily by
/// the factory handed to `insert`. Shared access goes through `&self`,
/// exclusive access through `&mut self`, so aliasing an exclusive borrow is
/// impossible rather than checked at run time.
pub struct World<R: Resource> {
    resources: HashMap<u64, R>,
    change_events: Vec<ResourcesChangeEvent>,
}

impl<R: Resource> World<R> {
    /// The stored resources, as a map from identifier to instance.
    pub closed spec fn view(self) -> Map<u64, R> {
        self.resources@
    }

    /// The change notifications pushed so far, oldest first.
    pub closed spec fn events(self) -> Seq<ResourcesChangeEvent> {
        self.change_events@
    }

    pub fn new() -> (w: World<R>)
        ensures
            w@ == Map::<u64, R>::empty(),
            w.events().len() == 0,
    {
        World { resources: HashMap::new(), change_events: Vec::new() }
    }

    /// Whether a resource with this identifier exists; takes no borrow.
    pub fn contains(&self, id: ResourceId) -> (r: bool)
        ensures
            r == self@.contains_key(id@),
    {
        self.resources.contains_key(&id.id_value())
    }

    /// Ensures a resource exists under `id` and hands back exclusive access
    /// to it: if none does, runs the factory and stores its result, recording
    /// one change event; if one does, leaves everything untouched (idempotent,
    /// the factory is not run).
    pub fn insert<F: FnOnce() -> R>(&mut self, id: ResourceId, create: F) -> (r: &mut R)
        requires
            create.requires(()),
        ensures
            final(self)@.contains_key(id@),
            final(self)@ == old(self)@.insert(id@, *final(r)),
            old(self)@.contains_key(id@) ==> *r == old(self)@[id@] && final(self).events() == old(
                self,
            ).events(),
            !old(self)@.contains_key(id@) ==> create.ensures((), *r) && final(self).events()
                == old(self).events().push(ResourcesChangeEvent {  }),
    {
        if !self.resources.contains_key(&id.id_value()) {
            let v = create();
            self.resources.insert(id.id_value(), v);
            self.change_events.push(ResourcesChangeEvent {  });
        }
        self.fetch_mut(id)
    }

    /// Shared access to an existing resource; absence is reported as a
    /// recoverable `FetchError` carrying the identifier.
    pub fn try_fetch(&self, id: ResourceId) -> (r: Result<&R, FetchError>)
        ensures
            match r {
                Ok(v) => self@.contains_key(id@) && *v == self@[id@],
                Err(e) => !self@.contains_key(id@) && e.resource_spec() == id@,
            },
    {
        match self.resources.get(&id.id_value()) {
            Some(v) => Ok(v),
            None => Err(FetchError { resource: id }),
        }
    }

    /// Shared access to a resource that must exist; asking for an absent one
    /// is a programming error, ruled out by the precondition.
    pub fn fetch(&self, id: ResourceId) -> (r: &R)
        requires
            self@.contains_key(id@),
        ensures
            *r == self@[id@],
    {
        match self.try_fetch(id) {
            Ok(v) => v,
            Err(_) => vstd::pervasive::unreached(),
        }
    }

    /// Exclusive access to a resource that must exist: the store afterwards
    /// holds whatever value the caller leaves behind the returned reference.
    pub fn fetch_mut(&mut self, id: ResourceId) -> (r: &mut R)
        requires
            old(self)@.contains_key(id@),
        ensures
            *r == old(self)@[id@],
            final(self)@ == old(self)@.insert(id@, *final(r)),
            final(self).events() == old(self).events(),
    {
        match self.resources.entry(id.id_value()) {
            Entry::Occupied(e) => e.into_mut(),
            Entry::Vacant(_) => vstd::pervasive::unreached(),
        }
    }

    /// Exclusive access to an existing resource; absence is reported as a
    /// recoverable `FetchError` carrying the identifier.
    pub fn try_fetch_mut(&mut self, id: ResourceId) -> (r: Result<&mut R, FetchError>)
        ensures
            match r {
                Ok(v) => old(self)@.contains_key(id@) && *v == old(self)@[id@] && final(self)@
                    == old(self)@.insert(id@, *final(v)) && final(self).events()
                    == old(self).events(),
                Err(e) => !old(self)@.contains_key(id@) && e.resource_spec() == id@
                    && *final(self) == *old(self),
            },
    {
        if self.contains(id) {
            Ok(self.fetch_mut(id))
        } else {
            Err(FetchError { resource: id })
        }
    }
}

impl<R: Resource> Default for World<R> {
    /// An empty store: no resources, no change events.
    fn default() -> (w: Self)
        ensures
            w@ == Map::<u64, R>::empty(),
            w.events().len() == 0,
    {
        World::new()
    }
}

} // verus!
