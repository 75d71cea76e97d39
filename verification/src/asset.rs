use vstd::prelude::*;

use std::collections::HashMap;
use crate::registry::str_views;

verus! {

broadcast use vstd::std_specs::hash::group_hash_axioms;

/// Interns asset paths: the first request for a path coins the next dense
/// identifier, later requests for the same path return the same one.
pub struct AssetDirectory {
    paths: Vec<String>,
}

impl AssetDirectory {
    /// The interned paths; a path's identifier is its position here.
    pub closed spec fn paths_view(self) -> Seq<Seq<char>> {
        str_views(self.paths@)
    }

    /// No path is interned twice.
    pub open spec fn wf(self) -> bool {
        forall|k1: int, k2: int|
            0 <= k1 < k2 < self.paths_view().len() ==> self.paths_view()[k1]
                != self.paths_view()[k2]
    }

    pub open spec fn has_path(self, p: Seq<char>) -> bool {
        exists|k: int| 0 <= k < self.paths_view().len() && #[trigger] self.paths_view()[k] == p
    }

    pub open spec fn path_index(self, p: Seq<char>) -> int {
        choose|k: int| 0 <= k < self.paths_view().len() && #[trigger] self.paths_view()[k] == p
    }

    pub fn new() -> (d: AssetDirectory)
        ensures
            d.wf(),
            d.paths_view().len() == 0,
    {
        AssetDirectory { paths: Vec::new() }
    }

    /// The identifier for a path, coining the next one on first sight; the
    /// flag says whether the path was new.
    pub fn lookup_or_register(&mut self, path: String) -> (r: (u64, bool))
        requires
            old(self).wf(),
        ensures
            final(self).wf(),
            r.1 == !old(self).has_path(path@),
            old(self).has_path(path@) ==> *final(self) == *old(self) && r.0 == old(
                self,
            ).path_index(path@),
            !old(self).has_path(path@) ==> final(self).paths_view() == old(self).paths_view().push(
                path@,
            ) && r.0 == old(self).paths_view().len(),
    {
        let ghost pre = self.paths@;
        let n = self.paths.len();
        let mut k: usize = 0;
        while k < n
            invariant
                k <= n,
                n == self.paths@.len(),
                *self == *old(self),
                self.wf(),
                forall|k2: int| 0 <= k2 < k ==> (#[trigger] self.paths@[k2])@ != path@,
            decreases n - k,
        {
            if self.paths[k].eq(&path) {
                proof {
                    assert(str_views(self.paths@)[k as int] == self.paths@[k as int]@);
                    assert(self.paths_view()[k as int] == path@);
                    assert(self.has_path(path@));
                    let ix = self.path_index(path@);
                    if ix < k as int {
                        assert(self.paths_view()[ix] != self.paths_view()[k as int]);
                    } else if (k as int) < ix {
                        assert(self.paths_view()[k as int] != self.paths_view()[ix]);
                    }
                }
                return (k as u64, false);
            }
            proof {
                assert(str_views(self.paths@)[k as int] == self.paths@[k as int]@);
            }
            k = k + 1;
        }
        proof {
            if self.has_path(path@) {
                let k2 = self.path_index(path@);
                assert(str_views(pre)[k2] == pre[k2]@);
            }
        }
        let id = self.paths.len() as u64;
        self.paths.push(path);
        proof {
            assert forall|k1: int, k2: int|
                0 <= k1 < k2 < self.paths_view().len() implies self.paths_view()[k1]
                != self.paths_view()[k2] by {
                assert(str_views(self.paths@)[k1] == self.paths@[k1]@);
                assert(str_views(self.paths@)[k2] == self.paths@[k2]@);
                if k2 < pre.len() {
                    assert(str_views(pre)[k1] == pre[k1]@);
                    assert(str_views(pre)[k2] == pre[k2]@);
                } else {
                    assert(str_views(pre)[k1] == pre[k1]@);
                }
            }
            assert(self.paths_view() =~= str_views(pre).push(path@)) by {
                assert forall|k2: int| 0 <= k2 < self.paths@.len() implies str_views(self.paths@)[k2]
                    == str_views(pre).push(path@)[k2] by {
                    assert(str_views(self.paths@)[k2] == self.paths@[k2]@);
                    if k2 < pre.len() {
                        assert(str_views(pre)[k2] == pre[k2]@);
                    }
                }
            }
        }
        (id, true)
    }
}

/// The assets that have finished loading, by identifier; each identifier
/// completes at most once.
pub struct AssetStore<A> {
    loaded: HashMap<u64, A>,
}

impl<A> AssetStore<A> {
    pub closed spec fn view(self) -> Map<u64, A> {
        self.loaded@
    }

    pub fn new() -> (s: AssetStore<A>)
        ensures
            s@ == Map::<u64, A>::empty(),
    {
        AssetStore { loaded: HashMap::new() }
    }

    pub fn contains(&self, id: u64) -> (r: bool)
        ensures
            r == self@.contains_key(id),
    {
        self.loaded.contains_key(&id)
    }

    /// Records a completed load. Completing one identifier twice is a
    /// programming error, ruled out by the precondition.
    pub fn complete(&mut self, id: u64, asset: A)
        requires
            !old(self)@.contains_key(id),
        ensures
            final(self)@ == old(self)@.insert(id, asset),
    {
        self.loaded.insert(id, asset);
    }

    pub fn get(&self, id: u64) -> (r: Option<&A>)
        ensures
            match r {
                Some(a) => self@.contains_key(id) && *a == self@[id],
                None => !self@.contains_key(id),
            },
    {
        self.loaded.get(&id)
    }
}

} // verus!
