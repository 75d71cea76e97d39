use vstd::prelude::*;

use crate::topology::TopologicalGraph;
use crate::topology::pos_of;
use crate::world::ResourceId;

verus! {

/// The interned identifiers behind a list of resource ids.
pub open spec fn rid_views(l: Seq<ResourceId>) -> Seq<u64> {
    l.map_values(|r: ResourceId| r@)
}

/// The character sequences behind a list of strings.
pub open spec fn str_views(l: Seq<String>) -> Seq<Seq<char>> {
    l.map_values(|s: String| s@)
}

/// Identity, human-readable name, and the three declared resource-access
/// lists of one system.
pub struct SystemInfo {
    type_id: u64,
    name: String,
    reads_before_write: Vec<ResourceId>,
    writes: Vec<ResourceId>,
    reads_after_write: Vec<ResourceId>,
}

impl SystemInfo {
    pub closed spec fn sid(self) -> u64 {
        self.type_id
    }

    pub closed spec fn name_spec(self) -> Seq<char> {
        self.name@
    }

    pub closed spec fn reads_before_view(self) -> Seq<u64> {
        rid_views(self.reads_before_write@)
    }

    pub closed spec fn writes_view(self) -> Seq<u64> {
        rid_views(self.writes@)
    }

    pub closed spec fn reads_after_view(self) -> Seq<u64> {
        rid_views(self.reads_after_write@)
    }

    pub fn new(
        type_id: u64,
        name: String,
        reads_before_write: Vec<ResourceId>,
        writes: Vec<ResourceId>,
        reads_after_write: Vec<ResourceId>,
    ) -> (s: SystemInfo)
        ensures
            s.sid() == type_id,
            s.name_spec() == name@,
            s.reads_before_view() == rid_views(reads_before_write@),
            s.writes_view() == rid_views(writes@),
            s.reads_after_view() == rid_views(reads_after_write@),
    {
        SystemInfo { type_id, name, reads_before_write, writes, reads_after_write }
    }

    pub fn name(&self) -> (r: &String)
        ensures
            r@ == self.name_spec(),
    {
        &self.name
    }

    pub fn system_type_id(&self) -> (r: u64)
        ensures
            r == self.sid(),
    {
        self.type_id
    }
}

/// There is a resource that `u` reads before any writer touches it and that
/// `v` writes: `u` must run before `v`.
pub open spec fn before_edge(ss: Seq<SystemInfo>, u: int, v: int) -> bool {
    exists|q: u64|
        #[trigger] ss[u].reads_before_view().contains(q) && #[trigger] ss[v].writes_view().contains(
            q,
        )
}

/// There is a resource that `u` writes and that `v` reads after the write:
/// `u` must run before `v`.
pub open spec fn after_edge(ss: Seq<SystemInfo>, u: int, v: int) -> bool {
    exists|q: u64|
        #[trigger] ss[u].writes_view().contains(q) && #[trigger] ss[v].reads_after_view().contains(
            q,
        )
}

/// The reader-derived ordering constraints: `u` must run before `v`.
pub open spec fn base_edge(ss: Seq<SystemInfo>, u: int, v: int) -> bool {
    0 <= u < ss.len() && 0 <= v < ss.len() && (before_edge(ss, u, v) || after_edge(ss, u, v))
}

/// `u` and `v` are distinct systems writing a common resource.
pub open spec fn writer_pair(ss: Seq<SystemInfo>, u: int, v: int) -> bool {
    0 <= u < ss.len() && 0 <= v < ss.len() && u != v && exists|q: u64|
        #[trigger] ss[u].writes_view().contains(q) && #[trigger] ss[v].writes_view().contains(q)
}

/// What the dependency graph of a registration sequence contains: every
/// reader-derived edge; nothing but reader-derived edges and
/// registration-ordered writer/writer tie-breaks; and every writer pair
/// either tie-broken by an edge or already ordered the other way by a path.
pub open spec fn graph_built(ss: Seq<SystemInfo>, g: TopologicalGraph) -> bool {
    &&& g.wf()
    &&& g.nodes() == ss.len()
    &&& forall|u: int, v: int| #[trigger] base_edge(ss, u, v) ==> g.edge(u, v)
    &&& forall|u: int, v: int|
        #[trigger] g.edge(u, v) ==> base_edge(ss, u, v) || (u < v && writer_pair(ss, u, v))
    &&& forall|u: int, v: int|
        0 <= u < v < ss.len() && #[trigger] writer_pair(ss, u, v) ==> g.edge(u, v) || g.reaches(
            v,
            u,
        )
}

/// No two registered systems share an identity.
pub open spec fn ids_unique(ss: Seq<SystemInfo>) -> bool {
    forall|i: int, j: int| 0 <= i < j < ss.len() ==> ss[i].sid() != ss[j].sid()
}

pub open spec fn has_sid(ss: Seq<SystemInfo>, sid: u64) -> bool {
    exists|i: int| 0 <= i < ss.len() && #[trigger] ss[i].sid() == sid
}

pub open spec fn sid_index(ss: Seq<SystemInfo>, sid: u64) -> int {
    choose|i: int| 0 <= i < ss.len() && #[trigger] ss[i].sid() == sid
}

/// Registering one descriptor: an already-present identity is replaced in
/// place, a new identity is appended.
pub open spec fn spec_upsert(ss: Seq<SystemInfo>, info: SystemInfo) -> Seq<SystemInfo> {
    if has_sid(ss, info.sid()) {
        ss.update(sid_index(ss, info.sid()), info)
    } else {
        ss.push(info)
    }
}

/// Registering a batch of descriptors, first to last.
pub open spec fn spec_upsert_all(ss: Seq<SystemInfo>, infos: Seq<SystemInfo>) -> Seq<SystemInfo>
    decreases infos.len(),
{
    if infos.len() == 0 {
        ss
    } else {
        spec_upsert(spec_upsert_all(ss, infos.drop_last()), infos.last())
    }
}

/// Law: re-registering an identity already present replaces its entry in
/// place rather than adding one: the count and all other entries are
/// unchanged, and the matching entry becomes the new descriptor.
pub proof fn lemma_reregister_replaces(ss: Seq<SystemInfo>, info: SystemInfo)
    requires
        ids_unique(ss),
        has_sid(ss, info.sid()),
    ensures
        spec_upsert(ss, info).len() == ss.len(),
        0 <= sid_index(ss, info.sid()) < ss.len(),
        ss[sid_index(ss, info.sid())].sid() == info.sid(),
        spec_upsert(ss, info)[sid_index(ss, info.sid())] == info,
        forall|i: int|
            0 <= i < ss.len() && i != sid_index(ss, info.sid()) ==> spec_upsert(ss, info)[i]
                == ss[i],
{
    let ix = sid_index(ss, info.sid());
    assert(0 <= ix < ss.len() && ss[ix].sid() == info.sid());
}

/// Law: registering a fresh identity appends it, leaving the rest unchanged.
pub proof fn lemma_register_appends(ss: Seq<SystemInfo>, info: SystemInfo)
    requires
        !has_sid(ss, info.sid()),
    ensures
        spec_upsert(ss, info).len() == ss.len() + 1,
        spec_upsert(ss, info).last() == info,
        forall|i: int| 0 <= i < ss.len() ==> spec_upsert(ss, info)[i] == ss[i],
{
}

fn contains_res(l: &Vec<ResourceId>, r: ResourceId) -> (b: bool)
    ensures
        b == rid_views(l@).contains(r@),
{
    let n = l.len();
    let mut k: usize = 0;
    while k < n
        invariant
            k <= n,
            n == l@.len(),
            forall|k2: int| 0 <= k2 < k ==> (#[trigger] l@[k2])@ != r@,
        decreases n - k,
    {
        let cur = l[k];
        if cur.id_value() == r.id_value() {
            proof {
                assert(rid_views(l@)[k as int] == r@);
            }
            return true;
        }
        k = k + 1;
    }
    proof {
        if rid_views(l@).contains(r@) {
            let k2 = choose|k2: int|
                0 <= k2 < rid_views(l@).len() && rid_views(l@)[k2] == r@;
            assert(rid_views(l@)[k2] == l@[k2]@);
        }
    }
    false
}

/// Whether the two access lists name a common resource.
fn shares(a: &Vec<ResourceId>, b: &Vec<ResourceId>) -> (res: bool)
    ensures
        res == exists|q: u64|
            #[trigger] rid_views(a@).contains(q) && #[trigger] rid_views(b@).contains(q),
{
    let n = a.len();
    let mut k: usize = 0;
    while k < n
        invariant
            k <= n,
            n == a@.len(),
            forall|k2: int| 0 <= k2 < k ==> !rid_views(b@).contains((#[trigger] a@[k2])@),
        decreases n - k,
    {
        if contains_res(b, a[k]) {
            proof {
                assert(rid_views(a@)[k as int] == a@[k as int]@);
                assert(rid_views(a@).contains(a@[k as int]@));
            }
            return true;
        }
        k = k + 1;
    }
    proof {
        if exists|q: u64|
            #[trigger] rid_views(a@).contains(q) && #[trigger] rid_views(b@).contains(q) {
            let q = choose|q: u64|
                #[trigger] rid_views(a@).contains(q) && #[trigger] rid_views(b@).contains(q);
            let k2 = choose|k2: int|
                0 <= k2 < rid_views(a@).len() && rid_views(a@)[k2] == q;
            assert(rid_views(a@)[k2] == a@[k2]@);
            assert(!rid_views(b@).contains(a@[k2]@));
        }
    }
    false
}

/// Whether `su` must run before `sv` by a reader-derived constraint.
fn base_edge_exec(su: &SystemInfo, sv: &SystemInfo) -> (r: bool)
    ensures
        r == ((exists|q: u64|
            #[trigger] su.reads_before_view().contains(q)
                && #[trigger] sv.writes_view().contains(q)) || (exists|q: u64|
            #[trigger] su.writes_view().contains(q) && #[trigger] sv.reads_after_view().contains(
                q,
            ))),
{
    let r1 = shares(&su.reads_before_write, &sv.writes);
    let r2 = shares(&su.writes, &sv.reads_after_write);
    proof {
        assert(su.reads_before_view() == rid_views(su.reads_before_write@));
        assert(su.writes_view() == rid_views(su.writes@));
        assert(sv.writes_view() == rid_views(sv.writes@));
        assert(sv.reads_after_view() == rid_views(sv.reads_after_write@));
    }
    r1 || r2
}

/// The registered system set, with the cached dependency graph and the flag
/// that marks the cache stale.
pub struct SystemRegistry {
    systems: Vec<SystemInfo>,
    graph: TopologicalGraph,
    systems_changed: bool,
}

/// Yields the scheduled systems one by one, each tagged with its wavefront
/// index; systems sharing a wavefront index have no ordering constraint
/// between them and may run concurrently.
pub struct ScheduleVisitor {
    entries: Vec<(usize, usize)>,
    cursor: usize,
}

impl ScheduleVisitor {
    /// The full schedule: pairs of (system index, wavefront index).
    pub closed spec fn view(self) -> Seq<(usize, usize)> {
        self.entries@
    }

    pub closed spec fn cursor_spec(self) -> int {
        self.cursor as int
    }

    pub open spec fn wf(self) -> bool {
        0 <= self.cursor_spec() <= self@.len()
    }

    pub fn len(&self) -> (r: usize)
        ensures
            r == self@.len(),
    {
        self.entries.len()
    }

    /// The entry at position `p` of the schedule.
    pub fn entry(&self, p: usize) -> (r: (usize, usize))
        requires
            p < self@.len(),
        ensures
            r == self@[p as int],
    {
        self.entries[p]
    }

    /// The next system whose predecessors have all been yielded, with its
    /// wavefront index; `None` once the schedule is exhausted.
    pub fn next(&mut self) -> (r: Option<(usize, usize)>)
        requires
            old(self).wf(),
        ensures
            final(self).wf(),
            final(self)@ == old(self)@,
            old(self).cursor_spec() < old(self)@.len() ==> r == Some(
                old(self)@[old(self).cursor_spec()],
            ) && final(self).cursor_spec() == old(self).cursor_spec() + 1,
            old(self).cursor_spec() == old(self)@.len() ==> r is None && final(self).cursor_spec()
                == old(self).cursor_spec(),
    {
        if self.cursor < self.entries.len() {
            let e = self.entries[self.cursor];
            self.cursor = self.cursor + 1;
            Some(e)
        } else {
            None
        }
    }
}

/// The dependency graph cannot be linearized; carries the indices (into the
/// registration sequence) and the names of the systems still caught in the
/// cycle when scheduling stopped.
#[derive(Debug)]
pub struct CycleError {
    participants: Vec<usize>,
    names: Vec<String>,
}

impl CycleError {
    pub closed spec fn participants_view(self) -> Seq<usize> {
        self.participants@
    }

    pub closed spec fn names_view(self) -> Seq<Seq<char>> {
        str_views(self.names@)
    }

    pub fn participants(&self) -> (r: &Vec<usize>)
        ensures
            r@ == self.participants_view(),
    {
        &self.participants
    }

    pub fn names(&self) -> (r: &Vec<String>)
        ensures
            str_views(r@) == self.names_view(),
    {
        &self.names
    }
}

impl SystemRegistry {
    pub closed spec fn systems_view(self) -> Seq<SystemInfo> {
        self.systems@
    }

    pub closed spec fn graph_view(self) -> TopologicalGraph {
        self.graph
    }

    pub closed spec fn dirty(self) -> bool {
        self.systems_changed
    }

    /// Identities are unique, and a clean cache matches the registrations.
    pub open spec fn wf(self) -> bool {
        &&& ids_unique(self.systems_view())
        &&& !self.dirty() ==> graph_built(self.systems_view(), self.graph_view())
    }

    pub fn new() -> (r: SystemRegistry)
        ensures
            r.wf(),
            r.systems_view().len() == 0,
            r.dirty(),
    {
        SystemRegistry { systems: Vec::new(), graph: TopologicalGraph::new(0), systems_changed: true }
    }

    /// Registers or replaces one descriptor, keyed by its identity.
    fn add_system_info(&mut self, info: SystemInfo)
        requires
            ids_unique(old(self).systems_view()),
        ensures
            final(self).systems_view() == spec_upsert(old(self).systems_view(), info),
            ids_unique(final(self).systems_view()),
            final(self).graph_view() == old(self).graph_view(),
            final(self).dirty() == old(self).dirty(),
    {
        let ghost ss = self.systems@;
        let n = self.systems.len();
        let sid = info.system_type_id();
        let mut i: usize = 0;
        while i < n
            invariant
                i <= n,
                n == self.systems@.len(),
                sid == info.sid(),
                self.systems@ == ss,
                ss == old(self).systems@,
                ids_unique(ss),
                self.graph == old(self).graph,
                self.systems_changed == old(self).systems_changed,
                forall|k: int| 0 <= k < i ==> (#[trigger] self.systems@[k]).sid() != info.sid(),
            decreases n - i,
        {
            if self.systems[i].system_type_id() == sid {
                proof {
                    assert(ss[i as int].sid() == info.sid());
                    assert(has_sid(ss, info.sid()));
                    let ix = sid_index(ss, info.sid());
                    assert(0 <= ix < ss.len() && ss[ix].sid() == info.sid());
                    if ix != i as int {
                        assert(ss[ix].sid() != ss[i as int].sid());
                    }
                }
                self.systems.set(i, info);
                proof {
                    assert(self.systems@ =~= ss.update(i as int, info));
                    assert forall|a: int, b: int|
                        0 <= a < b < self.systems@.len() implies self.systems@[a].sid()
                        != self.systems@[b].sid() by {
                        assert(ss[a].sid() != ss[b].sid() || a == i || b == i);
                    }
                }
                return ;
            }
            i = i + 1;
        }
        proof {
            if has_sid(ss, info.sid()) {
                let ix = sid_index(ss, info.sid());
                assert(ss[ix].sid() != info.sid());
            }
        }
        self.systems.push(info);
        proof {
            assert(self.systems@ =~= ss.push(info));
            assert forall|a: int, b: int|
                0 <= a < b < self.systems@.len() implies self.systems@[a].sid()
                != self.systems@[b].sid() by {
                if b < ss.len() {
                    assert(ss[a].sid() != ss[b].sid());
                } else {
                    assert(self.systems@[b] == info);
                    assert(ss[a].sid() != info.sid());
                }
            }
        }
    }

    /// Registers a batch of descriptors, first to last; each one replaces an
    /// earlier registration of the same identity or is appended. Marks the
    /// cached graph stale.
    pub fn add_system_infos(&mut self, infos: Vec<SystemInfo>)
        requires
            old(self).wf(),
        ensures
            final(self).wf(),
            final(self).dirty(),
            final(self).systems_view() == spec_upsert_all(old(self).systems_view(), infos@),
    {
        let ghost orig = infos@;
        let ghost ss0 = self.systems@;
        self.systems_changed = true;
        let mut infos = infos;
        let len = infos.len();
        let mut k: usize = 0;
        while k < len
            invariant
                k <= len,
                len == orig.len(),
                infos@ =~= orig.skip(k as int),
                ids_unique(self.systems@),
                self.systems@ == spec_upsert_all(ss0, orig.take(k as int)),
                self.systems_changed,
            decreases len - k,
        {
            let info = infos.remove(0);
            proof {
                assert(orig.skip(k as int)[0] == orig[k as int]);
                assert(infos@ =~= orig.skip(k as int + 1));
            }
            self.add_system_info(info);
            proof {
                assert(orig.take(k as int + 1).drop_last() =~= orig.take(k as int));
                assert(orig.take(k as int + 1).last() == orig[k as int]);
            }
            k = k + 1;
        }
        proof {
            assert(orig.take(len as int) =~= orig);
        }
    }

    /// Rebuilds the dependency graph from the full current registration set:
    /// reader-derived edges first, then the registration-ordered writer
    /// tie-breaks, each added only when the two writers are not already
    /// ordered the other way.
    fn refresh(&mut self)
        requires
            ids_unique(old(self).systems_view()),
        ensures
            final(self).systems_view() == old(self).systems_view(),
            !final(self).dirty(),
            final(self).wf(),
            graph_built(final(self).systems_view(), final(self).graph_view()),
    {
        let ghost ss = self.systems@;
        let n = self.systems.len();
        let mut g = TopologicalGraph::new(n);
        let mut u: usize = 0;
        while u < n
            invariant
                u <= n,
                n == self.systems@.len(),
                self.systems@ == ss,
                g.wf(),
                g.nodes() == n,
                forall|a: int, b: int|
                    #[trigger] g.edge(a, b) <==> (base_edge(ss, a, b) && a < u),
            decreases n - u,
        {
            let mut v: usize = 0;
            while v < n
                invariant
                    u < n,
                    v <= n,
                    n == self.systems@.len(),
                    self.systems@ == ss,
                    g.wf(),
                    g.nodes() == n,
                    forall|a: int, b: int|
                        #[trigger] g.edge(a, b) <==> (base_edge(ss, a, b) && (a < u || (a == u
                            && b < v))),
                decreases n - v,
            {
                let e = base_edge_exec(&self.systems[u], &self.systems[v]);
                proof {
                    assert(e == base_edge(ss, u as int, v as int));
                }
                if e {
                    g.add_edge(u, v);
                }
                v = v + 1;
            }
            u = u + 1;
        }
        let mut u: usize = 0;
        while u < n
            invariant
                u <= n,
                n == self.systems@.len(),
                self.systems@ == ss,
                g.wf(),
                g.nodes() == n,
                forall|a: int, b: int| #[trigger] base_edge(ss, a, b) ==> g.edge(a, b),
                forall|a: int, b: int|
                    #[trigger] g.edge(a, b) ==> base_edge(ss, a, b) || (a < b && writer_pair(
                        ss,
                        a,
                        b,
                    )),
                forall|a: int, b: int|
                    0 <= a < b < n && #[trigger] writer_pair(ss, a, b) && a < u ==> g.edge(a, b)
                        || g.reaches(b, a),
            decreases n - u,
        {
            let mut v: usize = u + 1;
            while v < n
                invariant
                    u < n,
                    u < v <= n,
                    n == self.systems@.len(),
                    self.systems@ == ss,
                    g.wf(),
                    g.nodes() == n,
                    forall|a: int, b: int| #[trigger] base_edge(ss, a, b) ==> g.edge(a, b),
                    forall|a: int, b: int|
                        #[trigger] g.edge(a, b) ==> base_edge(ss, a, b) || (a < b && writer_pair(
                            ss,
                            a,
                            b,
                        )),
                    forall|a: int, b: int|
                        0 <= a < b < n && #[trigger] writer_pair(ss, a, b) && (a < u || (a == u
                            && b < v)) ==> g.edge(a, b) || g.reaches(b, a),
                decreases n - v,
            {
                let ghost g0 = g;
                let w = shares(&self.systems[u].writes, &self.systems[v].writes);
                proof {
                    assert(w == writer_pair(ss, u as int, v as int)) by {
                        assert(ss[u as int].writes_view() == rid_views(
                            self.systems@[u as int].writes@,
                        ));
                        assert(ss[v as int].writes_view() == rid_views(
                            self.systems@[v as int].writes@,
                        ));
                    }
                }
                if w {
                    if !g.has_path(v, u) {
                        g.add_edge(u, v);
                        proof {
                            assert forall|a: int, b: int|
                                0 <= a < b < n && #[trigger] writer_pair(ss, a, b) && (a < u || (a
                                    == u && b < v + 1)) implies g.edge(a, b) || g.reaches(
                                b,
                                a,
                            ) by {
                                if a == u as int && b == v as int {
                                    assert(g.edge(a, b));
                                } else {
                                    if g0.reaches(b, a) {
                                        g0.lemma_reaches_mono(g, b, a);
                                    }
                                }
                            }
                        }
                    }
                }
                v = v + 1;
            }
            u = u + 1;
        }
        self.graph = g;
        self.systems_changed = false;
    }

    /// The ascending registration indices of the systems holding one role
    /// for one resource.
    fn collect_role(&self, resource: ResourceId, role: AccessRole) -> (w: Vec<usize>)
        ensures
            forall|k1: int, k2: int| 0 <= k1 < k2 < w@.len() ==> w@[k1] < w@[k2],
            forall|k: int|
                0 <= k < w@.len() ==> (#[trigger] w@[k]) < self.systems_view().len() && role_view(
                    self.systems_view()[w@[k] as int],
                    role,
                ).contains(resource@),
            forall|i: int|
                0 <= i < self.systems_view().len() && #[trigger] role_view(
                    self.systems_view()[i],
                    role,
                ).contains(resource@) ==> exists|k: int|
                    0 <= k < w@.len() && (#[trigger] w@[k]) as int == i,
    {
        let n = self.systems.len();
        let mut w: Vec<usize> = Vec::new();
        let mut i: usize = 0;
        while i < n
            invariant
                i <= n,
                n == self.systems@.len(),
                forall|k: int| 0 <= k < w@.len() ==> (#[trigger] w@[k]) < i,
                forall|k1: int, k2: int| 0 <= k1 < k2 < w@.len() ==> w@[k1] < w@[k2],
                forall|k: int|
                    0 <= k < w@.len() ==> role_view(
                        self.systems@[(#[trigger] w@[k]) as int],
                        role,
                    ).contains(resource@),
                forall|i2: int|
                    0 <= i2 < i && #[trigger] role_view(self.systems@[i2], role).contains(
                        resource@,
                    ) ==> exists|k: int| 0 <= k < w@.len() && (#[trigger] w@[k]) as int == i2,
            decreases n - i,
        {
            let list = match role {
                AccessRole::ReadsBeforeWrite => &self.systems[i].reads_before_write,
                AccessRole::Writes => &self.systems[i].writes,
                AccessRole::ReadsAfterWrite => &self.systems[i].reads_after_write,
            };
            if contains_res(list, resource) {
                let ghost w_pre = w@;
                w.push(i);
                proof {
                    assert(w@[w_pre.len() as int] == i);
                    assert(role_view(self.systems@[i as int], role).contains(resource@));
                    assert forall|i2: int|
                        0 <= i2 < i + 1 && #[trigger] role_view(self.systems@[i2], role).contains(
                            resource@,
                        ) implies exists|k: int|
                        0 <= k < w@.len() && (#[trigger] w@[k]) as int == i2 by {
                        if i2 < i {
                            let k = choose|k: int|
                                0 <= k < w_pre.len() && (#[trigger] w_pre[k]) as int == i2;
                            assert(w@[k] as int == i2);
                        } else {
                            assert(w@[w_pre.len() as int] as int == i2);
                        }
                    }
                }
            }
            i = i + 1;
        }
        w
    }

    /// The systems in each of the three roles for one resource, derived from
    /// the full current registration set.
    pub fn resource_info(&self, resource: ResourceId) -> (r: ResourceInfo)
        ensures
            forall|k1: int, k2: int|
                0 <= k1 < k2 < r.read_before_write_view().len() ==> r.read_before_write_view()[k1]
                    < r.read_before_write_view()[k2],
            forall|k1: int, k2: int|
                0 <= k1 < k2 < r.write_view().len() ==> r.write_view()[k1] < r.write_view()[k2],
            forall|k1: int, k2: int|
                0 <= k1 < k2 < r.read_after_write_view().len() ==> r.read_after_write_view()[k1]
                    < r.read_after_write_view()[k2],
            forall|k: int|
                0 <= k < r.read_before_write_view().len() ==> (#[trigger] r.read_before_write_view()[k])
                    < self.systems_view().len() && self.systems_view()[r.read_before_write_view()[k] as int].reads_before_view().contains(resource@),
            forall|k: int|
                0 <= k < r.write_view().len() ==> (#[trigger] r.write_view()[k])
                    < self.systems_view().len() && self.systems_view()[r.write_view()[k] as int].writes_view().contains(resource@),
            forall|k: int|
                0 <= k < r.read_after_write_view().len() ==> (#[trigger] r.read_after_write_view()[k])
                    < self.systems_view().len() && self.systems_view()[r.read_after_write_view()[k] as int].reads_after_view().contains(resource@),
            forall|i: int|
                0 <= i < self.systems_view().len() && (#[trigger] self.systems_view()[i]).reads_before_view().contains(resource@)
                    ==> exists|k: int|
                    0 <= k < r.read_before_write_view().len() && (#[trigger] r.read_before_write_view()[k]) as int == i,
            forall|i: int|
                0 <= i < self.systems_view().len() && (#[trigger] self.systems_view()[i]).writes_view().contains(resource@)
                    ==> exists|k: int|
                    0 <= k < r.write_view().len() && (#[trigger] r.write_view()[k]) as int == i,
            forall|i: int|
                0 <= i < self.systems_view().len() && (#[trigger] self.systems_view()[i]).reads_after_view().contains(resource@)
                    ==> exists|k: int|
                    0 <= k < r.read_after_write_view().len() && (#[trigger] r.read_after_write_view()[k]) as int == i,
    {
        let rbw = self.collect_role(resource, AccessRole::ReadsBeforeWrite);
        let wrs = self.collect_role(resource, AccessRole::Writes);
        let raw = self.collect_role(resource, AccessRole::ReadsAfterWrite);
        let ghost rbw_v = rbw@;
        let ghost wrs_v = wrs@;
        let ghost raw_v = raw@;
        let r = ResourceInfo {
            read_before_write_systems: rbw,
            write_systems: wrs,
            read_after_write_systems: raw,
        };
        proof {
            assert forall|i: int|
                0 <= i < self.systems_view().len() && (#[trigger] self.systems_view()[i]).reads_before_view().contains(
                    resource@,
                ) implies exists|k: int|
                0 <= k < r.read_before_write_view().len() && (
                #[trigger] r.read_before_write_view()[k]) as int == i by {
                assert(role_view(self.systems_view()[i], AccessRole::ReadsBeforeWrite).contains(
                    resource@,
                ));
                let k = choose|k: int|
                    0 <= k < rbw_v.len() && (#[trigger] rbw_v[k]) as int == i;
                assert(r.read_before_write_view()[k] as int == i);
            }
            assert forall|i: int|
                0 <= i < self.systems_view().len() && (#[trigger] self.systems_view()[i]).writes_view().contains(
                    resource@,
                ) implies exists|k: int|
                0 <= k < r.write_view().len() && (#[trigger] r.write_view()[k]) as int == i by {
                assert(role_view(self.systems_view()[i], AccessRole::Writes).contains(resource@));
                let k = choose|k: int|
                    0 <= k < wrs_v.len() && (#[trigger] wrs_v[k]) as int == i;
                assert(r.write_view()[k] as int == i);
            }
            assert forall|i: int|
                0 <= i < self.systems_view().len() && (#[trigger] self.systems_view()[i]).reads_after_view().contains(
                    resource@,
                ) implies exists|k: int|
                0 <= k < r.read_after_write_view().len() && (
                #[trigger] r.read_after_write_view()[k]) as int == i by {
                assert(role_view(self.systems_view()[i], AccessRole::ReadsAfterWrite).contains(
                    resource@,
                ));
                let k = choose|k: int|
                    0 <= k < raw_v.len() && (#[trigger] raw_v[k]) as int == i;
                assert(r.read_after_write_view()[k] as int == i);
            }
        }
        r
    }

    /// Derives the schedule for the current registrations, rebuilding the
    /// graph first if they changed. On success the visitor yields every
    /// registered system exactly once, each tagged with its wavefront: no
    /// reads-before-write dependent runs after a writer of that resource, no
    /// reads-after-write dependent runs before one, and two entries of one
    /// wavefront are never ordered by an edge. On failure the registrations
    /// are cyclic, and the error names the systems still caught in the cycle.
    pub fn systems(&mut self) -> (r: Result<ScheduleVisitor, CycleError>)
        requires
            old(self).wf(),
        ensures
            final(self).wf(),
            final(self).systems_view() == old(self).systems_view(),
            !final(self).dirty(),
            graph_built(final(self).systems_view(), final(self).graph_view()),
            match r {
                Ok(v) => {
                    &&& v.wf()
                    &&& v.cursor_spec() == 0
                    &&& final(self).graph_view().valid_order(v@)
                    &&& !final(self).graph_view().cyclic()
                    &&& v@.len() == final(self).systems_view().len()
                    // every reader-derived constraint is respected, in
                    // position and in wavefront
                    &&& forall|p: int, q: int|
                        0 <= p < v@.len() && 0 <= q < v@.len() && #[trigger] base_edge(
                            final(self).systems_view(),
                            v@[p].0 as int,
                            v@[q].0 as int,
                        ) ==> p < q && v@[p].1 < v@[q].1
                    // each registered identity appears exactly once
                    &&& forall|p: int, q: int|
                        0 <= p < v@.len() && 0 <= q < v@.len() && p != q
                            ==> final(self).systems_view()[(#[trigger] v@[p]).0 as int].sid()
                            != final(self).systems_view()[(#[trigger] v@[q]).0 as int].sid()
                },
                Err(e) => {
                    &&& final(self).graph_view().cyclic()
                    &&& e.participants_view().len() > 0
                    &&& e.names_view().len() == e.participants_view().len()
                    &&& forall|k: int|
                        0 <= k < e.participants_view().len()
                            ==> (#[trigger] e.participants_view()[k])
                            < final(self).systems_view().len()
                    &&& forall|k: int|
                        0 <= k < e.participants_view().len() ==> #[trigger] e.names_view()[k]
                            == final(self).systems_view()[e.participants_view()[k] as int].name_spec()
                },
            },
    {
        if self.systems_changed {
            self.refresh();
        }
        let ghost ss = self.systems@;
        match self.graph.toposort() {
            Ok(order) => {
                proof {
                    assert forall|p: int, q: int|
                        0 <= p < order@.len() && 0 <= q < order@.len() && #[trigger] base_edge(
                            ss,
                            order@[p].0 as int,
                            order@[q].0 as int,
                        ) implies p < q && order@[p].1 < order@[q].1 by {
                        assert(self.graph.edge(order@[p].0 as int, order@[q].0 as int));
                    }
                    assert forall|p: int, q: int|
                        0 <= p < order@.len() && 0 <= q < order@.len() && p != q implies ss[(
                        #[trigger] order@[p]).0 as int].sid() != ss[(#[trigger] order@[q]).0 as int].sid() by {
                        assert(order@[p].0 != order@[q].0);
                        let a = order@[p].0 as int;
                        let b = order@[q].0 as int;
                        if a < b {
                            assert(ss[a].sid() != ss[b].sid());
                        } else {
                            assert(ss[b].sid() != ss[a].sid());
                        }
                    }
                }
                Ok(ScheduleVisitor { entries: order, cursor: 0 })
            },
            Err(stuck) => {
                let mut names: Vec<String> = Vec::new();
                let count = stuck.len();
                let mut k: usize = 0;
                while k < count
                    invariant
                        k <= count,
                        count == stuck@.len(),
                        self.systems@ == ss,
                        names@.len() == k,
                        forall|k2: int|
                            0 <= k2 < stuck@.len() ==> (#[trigger] stuck@[k2]) < ss.len(),
                        forall|k2: int|
                            0 <= k2 < k ==> (#[trigger] names@[k2])@ == ss[stuck@[k2] as int].name_spec(),
                    decreases count - k,
                {
                    let idx = stuck[k];
                    names.push(self.systems[idx].name.clone());
                    k = k + 1;
                }
                proof {
                    assert forall|k2: int|
                        0 <= k2 < names@.len() implies #[trigger] str_views(names@)[k2]
                        == ss[stuck@[k2] as int].name_spec() by {
                        assert(str_views(names@)[k2] == names@[k2]@);
                    }
                }
                Err(CycleError { participants: stuck, names })
            },
        }
    }
}

/// Which of the three declared roles a grouping collects.
#[derive(Clone, Copy)]
enum AccessRole {
    ReadsBeforeWrite,
    Writes,
    ReadsAfterWrite,
}

spec fn role_view(s: SystemInfo, role: AccessRole) -> Seq<u64> {
    match role {
        AccessRole::ReadsBeforeWrite => s.reads_before_view(),
        AccessRole::Writes => s.writes_view(),
        AccessRole::ReadsAfterWrite => s.reads_after_view(),
    }
}

/// The role groupings derived for one resource: the systems that read it
/// before any write, the systems that write it, and the systems that read it
/// after the writes, each as ascending indices into the registration
/// sequence. Fully recomputed on request, never updated in place.
pub struct ResourceInfo {
    read_before_write_systems: Vec<usize>,
    write_systems: Vec<usize>,
    read_after_write_systems: Vec<usize>,
}

impl ResourceInfo {
    pub closed spec fn read_before_write_view(self) -> Seq<usize> {
        self.read_before_write_systems@
    }

    pub closed spec fn write_view(self) -> Seq<usize> {
        self.write_systems@
    }

    pub closed spec fn read_after_write_view(self) -> Seq<usize> {
        self.read_after_write_systems@
    }

    pub fn read_before_write_systems(&self) -> (r: &Vec<usize>)
        ensures
            r@ == self.read_before_write_view(),
    {
        &self.read_before_write_systems
    }

    pub fn write_systems(&self) -> (r: &Vec<usize>)
        ensures
            r@ == self.write_view(),
    {
        &self.write_systems
    }

    pub fn read_after_write_systems(&self) -> (r: &Vec<usize>)
        ensures
            r@ == self.read_after_write_view(),
    {
        &self.read_after_write_systems
    }
}

/// Law: two distinct writers of a common resource are always ordered. When
/// no path of the built graph orders them the other way, the tie-break edge
/// exists and the earlier-registered writer is scheduled strictly first; this
/// holds of every graph built from the registration sequence and of every
/// valid schedule of it, so the relative order is repeatable across rebuilds.
pub proof fn lemma_writer_tiebreak(
    ss: Seq<SystemInfo>,
    g: TopologicalGraph,
    order: Seq<(usize, usize)>,
    u: int,
    v: int,
)
    requires
        graph_built(ss, g),
        g.valid_order(order),
        0 <= u < v < ss.len(),
        writer_pair(ss, u, v),
        !g.reaches(v, u),
    ensures
        0 <= pos_of(order, u) < order.len(),
        0 <= pos_of(order, v) < order.len(),
        order[pos_of(order, u)].0 == u,
        order[pos_of(order, v)].0 == v,
        pos_of(order, u) < pos_of(order, v),
{
    assert(g.edge(u, v));
    g.lemma_order_respects_edge(order, u, v);
}

/// Law: every reader-derived constraint is an edge of the built graph, so a
/// valid schedule keeps each reads-before-write dependent strictly before,
/// and each reads-after-write dependent strictly after, every writer of the
/// resource, in position and in wavefront.
pub proof fn lemma_schedule_respects_accesses(
    ss: Seq<SystemInfo>,
    g: TopologicalGraph,
    order: Seq<(usize, usize)>,
    u: int,
    v: int,
)
    requires
        graph_built(ss, g),
        g.valid_order(order),
        base_edge(ss, u, v),
    ensures
        0 <= pos_of(order, u) < order.len(),
        0 <= pos_of(order, v) < order.len(),
        order[pos_of(order, u)].0 == u,
        order[pos_of(order, v)].0 == v,
        pos_of(order, u) < pos_of(order, v),
        order[pos_of(order, u)].1 < order[pos_of(order, v)].1,
{
    assert(g.edge(u, v));
    g.lemma_order_respects_edge(order, u, v);
}

} // verus!
