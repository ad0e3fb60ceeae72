//! The coordinator's cluster state: the registry of volumes, their health,
//! and the hash ring over the healthy ones.
//!
//! Times are nanoseconds on the caller's monotonic clock; the caller reads
//! the clock and passes `now` in.
use crate::keyed::{
    has_key, key_bytes, keys_of, lemma_insert_map, lemma_sorted_distinct, keys_sorted, lemma_keys_of_sorted, lemma_to_map_index, strings_sorted,
    to_map, KeyedVec,
};
use crate::ring::{
    is_vnode_point, lemma_replicas_count, lemma_replicas_on_ring, lemma_ring_ids_map,
    lemma_ring_unique, points_sorted, replicas_spec,
    ring_ids, ring_map, strings_view, vnode_point, with_volume, without_volume, HashRing,
};
pub use crate::text::encode_path_segment;
use vstd::prelude::*;

verus! {

/// A volume as the registry knows it.
pub struct VolumeInfo {
    pub addr: String,
    pub healthy: bool,
    /// When the volume last registered or sent a heartbeat.
    pub last_seen: u64,
}

pub struct VolumeModel {
    pub addr: Seq<char>,
    pub healthy: bool,
    pub last_seen: u64,
}

impl View for VolumeInfo {
    type V = VolumeModel;

    open spec fn view(&self) -> VolumeModel {
        VolumeModel { addr: self.addr@, healthy: self.healthy, last_seen: self.last_seen }
    }
}

pub struct RegisterRequest {
    pub volume_id: String,
    pub addr: String,
}

pub struct HeartbeatRequest {
    pub volume_id: String,
}

/// What the coordinator persists about a volume.
pub struct MetaVolume {
    pub volume_id: String,
    pub addr: String,
}

pub struct StatusResponse {
    pub replicas: usize,
    pub vnodes: usize,
    pub volumes: Vec<StatusVolume>,
}

pub struct StatusVolume {
    pub volume_id: String,
    pub addr: String,
    pub healthy: bool,
    pub last_seen_secs_ago: u64,
}

pub struct RouteTarget {
    pub volume_id: String,
    pub addr: String,
    pub healthy: bool,
}

pub struct RouteSnapshot {
    pub key: String,
    pub replicas: usize,
    pub write_quorum: usize,
    pub targets: Vec<RouteTarget>,
}

pub struct ClusterSummary {
    pub replicas: usize,
    pub write_quorum: usize,
    pub vnodes: usize,
    pub total_volumes: usize,
    pub healthy_volumes: usize,
    pub unhealthy_volumes: usize,
}

pub struct ClusterResponse {
    pub summary: ClusterSummary,
    pub volumes: Vec<StatusVolume>,
}

pub struct VolumeStatsTarget {
    pub volume_id: String,
    pub addr: String,
}

/// The coordinator's state as plain values.
pub struct CoordModel {
    pub registry: Map<Seq<char>, VolumeModel>,
    pub ring: Seq<(u64, Seq<char>)>,
    pub vnodes: nat,
    pub replicas: usize,
    pub write_quorum: usize,
    pub dead_after: u128,
}

pub open spec fn models_of(s: Seq<(Seq<char>, VolumeInfo)>) -> Seq<(Seq<char>, VolumeModel)> {
    s.map_values(|e: (Seq<char>, VolumeInfo)| (e.0, e.1@))
}

/// Nanoseconds from `last_seen` to `now`, zero when `now` is earlier.
pub open spec fn elapsed(now: u64, last_seen: u64) -> u64 {
    if now >= last_seen {
        (now - last_seen) as u64
    } else {
        0
    }
}

/// A healthy volume not heard from for longer than `dead_after`.
pub open spec fn is_dead(v: VolumeModel, now: u64, dead_after: u128) -> bool {
    v.healthy && elapsed(now, v.last_seen) > dead_after
}

pub open spec fn count_healthy(s: Seq<(Seq<char>, VolumeModel)>) -> nat
    decreases s.len(),
{
    if s.len() == 0 {
        0
    } else {
        count_healthy(s.drop_last()) + if s.last().1.healthy {
            1nat
        } else {
            0nat
        }
    }
}

/// The addresses of the listed volumes that are registered and healthy.
pub open spec fn healthy_addrs(reg: Map<Seq<char>, VolumeModel>, ids: Seq<Seq<char>>) -> Seq<
    Seq<char>,
>
    decreases ids.len(),
{
    if ids.len() == 0 {
        Seq::empty()
    } else {
        let rest = healthy_addrs(reg, ids.drop_last());
        let x = ids.last();
        if reg.contains_key(x) && reg[x].healthy {
            rest.push(reg[x].addr)
        } else {
            rest
        }
    }
}

/// The listed volumes that are registered, with their addresses and health.
pub open spec fn registered_targets(reg: Map<Seq<char>, VolumeModel>, ids: Seq<Seq<char>>) -> Seq<
    (Seq<char>, Seq<char>, bool),
>
    decreases ids.len(),
{
    if ids.len() == 0 {
        Seq::empty()
    } else {
        let rest = registered_targets(reg, ids.drop_last());
        let x = ids.last();
        if reg.contains_key(x) {
            rest.push((x, reg[x].addr, reg[x].healthy))
        } else {
            rest
        }
    }
}

/// The registered, healthy volumes in id order.
pub open spec fn healthy_entries(s: Seq<(Seq<char>, VolumeModel)>) -> Seq<(Seq<char>, Seq<char>)>
    decreases s.len(),
{
    if s.len() == 0 {
        Seq::empty()
    } else {
        let rest = healthy_entries(s.drop_last());
        if s.last().1.healthy {
            rest.push((s.last().0, s.last().1.addr))
        } else {
            rest
        }
    }
}

/// The ids of the registered volumes that are healthy.
pub open spec fn healthy_ids(reg: Map<Seq<char>, VolumeModel>) -> Set<Seq<char>> {
    reg.dom().filter(|k: Seq<char>| reg[k].healthy)
}

proof fn lemma_sorted_drop_last(e: Seq<(Seq<char>, VolumeModel)>)
    requires
        keys_sorted(e),
        e.len() > 0,
    ensures
        keys_sorted(e.drop_last()),
        !has_key(e.drop_last(), e.last().0),
        to_map(e) == to_map(e.drop_last()).insert(e.last().0, e.last().1),
        forall|k: Seq<char>| #[trigger]
            to_map(e.drop_last()).contains_key(k) ==> crate::bytes_order::bytes_lt(
                key_bytes(k),
                key_bytes(e.last().0),
            ),
{
    let t = e.drop_last();
    let x = e.last();
    assert forall|i: int, j: int| 0 <= i < j < t.len() implies #[trigger] crate::bytes_order::bytes_lt(
        key_bytes(t[i].0),
        key_bytes(t[j].0),
    ) by {
        assert(t[i] == e[i]);
        assert(t[j] == e[j]);
    }
    if has_key(t, x.0) {
        let i = choose|i: int| 0 <= i < t.len() && #[trigger] t[i].0 == x.0;
        lemma_sorted_distinct(e, i, e.len() - 1);
    }
    assert(t.insert(t.len() as int, x) =~= e);
    lemma_insert_map(t, t.len() as int, x.0, x.1);
    assert forall|k: Seq<char>| #[trigger] to_map(t).contains_key(k) implies crate::bytes_order::bytes_lt(
        key_bytes(k),
        key_bytes(x.0),
    ) by {
        let i = choose|i: int| 0 <= i < t.len() && #[trigger] t[i].0 == k;
        assert(t[i] == e[i]);
    }
}

/// Counting the healthy entries of a registry held sorted by id counts its
/// healthy volumes: an unhealthy entry never adds to the count.
pub proof fn lemma_count_healthy_ids(e: Seq<(Seq<char>, VolumeModel)>)
    requires
        keys_sorted(e),
    ensures
        healthy_ids(to_map(e)).finite(),
        count_healthy(e) == healthy_ids(to_map(e)).len(),
    decreases e.len(),
{
    if e.len() == 0 {
        assert(healthy_ids(to_map(e)) =~= Set::<Seq<char>>::empty());
    } else {
        let t = e.drop_last();
        let x = e.last();
        lemma_sorted_drop_last(e);
        lemma_count_healthy_ids(t);
        let m = to_map(t);
        if x.1.healthy {
            assert(healthy_ids(to_map(e)) =~= healthy_ids(m).insert(x.0));
            assert(!healthy_ids(m).contains(x.0));
        } else {
            assert(healthy_ids(to_map(e)) =~= healthy_ids(m));
        }
    }
}

/// The healthy entries of a registry held sorted by id: each is a
/// registered healthy volume with its registered address, they come in id
/// order, and there is one per healthy volume.
pub proof fn lemma_healthy_entries(e: Seq<(Seq<char>, VolumeModel)>)
    requires
        keys_sorted(e),
    ensures
        forall|i: int|
            0 <= i < healthy_entries(e).len() ==> {
                let x = #[trigger] healthy_entries(e)[i];
                &&& to_map(e).contains_key(x.0)
                &&& to_map(e)[x.0].healthy
                &&& x.1 == to_map(e)[x.0].addr
            },
        forall|i: int, j: int|
            0 <= i < j < healthy_entries(e).len() ==> crate::bytes_order::bytes_lt(
                key_bytes(#[trigger] healthy_entries(e)[i].0),
                key_bytes(#[trigger] healthy_entries(e)[j].0),
            ),
        healthy_entries(e).len() == count_healthy(e),
    decreases e.len(),
{
    if e.len() > 0 {
        let t = e.drop_last();
        let x = e.last();
        lemma_sorted_drop_last(e);
        lemma_healthy_entries(t);
        let h0 = healthy_entries(t);
        let h = healthy_entries(e);
        assert forall|i: int| 0 <= i < h.len() implies {
            let y = #[trigger] h[i];
            &&& to_map(e).contains_key(y.0)
            &&& to_map(e)[y.0].healthy
            &&& y.1 == to_map(e)[y.0].addr
        } by {
            if i < h0.len() {
                assert(h[i] == h0[i]);
                assert(to_map(t).contains_key(h0[i].0));
                assert(h0[i].0 != x.0);
            }
        }
        assert forall|i: int, j: int| 0 <= i < j < h.len() implies crate::bytes_order::bytes_lt(
            key_bytes(#[trigger] h[i].0),
            key_bytes(#[trigger] h[j].0),
        ) by {
            assert(h[i] == h0[i]);
            if j < h0.len() {
                assert(h[j] == h0[j]);
            } else {
                assert(to_map(t).contains_key(h0[i].0));
            }
        }
    }
}

/// The ring without the points of any volume in `ids`.
pub open spec fn without_volumes(m: Map<u64, Seq<char>>, ids: Set<Seq<char>>) -> Map<
    u64,
    Seq<char>,
> {
    Map::new(|p: u64| m.contains_key(p) && !ids.contains(m[p]), |p: u64| m[p])
}

/// The registry entry after a registration or heartbeat at `now`.
pub open spec fn alive(addr: Seq<char>, now: u64) -> VolumeModel {
    VolumeModel { addr, healthy: true, last_seen: now }
}

/// Every point on the ring is one of its owner's own `k` points.
pub open spec fn points_owned(m: Map<u64, Seq<char>>, k: nat) -> bool {
    forall|p: u64| #[trigger] m.contains_key(p) ==> is_vnode_point(m[p], k, p)
}

/// Volume `v` holds its `i`-th point, or another registered volume has a
/// point at the same place (which of the two holds it depends on which was
/// added last).
pub open spec fn point_held(
    reg: Map<Seq<char>, VolumeModel>,
    m: Map<u64, Seq<char>>,
    k: nat,
    v: Seq<char>,
    i: nat,
) -> bool {
    let p = vnode_point(v, i);
    ||| m.contains_key(p) && m[p] == v
    ||| exists|w: Seq<char>| reg.contains_key(w) && w != v && #[trigger] is_vnode_point(w, k, p)
}

/// Every healthy registered volume holds each of its `k` points, but for a
/// point that another registered volume shares.
pub open spec fn points_held(reg: Map<Seq<char>, VolumeModel>, m: Map<u64, Seq<char>>, k: nat) -> bool {
    forall|v: Seq<char>, i: nat|
        reg.contains_key(v) && reg[v].healthy && i < k ==> #[trigger] point_held(reg, m, k, v, i)
}

/// No two registered volumes have a point at the same place.
pub open spec fn no_collisions(reg: Map<Seq<char>, VolumeModel>, k: nat) -> bool {
    forall|v: Seq<char>, w: Seq<char>, i: nat, j: nat|
        reg.contains_key(v) && reg.contains_key(w) && v != w && i < k && j < k
            ==> #[trigger] vnode_point(v, i) != #[trigger] vnode_point(w, j)
}

/// Adding a volume, healthy, keeps the ring's points with their owners and
/// every healthy volume's points held.
proof fn lemma_held_after_add(
    reg: Map<Seq<char>, VolumeModel>,
    m: Map<u64, Seq<char>>,
    k: nat,
    id: Seq<char>,
    info: VolumeModel,
)
    requires
        points_owned(m, k),
        points_held(reg, m, k),
        info.healthy,
    ensures
        points_owned(with_volume(m, id, k), k),
        points_held(reg.insert(id, info), with_volume(m, id, k), k),
{
    let m2 = with_volume(m, id, k);
    let reg2 = reg.insert(id, info);
    assert forall|p: u64| #[trigger] m2.contains_key(p) implies is_vnode_point(m2[p], k, p) by {
        if !is_vnode_point(id, k, p) {
            assert(m.contains_key(p));
        }
    }
    assert forall|v: Seq<char>, i: nat|
        reg2.contains_key(v) && reg2[v].healthy && i < k implies #[trigger] point_held(
        reg2,
        m2,
        k,
        v,
        i,
    ) by {
        let p = vnode_point(v, i);
        if v == id {
            assert(is_vnode_point(id, k, p));
        } else if is_vnode_point(id, k, p) {
            assert(reg2.contains_key(id));
        } else {
            assert(point_held(reg, m, k, v, i));
            if m.contains_key(p) && m[p] == v {
                assert(m2.contains_key(p) && m2[p] == v);
            } else {
                let w = choose|w: Seq<char>|
                    reg.contains_key(w) && w != v && #[trigger] is_vnode_point(w, k, p);
                assert(reg2.contains_key(w));
            }
        }
    }
}

/// Changing the registry without adding health or dropping volumes keeps
/// every healthy volume's points held.
proof fn lemma_held_registry(
    reg: Map<Seq<char>, VolumeModel>,
    reg2: Map<Seq<char>, VolumeModel>,
    m: Map<u64, Seq<char>>,
    k: nat,
)
    requires
        points_held(reg, m, k),
        forall|v: Seq<char>| reg.contains_key(v) ==> #[trigger] reg2.contains_key(v),
        forall|v: Seq<char>|
            #[trigger] reg2.contains_key(v) && reg2[v].healthy ==> reg.contains_key(v)
                && reg[v].healthy,
    ensures
        points_held(reg2, m, k),
{
    assert forall|v: Seq<char>, i: nat|
        reg2.contains_key(v) && reg2[v].healthy && i < k implies #[trigger] point_held(
        reg2,
        m,
        k,
        v,
        i,
    ) by {
        assert(point_held(reg, m, k, v, i));
        let p = vnode_point(v, i);
        if !(m.contains_key(p) && m[p] == v) {
            let w = choose|w: Seq<char>|
                reg.contains_key(w) && w != v && #[trigger] is_vnode_point(w, k, p);
            assert(reg2.contains_key(w));
        }
    }
}

/// Taking unhealthy volumes' points off the ring keeps the rest held.
proof fn lemma_held_after_remove(
    reg: Map<Seq<char>, VolumeModel>,
    m: Map<u64, Seq<char>>,
    k: nat,
    d: Set<Seq<char>>,
)
    requires
        points_owned(m, k),
        points_held(reg, m, k),
        forall|v: Seq<char>| #[trigger] d.contains(v) ==> !(reg.contains_key(v) && reg[v].healthy),
    ensures
        points_owned(without_volumes(m, d), k),
        points_held(reg, without_volumes(m, d), k),
{
    let m2 = without_volumes(m, d);
    assert forall|p: u64| #[trigger] m2.contains_key(p) implies is_vnode_point(m2[p], k, p) by {
        assert(m.contains_key(p));
    }
    assert forall|v: Seq<char>, i: nat|
        reg.contains_key(v) && reg[v].healthy && i < k implies #[trigger] point_held(
        reg,
        m2,
        k,
        v,
        i,
    ) by {
        assert(point_held(reg, m, k, v, i));
        assert(!d.contains(v));
    }
}

/// The coordinator state.
pub struct CoordState {
    registry: KeyedVec<VolumeInfo>,
    ring: HashRing,
    replicas: usize,
    write_quorum: usize,
    dead_after: u128,
}

impl View for CoordState {
    type V = CoordModel;

    closed spec fn view(&self) -> CoordModel {
        CoordModel {
            registry: to_map(models_of(self.registry@)),
            ring: self.ring@,
            vnodes: self.ring.vnode_count(),
            replicas: self.replicas,
            write_quorum: self.write_quorum,
            dead_after: self.dead_after,
        }
    }
}

proof fn lemma_models_of_sorted(s: Seq<(Seq<char>, VolumeInfo)>)
    requires
        keys_sorted(s),
    ensures
        keys_sorted(models_of(s)),
        keys_of(models_of(s)) == keys_of(s),
        to_map(models_of(s)) == to_map(s).map_values(|v: VolumeInfo| v@),
{
    let t = models_of(s);
    assert forall|i: int, j: int| 0 <= i < j < t.len() implies #[trigger] crate::bytes_order::bytes_lt(
        key_bytes(t[i].0),
        key_bytes(t[j].0),
    ) by {
        assert(crate::bytes_order::bytes_lt(key_bytes(s[i].0), key_bytes(s[j].0)));
    }
    assert(keys_of(t) =~= keys_of(s));
    assert forall|k: Seq<char>| #[trigger] to_map(t).contains_key(k) == to_map(s).map_values(
        |v: VolumeInfo| v@,
    ).contains_key(k) by {
        if crate::keyed::has_key(t, k) {
            let i = choose|i: int| 0 <= i < t.len() && #[trigger] t[i].0 == k;
            assert(s[i].0 == k);
        }
        if crate::keyed::has_key(s, k) {
            let i = choose|i: int| 0 <= i < s.len() && #[trigger] s[i].0 == k;
            assert(t[i].0 == k);
        }
    }
    assert forall|k: Seq<char>| #[trigger] to_map(t).contains_key(k) implies to_map(t)[k] == to_map(
        s,
    ).map_values(|v: VolumeInfo| v@)[k] by {
        let i = choose|i: int| 0 <= i < t.len() && #[trigger] t[i].0 == k;
        lemma_to_map_index(t, i);
        lemma_to_map_index(s, i);
    }
    assert(to_map(t) =~= to_map(s).map_values(|v: VolumeInfo| v@));
}

impl CoordState {
    /// The registry is sorted by id, the write quorum equals the replica
    /// count, and every volume on the ring is registered and healthy.
    pub closed spec fn wf(&self) -> bool {
        &&& self.registry.wf()
        &&& self.ring.wf()
        &&& self.write_quorum == self.replicas
        &&& forall|x: Seq<char>| #[trigger]
            self.ring.volumes().contains(x) ==> self@.registry.contains_key(x)
                && self@.registry[x].healthy
        &&& points_owned(self.ring.map(), self.ring.vnode_count())
        &&& points_held(self@.registry, self.ring.map(), self.ring.vnode_count())
    }

    /// The registry's entries in id order.
    pub closed spec fn entries(&self) -> Seq<(Seq<char>, VolumeModel)> {
        models_of(self.registry@)
    }

    pub proof fn lemma_entries(&self)
        requires
            self.wf(),
        ensures
            keys_sorted(self.entries()),
            to_map(self.entries()) == self@.registry,
            points_sorted(self@.ring),
            strings_sorted(keys_of(self.entries())),
            keys_of(self.entries()).to_set() == self@.registry.dom(),
            self.entries().len() == self@.registry.len(),
    {
        lemma_models_of_sorted(self.registry@);
        lemma_keys_of_sorted(self.entries());
    }

    /// Every volume on the ring is registered and healthy.
    pub proof fn lemma_ring_volumes_healthy(&self, x: Seq<char>)
        requires
            self.wf(),
            ring_ids(self@.ring).contains(x),
        ensures
            self@.registry.contains_key(x),
            self@.registry[x].healthy,
    {
        assert(ring_ids(self.ring@).to_set().contains(x));
        assert(self.ring.volumes().contains(x));
    }

    /// Every point on the ring is one of its owner's points, every healthy
    /// registered volume holds each of its points, but for one that another
    /// registered volume shares, and the write quorum is the replica count.
    pub proof fn lemma_points_held(&self)
        requires
            self.wf(),
        ensures
            points_owned(ring_map(self@.ring), self@.vnodes),
            points_held(self@.registry, ring_map(self@.ring), self@.vnodes),
            self@.write_quorum == self@.replicas,
    {
    }

    /// Where no two registered volumes share a point and volumes have
    /// points at all, the volumes on the ring are exactly the healthy
    /// registered ones, and each holds every one of its points.
    pub proof fn lemma_ring_volumes_exact(&self)
        requires
            self.wf(),
            self@.vnodes > 0,
            no_collisions(self@.registry, self@.vnodes),
        ensures
            forall|v: Seq<char>|
                #[trigger] ring_ids(self@.ring).contains(v) <==> (self@.registry.contains_key(v)
                    && self@.registry[v].healthy),
            forall|v: Seq<char>, i: nat|
                self@.registry.contains_key(v) && self@.registry[v].healthy && i < self@.vnodes
                    ==> ring_map(self@.ring).contains_key(#[trigger] vnode_point(v, i))
                    && ring_map(self@.ring)[vnode_point(v, i)] == v,
    {
        let reg = self@.registry;
        let m = ring_map(self@.ring);
        let k = self@.vnodes;
        assert forall|v: Seq<char>, i: nat|
            reg.contains_key(v) && reg[v].healthy && i < k implies m.contains_key(
            #[trigger] vnode_point(v, i),
        ) && m[vnode_point(v, i)] == v by {
            assert(point_held(reg, m, k, v, i));
            let p = vnode_point(v, i);
            if !(m.contains_key(p) && m[p] == v) {
                let w = choose|w: Seq<char>|
                    reg.contains_key(w) && w != v && #[trigger] is_vnode_point(w, k, p);
                let j = choose|j: nat| j < k && #[trigger] vnode_point(w, j) == p;
                assert(vnode_point(v, i) != vnode_point(w, j));
            }
        }
        lemma_ring_ids_map(self@.ring);
        assert forall|v: Seq<char>|
            #[trigger] ring_ids(self@.ring).contains(v) <==> (reg.contains_key(v) && reg[v].healthy) by {
            if ring_ids(self@.ring).contains(v) {
                self.lemma_ring_volumes_healthy(v);
            }
            if reg.contains_key(v) && reg[v].healthy {
                let p = vnode_point(v, 0);
                assert(m.contains_key(p) && m[p] == v);
                assert(ring_ids(self@.ring).to_set().contains(v));
            }
        }
    }

    pub fn new(replicas: usize, vnodes: usize, dead_after: u128) -> (s: Self)
        ensures
            s.wf(),
            s@.registry == Map::<Seq<char>, VolumeModel>::empty(),
            s@.ring == Seq::<(u64, Seq<char>)>::empty(),
            s@.vnodes == vnodes,
            s@.replicas == replicas,
            s@.write_quorum == replicas,
            s@.dead_after == dead_after,
    {
        let s = CoordState {
            registry: KeyedVec::new(),
            ring: HashRing::new(vnodes),
            replicas,
            write_quorum: replicas,
            dead_after,
        };
        proof {
            assert(models_of(s.registry@) =~= Seq::<(Seq<char>, VolumeModel)>::empty());
            assert(s@.registry =~= Map::<Seq<char>, VolumeModel>::empty());
            assert(ring_ids(s.ring@) =~= Seq::<Seq<char>>::empty());
        }
        s
    }

    /// Registers a volume (again), healthy as of `now`, and puts its points
    /// on the ring.
    pub fn load_volume(&mut self, volume_id: String, addr: String, now: u64)
        requires
            old(self).wf(),
        ensures
            final(self).wf(),
            final(self)@ == (CoordModel {
                registry: old(self)@.registry.insert(volume_id@, alive(addr@, now)),
                ring: final(self)@.ring,
                ..old(self)@
            }),
            ring_map(final(self)@.ring) == with_volume(
                ring_map(old(self)@.ring),
                volume_id@,
                old(self)@.vnodes,
            ),
    {
        let ghost reg0 = self@.registry;
        let ghost vols0 = self.ring.volumes();
        let ghost m0 = self.ring.map();
        proof {
            lemma_models_of_sorted(self.registry@);
        }
        let ghost a = addr@;
        self.registry.insert(volume_id.clone(), VolumeInfo { addr, healthy: true, last_seen: now });
        self.ring.add_volume(volume_id.as_str());
        proof {
            lemma_models_of_sorted(self.registry@);
            assert(self@.registry =~= reg0.insert(volume_id@, alive(a, now)));
            lemma_held_after_add(reg0, m0, self.ring.vnode_count(), volume_id@, alive(a, now));
            assert forall|x: Seq<char>| #[trigger] self.ring.volumes().contains(x) implies self@.registry.contains_key(x)
                && self@.registry[x].healthy by {
                if x != volume_id@ {
                    assert(vols0.contains(x));
                }
            }
        }
    }

    /// Handles a registration.
    pub fn register(&mut self, req: RegisterRequest, now: u64)
        requires
            old(self).wf(),
        ensures
            final(self).wf(),
            final(self)@ == (CoordModel {
                registry: old(self)@.registry.insert(req.volume_id@, alive(req.addr@, now)),
                ring: final(self)@.ring,
                ..old(self)@
            }),
            ring_map(final(self)@.ring) == with_volume(
                ring_map(old(self)@.ring),
                req.volume_id@,
                old(self)@.vnodes,
            ),
    {
        self.load_volume(req.volume_id, req.addr, now);
    }

    pub fn register_for_test(&mut self, req: RegisterRequest, now: u64)
        requires
            old(self).wf(),
        ensures
            final(self).wf(),
            final(self)@ == (CoordModel {
                registry: old(self)@.registry.insert(req.volume_id@, alive(req.addr@, now)),
                ring: final(self)@.ring,
                ..old(self)@
            }),
            ring_map(final(self)@.ring) == with_volume(
                ring_map(old(self)@.ring),
                req.volume_id@,
                old(self)@.vnodes,
            ),
    {
        self.register(req, now);
    }
}


/// The registry after marking dead volumes unhealthy.
pub open spec fn reaped_registry(reg: Map<Seq<char>, VolumeModel>, now: u64, dead_after: u128) -> Map<
    Seq<char>,
    VolumeModel,
> {
    Map::new(
        |k: Seq<char>| reg.contains_key(k),
        |k: Seq<char>|
            if is_dead(reg[k], now, dead_after) {
                VolumeModel { healthy: false, ..reg[k] }
            } else {
                reg[k]
            },
    )
}

/// The ids of the volumes that a reap at `now` finds dead.
pub open spec fn dead_ids(reg: Map<Seq<char>, VolumeModel>, now: u64, dead_after: u128) -> Set<
    Seq<char>,
> {
    Set::new(|k: Seq<char>| reg.contains_key(k) && is_dead(reg[k], now, dead_after))
}

spec fn dead_before(e: Seq<(Seq<char>, VolumeModel)>, i: int, now: u64, dead_after: u128) -> Set<
    Seq<char>,
> {
    Set::new(
        |k: Seq<char>| exists|j: int| 0 <= j < i && #[trigger] e[j].0 == k && is_dead(e[j].1, now, dead_after),
    )
}

spec fn reaped_entry(v: VolumeModel, now: u64, dead_after: u128) -> VolumeModel {
    if is_dead(v, now, dead_after) {
        VolumeModel { healthy: false, ..v }
    } else {
        v
    }
}

proof fn lemma_count_healthy_le(s: Seq<(Seq<char>, VolumeModel)>)
    ensures
        count_healthy(s) <= s.len(),
    decreases s.len(),
{
    if s.len() > 0 {
        lemma_count_healthy_le(s.drop_last());
    }
}

/// When every listed volume is registered and healthy, routing keeps every
/// one of them: an address for each, and a healthy target for each.
pub proof fn lemma_route_complete(reg: Map<Seq<char>, VolumeModel>, ids: Seq<Seq<char>>)
    requires
        forall|i: int| 0 <= i < ids.len() ==> reg.contains_key(#[trigger] ids[i]) && reg[ids[i]].healthy,
    ensures
        healthy_addrs(reg, ids).len() == ids.len(),
        registered_targets(reg, ids).len() == ids.len(),
        forall|i: int| 0 <= i < ids.len() ==> (#[trigger] registered_targets(reg, ids)[i]).2,
        forall|i: int| 0 <= i < ids.len() ==> (#[trigger] registered_targets(reg, ids)[i]).0 == ids[i],
        forall|i: int|
            0 <= i < ids.len() ==> #[trigger] registered_targets(reg, ids)[i] == (
                ids[i],
                reg[ids[i]].addr,
                reg[ids[i]].healthy,
            ),
        forall|i: int| 0 <= i < ids.len() ==> #[trigger] healthy_addrs(reg, ids)[i] == reg[ids[i]].addr,
    decreases ids.len(),
{
    if ids.len() > 0 {
        let t = ids.drop_last();
        assert forall|i: int| 0 <= i < t.len() implies reg.contains_key(#[trigger] t[i]) && reg[t[i]].healthy by {
            assert(t[i] == ids[i]);
        }
        lemma_route_complete(reg, t);
        assert(ids.last() == ids[ids.len() - 1]);
        let r = registered_targets(reg, ids);
        let a = healthy_addrs(reg, ids);
        assert forall|i: int| 0 <= i < ids.len() implies (#[trigger] registered_targets(reg, ids)[i]).2 && registered_targets(reg, ids)[i].0 == ids[i]
            && registered_targets(reg, ids)[i] == (ids[i], reg[ids[i]].addr, reg[ids[i]].healthy)
            && healthy_addrs(reg, ids)[i] == reg[ids[i]].addr by {
            if i < t.len() {
                assert(r[i] == registered_targets(reg, t)[i]);
                assert(a[i] == healthy_addrs(reg, t)[i]);
                assert(t[i] == ids[i]);
            }
        }
    }
}

impl CoordState {
    pub fn replicas(&self) -> (r: usize)
        ensures
            r == self@.replicas,
    {
        self.replicas
    }

    pub fn write_quorum(&self) -> (r: usize)
        ensures
            r == self@.write_quorum,
    {
        self.write_quorum
    }

    /// Records a heartbeat: `false` for an unknown volume. A volume that was
    /// marked unhealthy becomes healthy again and gets its points back.
    pub fn heartbeat(&mut self, volume_id: &str, now: u64) -> (found: bool)
        requires
            old(self).wf(),
        ensures
            final(self).wf(),
            found == old(self)@.registry.contains_key(volume_id@),
            !found ==> final(self)@ == old(self)@,
            found ==> final(self)@ == (CoordModel {
                registry: old(self)@.registry.insert(
                    volume_id@,
                    alive(old(self)@.registry[volume_id@].addr, now),
                ),
                ring: final(self)@.ring,
                ..old(self)@
            }),
            found && old(self)@.registry[volume_id@].healthy ==> final(self)@.ring == old(self)@.ring,
            found && !old(self)@.registry[volume_id@].healthy ==> ring_map(final(self)@.ring)
                == with_volume(ring_map(old(self)@.ring), volume_id@, old(self)@.vnodes),
            found ==> forall|i: nat|
                i < final(self)@.vnodes ==> #[trigger] point_held(
                    final(self)@.registry,
                    ring_map(final(self)@.ring),
                    final(self)@.vnodes,
                    volume_id@,
                    i,
                ),
    {
        proof {
            lemma_models_of_sorted(self.registry@);
        }
        let ghost reg0 = self@.registry;
        let ghost vols0 = self.ring.volumes();
        let ghost m0 = self.ring.map();
        let ghost k = self.ring.vnode_count();
        match self.registry.find(volume_id) {
            Err(_) => {
                proof {
                    assert(!crate::keyed::has_key(self.registry@, volume_id@));
                }
                false
            },
            Ok(i) => {
                proof {
                    lemma_to_map_index(self.registry@, i as int);
                }
                let info = self.registry.value_at(i);
                let addr = info.addr.clone();
                let was_healthy = info.healthy;
                proof {
                    assert(reg0[volume_id@] == info@);
                }
                self.registry.set_value(i, VolumeInfo { addr, healthy: true, last_seen: now });
                if !was_healthy {
                    proof {
                        assert(!vols0.contains(volume_id@));
                    }
                    self.ring.add_volume(volume_id);
                }
                proof {
                    lemma_models_of_sorted(self.registry@);
                    let info2 = alive(reg0[volume_id@].addr, now);
                    assert(self@.registry =~= reg0.insert(volume_id@, info2));
                    if was_healthy {
                        lemma_held_registry(reg0, reg0.insert(volume_id@, info2), m0, k);
                    } else {
                        lemma_held_after_add(reg0, m0, k, volume_id@, info2);
                    }
                    assert forall|x: Seq<char>| #[trigger] self.ring.volumes().contains(x) implies self@.registry.contains_key(x)
                        && self@.registry[x].healthy by {
                        if x != volume_id@ {
                            assert(vols0.contains(x));
                        }
                    }
                }
                true
            },
        }
    }

    fn status_volumes(&self, now: u64) -> (r: Vec<StatusVolume>)
        requires
            self.wf(),
        ensures
            r@.len() == self.entries().len(),
            forall|i: int|
                0 <= i < r@.len() ==> {
                    &&& (#[trigger] r@[i]).volume_id@ == self.entries()[i].0
                    &&& r@[i].addr@ == self.entries()[i].1.addr
                    &&& r@[i].healthy == self.entries()[i].1.healthy
                    &&& r@[i].last_seen_secs_ago == elapsed(now, self.entries()[i].1.last_seen)
                        / 1_000_000_000
                },
    {
        let n = self.registry.len();
        let mut out: Vec<StatusVolume> = Vec::new();
        let mut i: usize = 0;
        while i < n
            invariant
                n == self.registry@.len(),
                i <= n,
                out@.len() == i,
                forall|j: int|
                    0 <= j < i ==> {
                        &&& (#[trigger] out@[j]).volume_id@ == self.entries()[j].0
                        &&& out@[j].addr@ == self.entries()[j].1.addr
                        &&& out@[j].healthy == self.entries()[j].1.healthy
                        &&& out@[j].last_seen_secs_ago == elapsed(now, self.entries()[j].1.last_seen)
                            / 1_000_000_000
                    },
            decreases n - i,
        {
            let id = self.registry.key_at(i);
            let info = self.registry.value_at(i);
            let since = if now >= info.last_seen {
                now - info.last_seen
            } else {
                0
            };
            out.push(
                StatusVolume {
                    volume_id: id.clone(),
                    addr: info.addr.clone(),
                    healthy: info.healthy,
                    last_seen_secs_ago: since / 1_000_000_000,
                },
            );
            i = i + 1;
        }
        out
    }

    /// The registry in id order, with how long ago each volume was seen.
    pub fn status(&self, now: u64) -> (r: StatusResponse)
        requires
            self.wf(),
        ensures
            r.replicas == self@.replicas,
            r.vnodes == self@.vnodes,
            r.volumes@.len() == self.entries().len(),
            forall|i: int|
                0 <= i < r.volumes@.len() ==> {
                    &&& (#[trigger] r.volumes@[i]).volume_id@ == self.entries()[i].0
                    &&& r.volumes@[i].addr@ == self.entries()[i].1.addr
                    &&& r.volumes@[i].healthy == self.entries()[i].1.healthy
                    &&& r.volumes@[i].last_seen_secs_ago == elapsed(now, self.entries()[i].1.last_seen)
                        / 1_000_000_000
                },
    {
        StatusResponse {
            replicas: self.replicas,
            vnodes: self.ring.vnodes_per_volume(),
            volumes: self.status_volumes(now),
        }
    }

    /// Counts of the registry's volumes.
    pub fn cluster_summary(&self) -> (r: ClusterSummary)
        requires
            self.wf(),
        ensures
            r.replicas == self@.replicas,
            r.write_quorum == self@.write_quorum,
            r.vnodes == self@.vnodes,
            r.total_volumes == self@.registry.len(),
            r.healthy_volumes == count_healthy(self.entries()),
            r.healthy_volumes == healthy_ids(self@.registry).len(),
            r.unhealthy_volumes == r.total_volumes - r.healthy_volumes,
    {
        proof {
            self.lemma_entries();
            lemma_count_healthy_ids(self.entries());
        }
        let n = self.registry.len();
        let mut healthy: usize = 0;
        let mut i: usize = 0;
        while i < n
            invariant
                n == self.registry@.len(),
                n == self.entries().len(),
                i <= n,
                healthy == count_healthy(self.entries().take(i as int)),
                healthy <= i,
            decreases n - i,
        {
            proof {
                assert(self.entries().take(i + 1).drop_last() =~= self.entries().take(i as int));
                assert(self.entries().take(i + 1).last() == self.entries()[i as int]);
            }
            if self.registry.value_at(i).healthy {
                healthy = healthy + 1;
            }
            i = i + 1;
        }
        proof {
            assert(self.entries().take(n as int) =~= self.entries());
        }
        ClusterSummary {
            replicas: self.replicas,
            write_quorum: self.write_quorum,
            vnodes: self.ring.vnodes_per_volume(),
            total_volumes: n,
            healthy_volumes: healthy,
            unhealthy_volumes: n - healthy,
        }
    }

    /// The summary together with the registry listing.
    pub fn cluster_response(&self, now: u64) -> (r: ClusterResponse)
        requires
            self.wf(),
        ensures
            r.summary.replicas == self@.replicas,
            r.summary.write_quorum == self@.write_quorum,
            r.summary.vnodes == self@.vnodes,
            r.summary.total_volumes == self@.registry.len(),
            r.summary.healthy_volumes == count_healthy(self.entries()),
            r.summary.healthy_volumes == healthy_ids(self@.registry).len(),
            r.summary.unhealthy_volumes == r.summary.total_volumes - r.summary.healthy_volumes,
            r.volumes@.len() == self.entries().len(),
            forall|i: int|
                0 <= i < r.volumes@.len() ==> {
                    &&& (#[trigger] r.volumes@[i]).volume_id@ == self.entries()[i].0
                    &&& r.volumes@[i].addr@ == self.entries()[i].1.addr
                    &&& r.volumes@[i].healthy == self.entries()[i].1.healthy
                    &&& r.volumes@[i].last_seen_secs_ago == elapsed(now, self.entries()[i].1.last_seen)
                        / 1_000_000_000
                },
    {
        ClusterResponse { summary: self.cluster_summary(), volumes: self.status_volumes(now) }
    }

    /// The registry's ids and addresses in id order, as persisted.
    pub fn meta_snapshot(&self) -> (r: Vec<MetaVolume>)
        requires
            self.wf(),
        ensures
            r@.len() == self.entries().len(),
            forall|i: int|
                0 <= i < r@.len() ==> (#[trigger] r@[i]).volume_id@ == self.entries()[i].0
                    && r@[i].addr@ == self.entries()[i].1.addr,
    {
        let n = self.registry.len();
        let mut out: Vec<MetaVolume> = Vec::new();
        let mut i: usize = 0;
        while i < n
            invariant
                n == self.registry@.len(),
                i <= n,
                out@.len() == i,
                forall|j: int|
                    0 <= j < i ==> (#[trigger] out@[j]).volume_id@ == self.entries()[j].0
                        && out@[j].addr@ == self.entries()[j].1.addr,
            decreases n - i,
        {
            out.push(
                MetaVolume {
                    volume_id: self.registry.key_at(i).clone(),
                    addr: self.registry.value_at(i).addr.clone(),
                },
            );
            i = i + 1;
        }
        out
    }

    /// The healthy volumes in id order, whose stats the coordinator collects.
    pub fn healthy_volume_stats_targets(&self) -> (r: Vec<VolumeStatsTarget>)
        requires
            self.wf(),
        ensures
            r@.len() == healthy_entries(self.entries()).len(),
            forall|i: int|
                0 <= i < r@.len() ==> (#[trigger] r@[i]).volume_id@ == healthy_entries(
                    self.entries(),
                )[i].0 && r@[i].addr@ == healthy_entries(self.entries())[i].1,
            forall|i: int|
                0 <= i < r@.len() ==> {
                    let id = (#[trigger] r@[i]).volume_id@;
                    &&& self@.registry.contains_key(id)
                    &&& self@.registry[id].healthy
                    &&& r@[i].addr@ == self@.registry[id].addr
                },
            forall|i: int, j: int|
                0 <= i < j < r@.len() ==> crate::bytes_order::bytes_lt(
                    key_bytes((#[trigger] r@[i]).volume_id@),
                    key_bytes((#[trigger] r@[j]).volume_id@),
                ),
            r@.len() == healthy_ids(self@.registry).len(),
    {
        proof {
            self.lemma_entries();
            lemma_healthy_entries(self.entries());
            lemma_count_healthy_ids(self.entries());
        }
        let n = self.registry.len();
        let mut out: Vec<VolumeStatsTarget> = Vec::new();
        let mut i: usize = 0;
        let ghost e = self.entries();
        while i < n
            invariant
                n == self.registry@.len(),
                e == self.entries(),
                e.len() == n,
                i <= n,
                out@.len() == healthy_entries(e.take(i as int)).len(),
                forall|j: int|
                    0 <= j < out@.len() ==> (#[trigger] out@[j]).volume_id@ == healthy_entries(
                        e.take(i as int),
                    )[j].0 && out@[j].addr@ == healthy_entries(e.take(i as int))[j].1,
            decreases n - i,
        {
            proof {
                assert(e.take(i + 1).drop_last() =~= e.take(i as int));
                assert(e.take(i + 1).last() == e[i as int]);
            }
            let info = self.registry.value_at(i);
            if info.healthy {
                out.push(
                    VolumeStatsTarget {
                        volume_id: self.registry.key_at(i).clone(),
                        addr: info.addr.clone(),
                    },
                );
            }
            i = i + 1;
        }
        proof {
            assert(e.take(n as int) =~= e);
        }
        out
    }

    /// The addresses of a key's healthy replicas, in ring order, and the
    /// write quorum.
    pub fn route_targets(&self, key: &str) -> (r: (Vec<String>, usize))
        requires
            self.wf(),
        ensures
            strings_view(r.0@) == healthy_addrs(
                self@.registry,
                replicas_spec(self@.ring, key@, self@.replicas as nat),
            ),
            r.1 == self@.write_quorum,
            r.0@.len() == replicas_spec(self@.ring, key@, self@.replicas as nat).len(),
            forall|i: int|
                0 <= i < r.0@.len() ==> (#[trigger] r.0@[i])@ == self@.registry[replicas_spec(
                    self@.ring,
                    key@,
                    self@.replicas as nat,
                )[i]].addr,
    {
        proof {
            self.lemma_routes_complete(key@);
        }
        let ids = self.ring.replicas_for(key, self.replicas);
        let ghost idv = strings_view(ids@);
        let mut out: Vec<String> = Vec::new();
        let mut i: usize = 0;
        proof {
            lemma_models_of_sorted(self.registry@);
        }
        while i < ids.len()
            invariant
                self.wf(),
                idv == strings_view(ids@),
                i <= ids@.len(),
                strings_view(out@) == healthy_addrs(self@.registry, idv.take(i as int)),
                to_map(models_of(self.registry@)) == self.registry.map().map_values(
                    |v: VolumeInfo| v@,
                ),
            decreases ids@.len() - i,
        {
            proof {
                assert(idv.take(i + 1).drop_last() =~= idv.take(i as int));
                assert(idv.take(i + 1).last() == idv[i as int]);
            }
            match self.registry.get(ids[i].as_str()) {
                Some(info) => {
                    if info.healthy {
                        let ghost before = out@;
                        out.push(info.addr.clone());
                        proof {
                            assert(strings_view(out@) =~= strings_view(before).push(info.addr@));
                        }
                    }
                },
                None => {},
            }
            i = i + 1;
        }
        proof {
            assert(idv.take(ids@.len() as int) =~= idv);
            let rs = replicas_spec(self@.ring, key@, self@.replicas as nat);
            assert forall|i: int| 0 <= i < out@.len() implies (#[trigger] out@[i])@
                == self@.registry[rs[i]].addr by {
                assert(strings_view(out@)[i] == out@[i]@);
            }
        }
        (out, self.write_quorum)
    }

    /// The replicas of a key with their addresses and health, for display.
    pub fn route_snapshot(&self, key: &str) -> (r: RouteSnapshot)
        requires
            self.wf(),
        ensures
            r.key@ == key@,
            r.replicas == self@.replicas,
            r.write_quorum == self@.write_quorum,
            r.targets@.len() == registered_targets(
                self@.registry,
                replicas_spec(self@.ring, key@, self@.replicas as nat),
            ).len(),
            forall|i: int|
                0 <= i < r.targets@.len() ==> {
                    let t = registered_targets(
                        self@.registry,
                        replicas_spec(self@.ring, key@, self@.replicas as nat),
                    )[i];
                    &&& (#[trigger] r.targets@[i]).volume_id@ == t.0
                    &&& r.targets@[i].addr@ == t.1
                    &&& r.targets@[i].healthy == t.2
                },
            r.targets@.len() == replicas_spec(self@.ring, key@, self@.replicas as nat).len(),
            forall|i: int|
                0 <= i < r.targets@.len() ==> {
                    let id = replicas_spec(self@.ring, key@, self@.replicas as nat)[i];
                    &&& (#[trigger] r.targets@[i]).volume_id@ == id
                    &&& self@.registry.contains_key(id)
                    &&& r.targets@[i].addr@ == self@.registry[id].addr
                    &&& r.targets@[i].healthy
                },
    {
        proof {
            self.lemma_routes_complete(key@);
        }
        let ids = self.ring.replicas_for(key, self.replicas);
        let ghost idv = strings_view(ids@);
        let mut out: Vec<RouteTarget> = Vec::new();
        let mut i: usize = 0;
        proof {
            lemma_models_of_sorted(self.registry@);
        }
        while i < ids.len()
            invariant
                self.wf(),
                idv == strings_view(ids@),
                i <= ids@.len(),
                out@.len() == registered_targets(self@.registry, idv.take(i as int)).len(),
                forall|j: int|
                    0 <= j < out@.len() ==> {
                        let t = registered_targets(self@.registry, idv.take(i as int))[j];
                        &&& (#[trigger] out@[j]).volume_id@ == t.0
                        &&& out@[j].addr@ == t.1
                        &&& out@[j].healthy == t.2
                    },
                to_map(models_of(self.registry@)) == self.registry.map().map_values(
                    |v: VolumeInfo| v@,
                ),
            decreases ids@.len() - i,
        {
            proof {
                assert(idv.take(i + 1).drop_last() =~= idv.take(i as int));
                assert(idv.take(i + 1).last() == idv[i as int]);
            }
            match self.registry.get(ids[i].as_str()) {
                Some(info) => {
                    out.push(
                        RouteTarget {
                            volume_id: ids[i].clone(),
                            addr: info.addr.clone(),
                            healthy: info.healthy,
                        },
                    );
                },
                None => {},
            }
            i = i + 1;
        }
        proof {
            assert(idv.take(ids@.len() as int) =~= idv);
        }
        RouteSnapshot {
            key: key.to_owned(),
            replicas: self.replicas,
            write_quorum: self.write_quorum,
            targets: out,
        }
    }

    /// A key's request addresses are those of its route snapshot's healthy
    /// targets, in order, with no more of them than the replica count.
    pub proof fn lemma_routes_agree(&self, key: Seq<char>)
        requires
            self.wf(),
        ensures
            ({
                let ids = replicas_spec(self@.ring, key, self@.replicas as nat);
                &&& healthy_addrs(self@.registry, ids) == healthy_target_addrs(
                    registered_targets(self@.registry, ids),
                )
                &&& healthy_addrs(self@.registry, ids).len() <= self@.replicas
            }),
    {
        let ids = replicas_spec(self@.ring, key, self@.replicas as nat);
        self.lemma_entries();
        lemma_replicas_count(self@.ring, key, self@.replicas as nat);
        lemma_route_matches_snapshot(self@.registry, ids);
    }

    /// Every replica of a key is registered and healthy, so routing drops
    /// none: one address and one healthy target per replica.
    pub proof fn lemma_routes_complete(&self, key: Seq<char>)
        requires
            self.wf(),
        ensures
            ({
                let ids = replicas_spec(self@.ring, key, self@.replicas as nat);
                &&& healthy_addrs(self@.registry, ids).len() == ids.len()
                &&& registered_targets(self@.registry, ids).len() == ids.len()
                &&& forall|i: int|
                    0 <= i < ids.len() ==> (#[trigger] registered_targets(self@.registry, ids)[i]).2
                &&& forall|i: int|
                    0 <= i < ids.len() ==> #[trigger] registered_targets(self@.registry, ids)[i] == (
                        ids[i],
                        self@.registry[ids[i]].addr,
                        true,
                    )
                &&& forall|i: int|
                    0 <= i < ids.len() ==> #[trigger] healthy_addrs(self@.registry, ids)[i]
                        == self@.registry[ids[i]].addr
                &&& forall|i: int|
                    0 <= i < ids.len() ==> self@.registry.contains_key(#[trigger] ids[i])
                        && self@.registry[ids[i]].healthy
            }),
    {
        let ids = replicas_spec(self@.ring, key, self@.replicas as nat);
        assert forall|i: int| 0 <= i < ids.len() implies self@.registry.contains_key(#[trigger] ids[i])
            && self@.registry[ids[i]].healthy by {
            assert(ids.contains(ids[i]));
            lemma_replicas_on_ring(self@.ring, key, self@.replicas as nat, ids[i]);
            self.lemma_ring_volumes_healthy(ids[i]);
        }
        lemma_route_complete(self@.registry, ids);
    }
}


/// The addresses of the healthy targets, in order.
pub open spec fn healthy_target_addrs(ts: Seq<(Seq<char>, Seq<char>, bool)>) -> Seq<Seq<char>>
    decreases ts.len(),
{
    if ts.len() == 0 {
        Seq::empty()
    } else {
        let rest = healthy_target_addrs(ts.drop_last());
        if ts.last().2 {
            rest.push(ts.last().1)
        } else {
            rest
        }
    }
}

/// Routing and the route snapshot agree on any list of volumes: the
/// addresses a request goes to are those of the snapshot's healthy targets,
/// in the same order, and there are no more of them than volumes listed.
pub proof fn lemma_route_matches_snapshot(reg: Map<Seq<char>, VolumeModel>, ids: Seq<Seq<char>>)
    ensures
        healthy_addrs(reg, ids) == healthy_target_addrs(registered_targets(reg, ids)),
        healthy_addrs(reg, ids).len() <= ids.len(),
    decreases ids.len(),
{
    if ids.len() > 0 {
        let rest = ids.drop_last();
        let x = ids.last();
        lemma_route_matches_snapshot(reg, rest);
        if reg.contains_key(x) {
            let rt = registered_targets(reg, rest);
            assert(rt.push((x, reg[x].addr, reg[x].healthy)).drop_last() =~= rt);
        }
    }
}

/// Loading a volume from saved metadata and registering it lead to the same
/// state: two states that each of them can reach from one state are equal.
pub proof fn lemma_load_is_register(
    a: CoordModel,
    b: CoordModel,
    c: CoordModel,
    volume_id: Seq<char>,
    addr: Seq<char>,
    now: u64,
)
    requires
        points_sorted(b.ring),
        points_sorted(c.ring),
        b == (CoordModel {
            registry: a.registry.insert(volume_id, alive(addr, now)),
            ring: b.ring,
            ..a
        }),
        c == (CoordModel {
            registry: a.registry.insert(volume_id, alive(addr, now)),
            ring: c.ring,
            ..a
        }),
        ring_map(b.ring) == with_volume(ring_map(a.ring), volume_id, a.vnodes),
        ring_map(c.ring) == with_volume(ring_map(a.ring), volume_id, a.vnodes),
    ensures
        b == c,
{
    lemma_ring_unique(b.ring, c.ring);
}

proof fn lemma_without_volumes_step(m: Map<u64, Seq<char>>, d: Set<Seq<char>>, x: Seq<char>)
    ensures
        without_volume(without_volumes(m, d), x) == without_volumes(m, d.insert(x)),
{
    assert(without_volume(without_volumes(m, d), x) =~= without_volumes(m, d.insert(x)));
}

impl CoordState {
    /// Marks every healthy volume not seen for longer than `dead_after`
    /// unhealthy and takes its points off the ring.
    pub fn reap_dead(&mut self, now: u64)
        requires
            old(self).wf(),
        ensures
            final(self).wf(),
            final(self)@ == (CoordModel {
                registry: reaped_registry(old(self)@.registry, now, old(self)@.dead_after),
                ring: final(self)@.ring,
                ..old(self)@
            }),
            ring_map(final(self)@.ring) == without_volumes(
                ring_map(old(self)@.ring),
                dead_ids(old(self)@.registry, now, old(self)@.dead_after),
            ),
    {
        proof {
            lemma_models_of_sorted(self.registry@);
            self.lemma_entries();
        }
        let ghost e0 = self.entries();
        let ghost reg0 = self@.registry;
        let ghost m0 = self.ring.map();
        let ghost vols0 = self.ring.volumes();
        let ghost da = self.dead_after;
        let n = self.registry.len();
        let mut i: usize = 0;
        proof {
            assert(dead_before(e0, 0, now, da) =~= Set::<Seq<char>>::empty());
            assert(without_volumes(m0, Set::<Seq<char>>::empty()) =~= m0);
            assert(vols0.difference(Set::<Seq<char>>::empty()) =~= vols0);
        }
        while i < n
            invariant
                n == self.registry@.len(),
                n == e0.len(),
                i <= n,
                self.registry.wf(),
                self.ring.wf(),
                self.write_quorum == self.replicas,
                self.dead_after == da,
                self.ring.vnode_count() == old(self).ring.vnode_count(),
                self.replicas == old(self).replicas,
                keys_of(self.entries()) == keys_of(e0),
                self.entries().len() == n,
                forall|j: int|
                    0 <= j < n ==> (#[trigger] self.entries()[j]).1 == if j < i {
                        reaped_entry(e0[j].1, now, da)
                    } else {
                        e0[j].1
                    },
                self.ring.map() == without_volumes(m0, dead_before(e0, i as int, now, da)),
                self.ring.volumes() == vols0.difference(dead_before(e0, i as int, now, da)),
            decreases n - i,
        {
            let ghost before = self.entries();
            let info = self.registry.value_at(i);
            let since = if now >= info.last_seen {
                now - info.last_seen
            } else {
                0
            };
            proof {
                assert(before[i as int].1 == e0[i as int].1);
                assert(info@ == e0[i as int].1);
            }
            let dead = info.healthy && (since as u128) > self.dead_after;
            if dead {
                let unhealthy = VolumeInfo {
                    addr: info.addr.clone(),
                    healthy: false,
                    last_seen: info.last_seen,
                };
                let id = self.registry.key_at(i).clone();
                self.registry.set_value(i, unhealthy);
                self.ring.remove_volume(id.as_str());
                proof {
                    assert(keys_of(before)[i as int] == id@);
                    assert(keys_of(e0)[i as int] == e0[i as int].0);
                    lemma_without_volumes_step(m0, dead_before(e0, i as int, now, da), id@);
                    assert(dead_before(e0, i + 1, now, da) =~= dead_before(e0, i as int, now, da).insert(
                        id@,
                    ));
                    assert(vols0.difference(dead_before(e0, i as int, now, da)).remove(id@)
                        =~= vols0.difference(dead_before(e0, i + 1, now, da)));
                    assert(keys_of(self.entries()) =~= keys_of(before));
                    assert forall|j: int| 0 <= j < n implies (#[trigger] self.entries()[j]).1 == if j < i + 1 {
                        reaped_entry(e0[j].1, now, da)
                    } else {
                        e0[j].1
                    } by {
                        if j != i {
                            assert(self.entries()[j] == before[j]);
                        }
                    }
                }
            } else {
                proof {
                    assert(dead_before(e0, i + 1, now, da) =~= dead_before(e0, i as int, now, da));
                }
            }
            i = i + 1;
        }
        proof {
            lemma_models_of_sorted(self.registry@);
            let e1 = self.entries();
            assert forall|k: Seq<char>| dead_before(e0, n as int, now, da).contains(k) == dead_ids(reg0, now, da).contains(k) by {
                if dead_before(e0, n as int, now, da).contains(k) {
                    let j = choose|j: int| 0 <= j < n && #[trigger] e0[j].0 == k && is_dead(e0[j].1, now, da);
                    lemma_to_map_index(e0, j);
                }
                if dead_ids(reg0, now, da).contains(k) {
                    assert(keys_of(e0).to_set().contains(k));
                    let j = choose|j: int| 0 <= j < keys_of(e0).len() && keys_of(e0)[j] == k;
                    lemma_to_map_index(e0, j);
                    assert(e0[j].0 == k);
                }
            }
            assert(dead_before(e0, n as int, now, da) =~= dead_ids(reg0, now, da));
            assert forall|k: Seq<char>| #[trigger] self@.registry.contains_key(k) == reaped_registry(reg0, now, da).contains_key(k) by {
                if crate::keyed::has_key(e1, k) {
                    let j = choose|j: int| 0 <= j < e1.len() && #[trigger] e1[j].0 == k;
                    assert(keys_of(e1)[j] == k);
                    assert(keys_of(e0)[j] == k);
                    assert(e0[j].0 == k);
                }
                if crate::keyed::has_key(e0, k) {
                    let j = choose|j: int| 0 <= j < e0.len() && #[trigger] e0[j].0 == k;
                    assert(keys_of(e0)[j] == k);
                    assert(keys_of(e1)[j] == k);
                    assert(e1[j].0 == k);
                }
            }
            assert forall|k: Seq<char>| #[trigger] self@.registry.contains_key(k) implies self@.registry[k] == reaped_registry(reg0, now, da)[k] by {
                let j = choose|j: int| 0 <= j < e1.len() && #[trigger] e1[j].0 == k;
                assert(keys_of(e1)[j] == k);
                assert(keys_of(e0)[j] == k);
                assert(e0[j].0 == k);
                lemma_to_map_index(e1, j);
                lemma_to_map_index(e0, j);
            }
            assert(self@.registry =~= reaped_registry(reg0, now, da));
            let reg1 = reaped_registry(reg0, now, da);
            lemma_held_registry(reg0, reg1, m0, self.ring.vnode_count());
            lemma_held_after_remove(reg1, m0, self.ring.vnode_count(), dead_ids(reg0, now, da));
            assert forall|x: Seq<char>| #[trigger] self.ring.volumes().contains(x) implies self@.registry.contains_key(x)
                && self@.registry[x].healthy by {
                assert(vols0.contains(x));
                assert(!dead_ids(reg0, now, da).contains(x));
            }
        }
    }

    pub fn reap_dead_for_test(&mut self, now: u64)
        requires
            old(self).wf(),
        ensures
            final(self).wf(),
            final(self)@ == (CoordModel {
                registry: reaped_registry(old(self)@.registry, now, old(self)@.dead_after),
                ring: final(self)@.ring,
                ..old(self)@
            }),
            ring_map(final(self)@.ring) == without_volumes(
                ring_map(old(self)@.ring),
                dead_ids(old(self)@.registry, now, old(self)@.dead_after),
            ),
    {
        self.reap_dead(now);
    }
}

} // verus!
