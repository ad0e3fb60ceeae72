//! Consistent-hash ring: each volume owns `vnodes` points on a 64-bit circle,
//! and a key's replicas are the first distinct volumes met walking clockwise
//! from the key's own hash.
use crate::keyed::{lemma_seq_insert_to_set, str_eq};
use crate::text::{decimal, push_decimal};
use std::collections::hash_map::DefaultHasher;
use std::hash::{Hash, Hasher};
use vstd::prelude::*;
use vstd::std_specs::hash::DefaultHasherAdditionalSpecFns;
use vstd::string::StringExecFns;

verus! {

/// What `<str as Hash>::hash` leaves in a `DefaultHasher` whose record of
/// writes was `state` before.
pub uninterp spec fn str_hash_state(state: Seq<Seq<u8>>, s: Seq<char>) -> Seq<Seq<u8>>;

/// Feeds a string into a hasher.
/// Trusted: `<str as std::hash::Hash>::hash` with a `DefaultHasher`; the
/// contract only names what the call leaves in the hasher, as a function of
/// the hasher's earlier writes and the string.
#[verifier::external_body]
fn hash_str_into(value: &str, state: &mut DefaultHasher)
    ensures
        final(state)@ == str_hash_state(old(state)@, value@),
{
    value.hash(state);
}

/// The 64-bit hash of a string, as `DefaultHasher::new()` computes it.
pub open spec fn hash64_spec(s: Seq<char>) -> u64 {
    DefaultHasher::spec_finish(str_hash_state(Seq::empty(), s))
}

/// Hashes a string with a fresh `DefaultHasher`.
pub fn hash64(value: &str) -> (h: u64)
    ensures
        h == hash64_spec(value@),
{
    let mut hasher = DefaultHasher::new();
    hash_str_into(value, &mut hasher);
    hasher.finish()
}

/// The label of a volume's `vnode`-th point: `{volume_id}#{vnode}`.
pub open spec fn vnode_label(volume_id: Seq<char>, vnode: nat) -> Seq<char> {
    volume_id + seq!['#'] + decimal(vnode)
}

/// Where a volume's `vnode`-th point sits on the ring.
pub open spec fn vnode_point(volume_id: Seq<char>, vnode: nat) -> u64 {
    hash64_spec(vnode_label(volume_id, vnode))
}

/// Whether `p` is one of the first `k` points of a volume.
pub open spec fn is_vnode_point(volume_id: Seq<char>, k: nat, p: u64) -> bool {
    exists|i: nat| i < k && #[trigger] vnode_point(volume_id, i) == p
}

/// The ring without any point owned by `volume_id`.
pub open spec fn without_volume(m: Map<u64, Seq<char>>, volume_id: Seq<char>) -> Map<
    u64,
    Seq<char>,
> {
    Map::new(|p: u64| m.contains_key(p) && m[p] != volume_id, |p: u64| m[p])
}

/// The ring after (re)adding a volume with `k` points: its old points are
/// gone, its `k` points belong to it (taking over any point of another volume
/// that hashed to the same place), and every other point stays.
pub open spec fn with_volume(m: Map<u64, Seq<char>>, volume_id: Seq<char>, k: nat) -> Map<
    u64,
    Seq<char>,
> {
    Map::new(
        |p: u64| without_volume(m, volume_id).contains_key(p) || is_vnode_point(volume_id, k, p),
        |p: u64|
            if is_vnode_point(volume_id, k, p) {
                volume_id
            } else {
                m[p]
            },
    )
}

/// Points in strictly increasing order.
pub open spec fn points_sorted(s: Seq<(u64, Seq<char>)>) -> bool {
    forall|i: int, j: int| 0 <= i < j < s.len() ==> #[trigger] s[i].0 < #[trigger] s[j].0
}

pub open spec fn has_point(s: Seq<(u64, Seq<char>)>, p: u64) -> bool {
    exists|i: int| 0 <= i < s.len() && #[trigger] s[i].0 == p
}

pub open spec fn point_index(s: Seq<(u64, Seq<char>)>, p: u64) -> int {
    choose|i: int| 0 <= i < s.len() && #[trigger] s[i].0 == p
}

/// The map from points to volume ids that a sorted sequence stands for.
pub open spec fn ring_map(s: Seq<(u64, Seq<char>)>) -> Map<u64, Seq<char>> {
    Map::new(|p: u64| has_point(s, p), |p: u64| s[point_index(s, p)].1)
}

/// The volume ids on the ring, in point order (with repeats).
pub open spec fn ring_ids(s: Seq<(u64, Seq<char>)>) -> Seq<Seq<char>> {
    s.map_values(|e: (u64, Seq<char>)| e.1)
}

/// The number of points below `start`.
pub open spec fn count_below(s: Seq<(u64, Seq<char>)>, start: u64) -> nat
    decreases s.len(),
{
    if s.len() == 0 {
        0
    } else {
        count_below(s.drop_last(), start) + if s.last().0 < start {
            1nat
        } else {
            0nat
        }
    }
}

/// The volume ids met walking clockwise from `start`: the points at or above
/// `start` in order, then the points below it.
pub open spec fn walk(s: Seq<(u64, Seq<char>)>, start: u64) -> Seq<Seq<char>> {
    let c = count_below(s, start) as int;
    ring_ids(s.subrange(c, s.len() as int) + s.subrange(0, c))
}

/// The first occurrence of each element, in order.
pub open spec fn dedup(s: Seq<Seq<char>>) -> Seq<Seq<char>>
    decreases s.len(),
{
    if s.len() == 0 {
        Seq::empty()
    } else {
        let d = dedup(s.drop_last());
        if d.contains(s.last()) {
            d
        } else {
            d.push(s.last())
        }
    }
}

/// The replicas of `key`: the first `n` distinct volumes on the walk from
/// the key's hash.
pub open spec fn replicas_spec(s: Seq<(u64, Seq<char>)>, key: Seq<char>, n: nat) -> Seq<
    Seq<char>,
> {
    let d = dedup(walk(s, hash64_spec(key)));
    if n <= d.len() {
        d.take(n as int)
    } else {
        d
    }
}

/// The views of a sequence of strings.
pub open spec fn strings_view(v: Seq<String>) -> Seq<Seq<char>> {
    v.map_values(|s: String| s@)
}

pub proof fn lemma_ring_map_index(s: Seq<(u64, Seq<char>)>, i: int)
    requires
        points_sorted(s),
        0 <= i < s.len(),
    ensures
        ring_map(s).contains_key(s[i].0),
        ring_map(s)[s[i].0] == s[i].1,
{
    let p = s[i].0;
    assert(has_point(s, p));
    let j = point_index(s, p);
    if j < i {
        assert(s[j].0 < s[i].0);
    } else if j > i {
        assert(s[i].0 < s[j].0);
    }
    assert(ring_map(s)[p] == s[j].1);
}

proof fn lemma_insert_point(s: Seq<(u64, Seq<char>)>, i: int, p: u64, v: Seq<char>)
    requires
        points_sorted(s),
        0 <= i <= s.len(),
        forall|j: int| 0 <= j < i ==> #[trigger] s[j].0 < p,
        forall|j: int| i <= j < s.len() ==> p < #[trigger] s[j].0,
    ensures
        points_sorted(s.insert(i, (p, v))),
        ring_map(s.insert(i, (p, v))) == ring_map(s).insert(p, v),
{
    let t = s.insert(i, (p, v));
    assert forall|a: int, b: int| 0 <= a < b < t.len() implies #[trigger] t[a].0 < #[trigger] t[b].0 by {
        if a < i && b < i {
            assert(s[a].0 < s[b].0);
        } else if a < i && b > i {
            assert(t[b] == s[b - 1]);
        } else if a > i {
            assert(t[a] == s[a - 1]);
            assert(t[b] == s[b - 1]);
            assert(s[a - 1].0 < s[b - 1].0);
        } else if a == i {
            assert(t[b] == s[b - 1]);
        }
    }
    assert forall|q: u64| has_point(t, q) == (has_point(s, q) || q == p) by {
        if has_point(t, q) {
            let j = choose|j: int| 0 <= j < t.len() && #[trigger] t[j].0 == q;
            if j < i {
                assert(s[j].0 == q);
            } else if j > i {
                assert(s[j - 1].0 == q);
            }
        }
        if has_point(s, q) {
            let j = choose|j: int| 0 <= j < s.len() && #[trigger] s[j].0 == q;
            if j < i {
                assert(t[j].0 == q);
            } else {
                assert(t[j + 1].0 == q);
            }
        }
        if q == p {
            assert(t[i].0 == p);
        }
    }
    assert forall|q: u64| #[trigger] ring_map(t).contains_key(q) implies ring_map(t)[q] == ring_map(
        s,
    ).insert(p, v)[q] by {
        if q == p {
            lemma_ring_map_index(t, i);
        } else {
            assert(has_point(s, q));
            let j = choose|j: int| 0 <= j < s.len() && #[trigger] s[j].0 == q;
            lemma_ring_map_index(s, j);
            if j < i {
                assert(t[j] == s[j]);
                lemma_ring_map_index(t, j);
            } else {
                assert(t[j + 1] == s[j]);
                lemma_ring_map_index(t, j + 1);
            }
        }
    }
    assert(ring_map(t) =~= ring_map(s).insert(p, v));
}

proof fn lemma_update_point(s: Seq<(u64, Seq<char>)>, i: int, v: Seq<char>)
    requires
        points_sorted(s),
        0 <= i < s.len(),
    ensures
        points_sorted(s.update(i, (s[i].0, v))),
        ring_map(s.update(i, (s[i].0, v))) == ring_map(s).insert(s[i].0, v),
{
    let p = s[i].0;
    let t = s.update(i, (p, v));
    assert forall|a: int, b: int| 0 <= a < b < t.len() implies #[trigger] t[a].0 < #[trigger] t[b].0 by {
        assert(t[a].0 == s[a].0);
        assert(t[b].0 == s[b].0);
        assert(s[a].0 < s[b].0);
    }
    assert forall|q: u64| has_point(t, q) == has_point(s, q) by {
        if has_point(t, q) {
            let j = choose|j: int| 0 <= j < t.len() && #[trigger] t[j].0 == q;
            assert(s[j].0 == q);
        }
        if has_point(s, q) {
            let j = choose|j: int| 0 <= j < s.len() && #[trigger] s[j].0 == q;
            assert(t[j].0 == q);
        }
    }
    assert(has_point(s, p)) by {
        assert(s[i].0 == p);
    }
    assert forall|q: u64| #[trigger] ring_map(t).contains_key(q) implies ring_map(t)[q] == ring_map(
        s,
    ).insert(p, v)[q] by {
        assert(has_point(s, q));
        let j = choose|j: int| 0 <= j < s.len() && #[trigger] s[j].0 == q;
        assert(t[j].0 == q);
        lemma_ring_map_index(t, j);
        lemma_ring_map_index(s, j);
    }
    assert(ring_map(t) =~= ring_map(s).insert(p, v));
}

proof fn lemma_push_point(s: Seq<(u64, Seq<char>)>, p: u64, v: Seq<char>)
    requires
        points_sorted(s),
        forall|j: int| 0 <= j < s.len() ==> #[trigger] s[j].0 < p,
    ensures
        points_sorted(s.push((p, v))),
        ring_map(s.push((p, v))) == ring_map(s).insert(p, v),
{
    assert(s.push((p, v)) =~= s.insert(s.len() as int, (p, v)));
    lemma_insert_point(s, s.len() as int, p, v);
}

proof fn lemma_count_below(s: Seq<(u64, Seq<char>)>, start: u64, c: int)
    requires
        0 <= c <= s.len(),
        forall|j: int| 0 <= j < c ==> #[trigger] s[j].0 < start,
        forall|j: int| c <= j < s.len() ==> start <= #[trigger] s[j].0,
    ensures
        count_below(s, start) == c,
    decreases s.len(),
{
    if s.len() > 0 {
        let t = s.drop_last();
        if c == s.len() {
            assert forall|j: int| 0 <= j < c - 1 implies #[trigger] t[j].0 < start by {
                assert(t[j] == s[j]);
            }
            lemma_count_below(t, start, c - 1);
            assert(s.last() == s[s.len() - 1]);
        } else {
            assert forall|j: int| 0 <= j < c implies #[trigger] t[j].0 < start by {
                assert(t[j] == s[j]);
            }
            assert forall|j: int| c <= j < t.len() implies start <= #[trigger] t[j].0 by {
                assert(t[j] == s[j]);
            }
            lemma_count_below(t, start, c);
        }
    }
}

/// One point of the ring and the volume that owns it.
#[derive(Debug)]
pub struct RingPoint {
    pub point: u64,
    pub volume_id: String,
}

/// The consistent-hash ring.
#[derive(Debug)]
pub struct HashRing {
    ring: Vec<RingPoint>,
    pub vnodes: usize,
}

impl View for HashRing {
    type V = Seq<(u64, Seq<char>)>;

    closed spec fn view(&self) -> Seq<(u64, Seq<char>)> {
        self.ring@.map_values(|e: RingPoint| (e.point, e.volume_id@))
    }
}

impl HashRing {
    /// The ring's points are strictly increasing.
    pub open spec fn wf(&self) -> bool {
        points_sorted(self@)
    }

    /// How many points each volume gets.
    pub closed spec fn vnode_count(&self) -> nat {
        self.vnodes as nat
    }

    /// The ring as a map from points to volume ids.
    pub open spec fn map(&self) -> Map<u64, Seq<char>> {
        ring_map(self@)
    }

    /// The set of volume ids that own at least one point.
    pub open spec fn volumes(&self) -> Set<Seq<char>> {
        ring_ids(self@).to_set()
    }

    pub fn new(vnodes: usize) -> (r: Self)
        ensures
            r.wf(),
            r.vnode_count() == vnodes,
            r@ == Seq::<(u64, Seq<char>)>::empty(),
    {
        let r = HashRing { ring: Vec::new(), vnodes };
        assert(r@ =~= Seq::<(u64, Seq<char>)>::empty());
        r
    }

    /// How many points each volume gets.
    pub fn vnodes_per_volume(&self) -> (r: usize)
        ensures
            r == self.vnode_count(),
    {
        self.vnodes
    }

    /// The number of points on the ring.
    pub fn len(&self) -> (n: usize)
        ensures
            n == self@.len(),
    {
        self.ring.len()
    }

    /// The first position whose point is at least `start`.
    fn lower_bound(&self, start: u64) -> (c: usize)
        requires
            self.wf(),
        ensures
            c == count_below(self@, start),
            c <= self@.len(),
    {
        let mut lo: usize = 0;
        let mut hi: usize = self.ring.len();
        while lo < hi
            invariant
                self.wf(),
                lo <= hi <= self@.len(),
                self@.len() == self.ring@.len(),
                forall|j: int| 0 <= j < lo ==> #[trigger] self@[j].0 < start,
                forall|j: int| hi <= j < self@.len() ==> start <= #[trigger] self@[j].0,
            decreases hi - lo,
        {
            let mid = lo + (hi - lo) / 2;
            assert(self@[mid as int].0 == self.ring@[mid as int].point);
            if self.ring[mid].point < start {
                proof {
                    assert forall|j: int| 0 <= j < mid + 1 implies #[trigger] self@[j].0 < start by {
                        if j < mid {
                            assert(self@[j].0 < self@[mid as int].0);
                        }
                    }
                }
                lo = mid + 1;
            } else {
                proof {
                    assert forall|j: int| mid <= j < self@.len() implies start
                        <= #[trigger] self@[j].0 by {
                        if j > mid {
                            assert(self@[mid as int].0 < self@[j].0);
                        }
                    }
                }
                hi = mid;
            }
        }
        proof {
            lemma_count_below(self@, start, lo as int);
        }
        lo
    }

    /// Puts `volume_id` at `point`, replacing whatever owned that point.
    fn insert_point(&mut self, point: u64, volume_id: String)
        requires
            old(self).wf(),
        ensures
            final(self).wf(),
            final(self).map() == old(self).map().insert(point, volume_id@),
            final(self).vnode_count() == old(self).vnode_count(),
    {
        let c = self.lower_bound(point);
        let ghost s0 = self@;
        proof {
            lemma_count_split(s0, point);
        }
        if c < self.ring.len() && self.ring[c].point == point {
            let old_entry = self.ring.remove(c);
            self.ring.insert(c, RingPoint { point, volume_id });
            proof {
                assert(s0[c as int].0 == point);
                assert(self@ =~= s0.update(c as int, (s0[c as int].0, volume_id@)));
                lemma_update_point(s0, c as int, volume_id@);
            }
        } else {
            let ghost v = volume_id@;
            self.ring.insert(c, RingPoint { point, volume_id });
            proof {
                assert forall|j: int| c <= j < s0.len() implies point < #[trigger] s0[j].0 by {
                    assert(self.ring@.len() == s0.len() + 1);
                    if j > c {
                        assert(s0[c as int].0 < s0[j].0);
                    }
                    if c < s0.len() {
                        assert(s0[c as int].0 != point);
                    }
                }
                assert(self@ =~= s0.insert(c as int, (point, v)));
                lemma_insert_point(s0, c as int, point, v);
            }
        }
    }

    /// Removes every point owned by `volume_id`.
    pub fn remove_volume(&mut self, volume_id: &str)
        requires
            old(self).wf(),
        ensures
            final(self).wf(),
            final(self).map() == without_volume(old(self).map(), volume_id@),
            final(self).vnode_count() == old(self).vnode_count(),
            final(self).volumes() == old(self).volumes().remove(volume_id@),
    {
        let ghost s0 = self@;
        let mut kept: Vec<RingPoint> = Vec::new();
        let mut i: usize = 0;
        let n = self.ring.len();
        while i < n
            invariant
                s0 == self@,
                points_sorted(s0),
                n == s0.len(),
                n == self.ring@.len(),
                i <= n,
                points_sorted(kept@.map_values(|e: RingPoint| (e.point, e.volume_id@))),
                forall|j: int, k: int|
                    0 <= j < kept@.len() && i <= k < n ==> #[trigger] kept@[j].point
                        < #[trigger] s0[k].0,
                ring_map(kept@.map_values(|e: RingPoint| (e.point, e.volume_id@))) == without_volume(
                    ring_map(s0.take(i as int)),
                    volume_id@,
                ),
                ring_ids(kept@.map_values(|e: RingPoint| (e.point, e.volume_id@))).to_set()
                    == ring_ids(s0.take(i as int)).to_set().remove(volume_id@),
            decreases n - i,
        {
            let ghost ks = kept@.map_values(|e: RingPoint| (e.point, e.volume_id@));
            let e = &self.ring[i];
            let ghost ei = s0[i as int];
            assert(ei == (e.point, e.volume_id@));
            proof {
                lemma_take_push_point(s0, i as int);
            }
            if !str_eq(e.volume_id.as_str(), volume_id) {
                kept.push(RingPoint { point: e.point, volume_id: e.volume_id.clone() });
                proof {
                    let ks2 = kept@.map_values(|x: RingPoint| (x.point, x.volume_id@));
                    assert(ks2 =~= ks.push(ei));
                    assert forall|j: int| 0 <= j < ks.len() implies #[trigger] ks[j].0 < ei.0 by {
                        assert(ks[j].0 == kept@[j].point);
                    }
                    lemma_push_point(ks, ei.0, ei.1);
                    lemma_without_insert_other(ring_map(s0.take(i as int)), ei.0, ei.1, volume_id@);
                    assert(ring_ids(ks2) =~= ring_ids(ks).push(ei.1));
                    assert(ring_ids(s0.take(i + 1)) =~= ring_ids(s0.take(i as int)).push(ei.1));
                    lemma_push_to_set(ring_ids(ks), ei.1);
                    lemma_push_to_set(ring_ids(s0.take(i as int)), ei.1);
                    assert(ring_ids(ks2).to_set() =~= ring_ids(s0.take(i + 1)).to_set().remove(
                        volume_id@,
                    ));
                    assert forall|j: int, k: int|
                        0 <= j < kept@.len() && i + 1 <= k < n implies #[trigger] kept@[j].point
                        < #[trigger] s0[k].0 by {
                        if j < ks.len() {
                            assert(kept@[j].point == ks[j].0);
                            assert(s0[i as int].0 < s0[k].0);
                        } else {
                            assert(kept@[j].point == ei.0);
                        }
                    }
                }
            } else {
                proof {
                    assert(!has_point(s0.take(i as int), ei.0)) by {
                        if has_point(s0.take(i as int), ei.0) {
                            let j = choose|j: int|
                                0 <= j < s0.take(i as int).len() && #[trigger] s0.take(
                                    i as int,
                                )[j].0 == ei.0;
                            assert(s0[j].0 < s0[i as int].0);
                        }
                    }
                    lemma_without_insert_same(ring_map(s0.take(i as int)), ei.0, ei.1);
                    assert(ring_ids(s0.take(i + 1)) =~= ring_ids(s0.take(i as int)).push(ei.1));
                    lemma_push_to_set(ring_ids(s0.take(i as int)), ei.1);
                    assert(ring_ids(s0.take(i as int)).push(ei.1).to_set().remove(volume_id@)
                        =~= ring_ids(s0.take(i as int)).to_set().remove(volume_id@));
                }
            }
            i = i + 1;
        }
        self.ring = kept;
        proof {
            assert(s0.take(n as int) =~= s0);
        }
    }

    /// Adds a volume's `vnodes` points, after removing any it had.
    pub fn add_volume(&mut self, volume_id: &str)
        requires
            old(self).wf(),
        ensures
            final(self).wf(),
            final(self).map() == with_volume(old(self).map(), volume_id@, old(self).vnode_count()),
            final(self).vnode_count() == old(self).vnode_count(),
            forall|x: Seq<char>| #[trigger]
                final(self).volumes().contains(x) ==> x == volume_id@ || old(self).volumes().contains(
                    x,
                ),
            old(self).vnode_count() > 0 ==> final(self).volumes().contains(volume_id@),
    {
        let ghost m0 = self.map();
        self.remove_volume(volume_id);
        assert(self.map() =~= with_volume(m0, volume_id@, 0));
        let mut vnode: usize = 0;
        while vnode < self.vnodes
            invariant
                self.wf(),
                vnode <= self.vnodes,
                self.vnodes == old(self).vnodes,
                m0 == old(self).map(),
                self.map() == with_volume(m0, volume_id@, vnode as nat),
            decreases self.vnodes - vnode,
        {
            let mut label = volume_id.to_owned();
            proof {
                reveal_strlit("#");
            }
            label.append("#");
            push_decimal(&mut label, vnode);
            assert(label@ == vnode_label(volume_id@, vnode as nat));
            let point = hash64(label.as_str());
            let ghost before = self.map();
            self.insert_point(point, volume_id.to_owned());
            proof {
                lemma_with_volume_step(m0, volume_id@, vnode as nat);
            }
            vnode = vnode + 1;
        }
        proof {
            let k = old(self).vnode_count();
            lemma_ring_ids_map(old(self)@);
            lemma_ring_ids_map(self@);
            assert forall|x: Seq<char>| #[trigger] self.volumes().contains(x) implies x == volume_id@
                || old(self).volumes().contains(x) by {
                let p = choose|p: u64| self.map().contains_key(p) && self.map()[p] == x;
                if !is_vnode_point(volume_id@, k, p) {
                    assert(m0.contains_key(p) && m0[p] == x);
                }
            }
            if k > 0 {
                lemma_added_volume_owns_point(m0, volume_id@, k);
                assert(self.map().contains_key(vnode_point(volume_id@, 0)));
            }
        }
    }
}

/// A volume id is on the ring exactly when some point maps to it.
pub proof fn lemma_ring_ids_map(s: Seq<(u64, Seq<char>)>)
    requires
        points_sorted(s),
    ensures
        forall|x: Seq<char>| #[trigger]
            ring_ids(s).to_set().contains(x) <==> exists|p: u64|
                ring_map(s).contains_key(p) && ring_map(s)[p] == x,
{
    assert forall|x: Seq<char>| #[trigger]
        ring_ids(s).to_set().contains(x) implies exists|p: u64|
            ring_map(s).contains_key(p) && ring_map(s)[p] == x by {
        let i = choose|i: int| 0 <= i < ring_ids(s).len() && ring_ids(s)[i] == x;
        lemma_ring_map_index(s, i);
        assert(ring_map(s).contains_key(s[i].0) && ring_map(s)[s[i].0] == x);
    }
    assert forall|x: Seq<char>|
        (exists|p: u64| ring_map(s).contains_key(p) && ring_map(s)[p] == x) implies #[trigger] ring_ids(
        s,
    ).to_set().contains(x) by {
        let p = choose|p: u64| ring_map(s).contains_key(p) && ring_map(s)[p] == x;
        let i = point_index(s, p);
        assert(has_point(s, p));
        assert(ring_ids(s)[i] == x);
    }
}

pub proof fn lemma_push_to_set<A>(s: Seq<A>, a: A)
    ensures
        s.push(a).to_set() == s.to_set().insert(a),
{
    assert(s.push(a) =~= s.insert(s.len() as int, a));
    lemma_seq_insert_to_set(s, s.len() as int, a);
}

proof fn lemma_count_split(s: Seq<(u64, Seq<char>)>, start: u64)
    requires
        points_sorted(s),
    ensures
        count_below(s, start) <= s.len(),
        forall|j: int| 0 <= j < count_below(s, start) ==> #[trigger] s[j].0 < start,
        forall|j: int| count_below(s, start) <= j < s.len() ==> start <= #[trigger] s[j].0,
    decreases s.len(),
{
    if s.len() > 0 {
        let t = s.drop_last();
        assert forall|a: int, b: int| 0 <= a < b < t.len() implies #[trigger] t[a].0
            < #[trigger] t[b].0 by {
            assert(t[a] == s[a]);
            assert(t[b] == s[b]);
        }
        lemma_count_split(t, start);
        let c = count_below(t, start);
        let last = s.len() - 1;
        assert forall|j: int| 0 <= j < count_below(s, start) implies #[trigger] s[j].0 < start by {
            if j < c {
                assert(t[j] == s[j]);
            } else {
                assert(j == last);
            }
        }
        assert forall|j: int| count_below(s, start) <= j < s.len() implies start
            <= #[trigger] s[j].0 by {
            if j < last {
                assert(t[j] == s[j]);
                assert(s[j].0 < s[last].0);
            } else {
                if s[last].0 < start {
                    assert(count_below(s, start) == c + 1);
                }
            }
        }
        if s.last().0 < start {
            if c < t.len() {
                assert(t[c as int] == s[c as int]);
                assert(s[c as int].0 < s[last].0);
            }
        }
    }
}

proof fn lemma_take_push_point(s: Seq<(u64, Seq<char>)>, i: int)
    requires
        0 <= i < s.len(),
    ensures
        s.take(i + 1) == s.take(i).push(s[i]),
        points_sorted(s) ==> points_sorted(s.take(i)),
        points_sorted(s) ==> ring_map(s.take(i + 1)) == ring_map(s.take(i)).insert(s[i].0, s[i].1),
{
    assert(s.take(i + 1) =~= s.take(i).push(s[i]));
    if points_sorted(s) {
        assert forall|a: int, b: int| 0 <= a < b < s.take(i).len() implies #[trigger] s.take(
            i,
        )[a].0 < #[trigger] s.take(i)[b].0 by {
            assert(s.take(i)[a] == s[a]);
            assert(s.take(i)[b] == s[b]);
        }
        assert forall|j: int| 0 <= j < s.take(i).len() implies #[trigger] s.take(i)[j].0 < s[i].0 by {
            assert(s.take(i)[j] == s[j]);
        }
        lemma_push_point(s.take(i), s[i].0, s[i].1);
    }
}

proof fn lemma_without_insert_other(
    m: Map<u64, Seq<char>>,
    p: u64,
    v: Seq<char>,
    volume_id: Seq<char>,
)
    requires
        v != volume_id,
    ensures
        without_volume(m.insert(p, v), volume_id) == without_volume(m, volume_id).insert(p, v),
{
    assert(without_volume(m.insert(p, v), volume_id) =~= without_volume(m, volume_id).insert(p, v));
}

proof fn lemma_without_insert_same(m: Map<u64, Seq<char>>, p: u64, volume_id: Seq<char>)
    requires
        !m.contains_key(p),
    ensures
        without_volume(m.insert(p, volume_id), volume_id) == without_volume(m, volume_id),
{
    assert(without_volume(m.insert(p, volume_id), volume_id) =~= without_volume(m, volume_id));
}

proof fn lemma_with_volume_step(m: Map<u64, Seq<char>>, volume_id: Seq<char>, k: nat)
    ensures
        with_volume(m, volume_id, k).insert(vnode_point(volume_id, k), volume_id) == with_volume(
            m,
            volume_id,
            k + 1,
        ),
{
    let p = vnode_point(volume_id, k);
    assert forall|q: u64| is_vnode_point(volume_id, k + 1, q) == (is_vnode_point(volume_id, k, q)
        || q == p) by {
        if is_vnode_point(volume_id, k + 1, q) {
            let i = choose|i: nat| i < k + 1 && #[trigger] vnode_point(volume_id, i) == q;
            if i < k {
                assert(is_vnode_point(volume_id, k, q));
            }
        }
        if is_vnode_point(volume_id, k, q) {
            let i = choose|i: nat| i < k && #[trigger] vnode_point(volume_id, i) == q;
            assert(i < k + 1);
        }
        if q == p {
            assert(vnode_point(volume_id, k) == q);
        }
    }
    assert(with_volume(m, volume_id, k).insert(p, volume_id) =~= with_volume(m, volume_id, k + 1));
}


/// Whether the list holds a string equal to `s`.
fn contains_string(v: &Vec<String>, s: &str) -> (r: bool)
    ensures
        r == strings_view(v@).contains(s@),
{
    let mut i: usize = 0;
    while i < v.len()
        invariant
            i <= v@.len(),
            forall|j: int| 0 <= j < i ==> strings_view(v@)[j] != s@,
        decreases v@.len() - i,
    {
        if str_eq(v[i].as_str(), s) {
            proof {
                assert(strings_view(v@)[i as int] == s@);
            }
            return true;
        }
        i = i + 1;
    }
    false
}

impl HashRing {
    /// The first `n` distinct volumes met walking clockwise from the key's hash.
    pub fn replicas_for(&self, key: &str, n: usize) -> (r: Vec<String>)
        requires
            self.wf(),
        ensures
            strings_view(r@) == replicas_spec(self@, key@, n as nat),
    {
        let start = hash64(key);
        let ghost w = walk(self@, start);
        if n == 0 || self.ring.len() == 0 {
            proof {
                if self@.len() == 0 {
                    assert(w =~= Seq::<Seq<char>>::empty());
                }
                assert(dedup(w).take(0) =~= Seq::<Seq<char>>::empty());
            }
            return Vec::new();
        }
        let c = self.lower_bound(start);
        let len = self.ring.len();
        let mut replicas: Vec<String> = Vec::new();
        let mut i: usize = 0;
        proof {
            assert(w.take(0) =~= Seq::<Seq<char>>::empty());
            assert(strings_view(replicas@) =~= Seq::<Seq<char>>::empty());
        }
        while i < len && replicas.len() < n
            invariant
                self.wf(),
                i <= len,
                len == self@.len(),
                len == self.ring@.len(),
                c <= len,
                c == count_below(self@, start),
                w == walk(self@, start),
                w.len() == len,
                strings_view(replicas@) == dedup(w.take(i as int)),
                replicas@.len() <= n,
            decreases len - i,
        {
            let idx = if i < len - c {
                c + i
            } else {
                i - (len - c)
            };
            proof {
                assert(w[i as int] == self@[idx as int].1);
            }
            let id = &self.ring[idx].volume_id;
            assert(id@ == w[i as int]);
            let found = contains_string(&replicas, id.as_str());
            let ghost before = replicas@;
            if !found {
                replicas.push(id.clone());
                proof {
                    assert(strings_view(replicas@) =~= strings_view(before).push(id@));
                }
            }
            proof {
                lemma_dedup_step(w, i as int);
            }
            i = i + 1;
        }
        proof {
            if i == len {
                assert(w.take(i as int) =~= w);
            } else {
                lemma_dedup_prefix(w, i as int, len as int);
                assert(w.take(len as int) =~= w);
                assert(dedup(w).take(n as int) =~= dedup(w.take(i as int)));
            }
        }
        replicas
    }
}

impl Default for HashRing {
    fn default() -> (r: Self)
        ensures
            r.wf(),
            r.vnode_count() == 64,
            r@ == Seq::<(u64, Seq<char>)>::empty(),
    {
        Self::new(64)
    }
}

proof fn lemma_dedup_step(s: Seq<Seq<char>>, i: int)
    requires
        0 <= i < s.len(),
    ensures
        dedup(s.take(i + 1)) == if dedup(s.take(i)).contains(s[i]) {
            dedup(s.take(i))
        } else {
            dedup(s.take(i)).push(s[i])
        },
{
    assert(s.take(i + 1).drop_last() =~= s.take(i));
    assert(s.take(i + 1).last() == s[i]);
}

proof fn lemma_dedup_prefix(s: Seq<Seq<char>>, i: int, j: int)
    requires
        0 <= i <= j <= s.len(),
    ensures
        dedup(s.take(i)).is_prefix_of(dedup(s.take(j))),
    decreases j - i,
{
    if i < j {
        lemma_dedup_prefix(s, i, j - 1);
        lemma_dedup_step(s, j - 1);
        let a = dedup(s.take(i));
        let b = dedup(s.take(j - 1));
        let c = dedup(s.take(j));
        assert(a =~= b.subrange(0, a.len() as int));
        if c != b {
            assert(c == b.push(s[j - 1]));
            assert(a =~= c.subrange(0, a.len() as int));
        }
    }
}

proof fn lemma_dedup_props(s: Seq<Seq<char>>)
    ensures
        dedup(s).no_duplicates(),
        dedup(s).to_set() == s.to_set(),
    decreases s.len(),
{
    if s.len() > 0 {
        let t = s.drop_last();
        lemma_dedup_props(t);
        let d = dedup(t);
        assert(s =~= t.push(s.last()));
        lemma_push_to_set(t, s.last());
        if d.contains(s.last()) {
            assert(d.to_set().contains(s.last()));
            assert(s.to_set() =~= t.to_set());
        } else {
            lemma_push_to_set(d, s.last());
            assert forall|a: int, b: int|
                0 <= a < d.push(s.last()).len() && 0 <= b < d.push(s.last()).len() && a
                    != b implies d.push(s.last())[a] != d.push(s.last())[b] by {
                if a < d.len() && b < d.len() {
                } else if a < d.len() {
                    assert(d.contains(d[a]));
                } else {
                    assert(d.contains(d[b]));
                }
            }
        }
    }
}

proof fn lemma_walk_to_set(s: Seq<(u64, Seq<char>)>, start: u64)
    requires
        count_below(s, start) <= s.len(),
    ensures
        walk(s, start).to_set() == ring_ids(s).to_set(),
        walk(s, start).len() == s.len(),
{
    let c = count_below(s, start) as int;
    let w = walk(s, start);
    let ids = ring_ids(s);
    assert forall|x: Seq<char>| w.to_set().contains(x) == ids.to_set().contains(x) by {
        if w.contains(x) {
            let j = choose|j: int| 0 <= j < w.len() && w[j] == x;
            if j < s.len() - c {
                assert(ids[c + j] == x);
            } else {
                assert(ids[j - (s.len() - c)] == x);
            }
        }
        if ids.contains(x) {
            let j = choose|j: int| 0 <= j < ids.len() && ids[j] == x;
            if j >= c {
                assert(w[j - c] == x);
            } else {
                assert(w[j + (s.len() - c)] == x);
            }
        }
    }
    assert(w.to_set() =~= ids.to_set());
}

/// How far clockwise point `p` lies from `h` on the 64-bit circle.
pub open spec fn clockwise(h: u64, p: u64) -> int {
    if p >= h {
        p - h
    } else {
        p + 0x1_0000_0000_0000_0000int - h
    }
}

/// Point `i` is, of the points of volumes not in `seen`, the first met
/// walking clockwise from `h`.
pub open spec fn first_unseen(s: Seq<(u64, Seq<char>)>, h: u64, seen: Seq<Seq<char>>, i: int) -> bool {
    &&& 0 <= i < s.len()
    &&& !seen.contains(s[i].1)
    &&& forall|q: int|
        0 <= q < s.len() && #[trigger] clockwise(h, s[q].0) < clockwise(h, s[i].0) ==> seen.contains(
            s[q].1,
        )
}

/// `r[j]` is the volume of the first point, clockwise from `h`, whose
/// volume is not among the first `j` of `r`.
pub open spec fn clockwise_pick(s: Seq<(u64, Seq<char>)>, h: u64, r: Seq<Seq<char>>, j: int) -> bool {
    exists|i: int| first_unseen(s, h, r.take(j), i) && s[i].1 == r[j]
}

/// Each element of `dedup(w)` first occurs at a place before which only
/// earlier elements of `dedup(w)` occur.
proof fn lemma_dedup_origin(w: Seq<Seq<char>>)
    ensures
        forall|j: int|
            0 <= j < dedup(w).len() ==> exists|t: int|
                0 <= t < w.len() && w[t] == #[trigger] dedup(w)[j] && forall|u: int|
                    0 <= u < t ==> dedup(w).take(j).contains(#[trigger] w[u]),
    decreases w.len(),
{
    if w.len() > 0 {
        let w2 = w.drop_last();
        let d2 = dedup(w2);
        let d = dedup(w);
        lemma_dedup_origin(w2);
        lemma_dedup_props(w2);
        assert forall|j: int| 0 <= j < d.len() implies exists|t: int|
            0 <= t < w.len() && w[t] == #[trigger] d[j] && forall|u: int|
                0 <= u < t ==> d.take(j).contains(#[trigger] w[u]) by {
            if j < d2.len() {
                let t = choose|t: int|
                    0 <= t < w2.len() && w2[t] == #[trigger] d2[j] && forall|u: int|
                        0 <= u < t ==> d2.take(j).contains(#[trigger] w2[u]);
                assert(d[j] == d2[j]);
                assert(d.take(j) =~= d2.take(j));
                assert(w[t] == w2[t]);
                assert forall|u: int| 0 <= u < t implies d.take(j).contains(#[trigger] w[u]) by {
                    assert(w[u] == w2[u]);
                    assert(d2.take(j).contains(w2[u]));
                }
            } else {
                let t = w.len() - 1;
                assert(d == d2.push(w.last()));
                assert(d.take(j) =~= d2);
                assert forall|u: int| 0 <= u < t implies d.take(j).contains(#[trigger] w[u]) by {
                    assert(w[u] == w2[u]);
                    assert(w2.to_set().contains(w2[u]));
                    assert(d2.to_set().contains(w2[u]));
                }
                assert(w[t] == d[j]);
            }
        }
    }
}

/// A key's replicas, in order: each is the volume of the first point met
/// walking clockwise from the key's hash whose volume is not already among
/// the replicas before it. With `lemma_replicas_distinct` and
/// `lemma_replicas_count` this fixes the whole list.
pub proof fn lemma_replicas_clockwise(s: Seq<(u64, Seq<char>)>, key: Seq<char>, n: nat)
    requires
        points_sorted(s),
    ensures
        forall|j: int|
            0 <= j < replicas_spec(s, key, n).len() ==> #[trigger] clockwise_pick(
                s,
                hash64_spec(key),
                replicas_spec(s, key, n),
                j,
            ),
{
    let h = hash64_spec(key);
    let w = walk(s, h);
    let d = dedup(w);
    let r = replicas_spec(s, key, n);
    let len = s.len() as int;
    lemma_count_split(s, h);
    let c = count_below(s, h) as int;
    lemma_walk_to_set(s, h);
    lemma_dedup_origin(w);
    lemma_dedup_props(w);
    assert forall|j: int| 0 <= j < r.len() implies #[trigger] clockwise_pick(s, h, r, j) by {
        assert(r[j] == d[j]);
        assert(r.take(j) =~= d.take(j));
        let t = choose|t: int|
            0 <= t < w.len() && w[t] == #[trigger] d[j] && forall|u: int|
                0 <= u < t ==> d.take(j).contains(#[trigger] w[u]);
        let i = if t < len - c {
            c + t
        } else {
            t - (len - c)
        };
        assert(w[t] == s[i].1);
        assert(!d.take(j).contains(d[j])) by {
            if d.take(j).contains(d[j]) {
                let a = choose|a: int| 0 <= a < j && d.take(j)[a] == d[j];
                assert(d[a] == d[j]);
            }
        }
        assert forall|q: int|
            0 <= q < s.len() && #[trigger] clockwise(h, s[q].0) < clockwise(h, s[i].0) implies d.take(
            j,
        ).contains(s[q].1) by {
            let u = if q >= c {
                q - c
            } else {
                q + len - c
            };
            assert(w[u] == s[q].1);
            if q >= c && i >= c {
                if q >= i && q > i {
                    assert(s[i].0 < s[q].0);
                }
            } else if q < c && i < c {
                if q > i {
                    assert(s[i].0 < s[q].0);
                }
            }
            assert(u < t);
            assert(d.take(j).contains(w[u]));
        }
        assert(first_unseen(s, h, d.take(j), i));
        assert(first_unseen(s, h, r.take(j), i));
    }
}

/// A key's first replica is the volume of the first point at or above the
/// key's hash, or of the lowest point when every point lies below it.
pub proof fn lemma_first_replica(s: Seq<(u64, Seq<char>)>, key: Seq<char>, n: nat)
    requires
        points_sorted(s),
        s.len() > 0,
        n > 0,
    ensures
        forall|i: int|
            0 <= i < s.len() && hash64_spec(key) <= s[i].0 && (i == 0 || s[i - 1].0 < hash64_spec(
                key,
            )) ==> replicas_spec(s, key, n)[0] == #[trigger] s[i].1,
        (forall|i: int| 0 <= i < s.len() ==> #[trigger] s[i].0 < hash64_spec(key))
            ==> replicas_spec(s, key, n)[0] == s[0].1,
        replicas_spec(s, key, n).len() > 0,
{
    let h = hash64_spec(key);
    let w = walk(s, h);
    let d = dedup(w);
    lemma_count_split(s, h);
    lemma_walk_to_set(s, h);
    lemma_dedup_origin(w);
    lemma_dedup_props(w);
    let c = count_below(s, h) as int;
    assert(w.to_set().contains(w[0]));
    assert(d.to_set().contains(w[0]));
    assert(d.len() > 0);
    let t = choose|t: int|
        0 <= t < w.len() && w[t] == #[trigger] d[0] && forall|u: int|
            0 <= u < t ==> d.take(0).contains(#[trigger] w[u]);
    if t > 0 {
        assert(d.take(0).contains(w[0]));
    }
    assert(replicas_spec(s, key, n)[0] == w[0]);
    assert forall|i: int|
        0 <= i < s.len() && h <= s[i].0 && (i == 0 || s[i - 1].0 < h) implies replicas_spec(
        s,
        key,
        n,
    )[0] == #[trigger] s[i].1 by {
        if c < i {
            assert(s[c].0 <= s[i - 1].0);
        }
        if c > i {
            assert(s[i].0 < h);
        }
        assert(w[0] == s[c].1);
    }
    if forall|i: int| 0 <= i < s.len() ==> #[trigger] s[i].0 < h {
        if c < s.len() {
            assert(s[c].0 < h);
        }
        assert(w[0] == s[0].1);
    }
}

/// A key's replicas are distinct volumes.
pub proof fn lemma_replicas_distinct(s: Seq<(u64, Seq<char>)>, key: Seq<char>, n: nat)
    ensures
        replicas_spec(s, key, n).no_duplicates(),
{
    let d = dedup(walk(s, hash64_spec(key)));
    lemma_dedup_props(walk(s, hash64_spec(key)));
    if n <= d.len() {
        assert forall|a: int, b: int|
            0 <= a < d.take(n as int).len() && 0 <= b < d.take(n as int).len() && a
                != b implies d.take(n as int)[a] != d.take(n as int)[b] by {
            assert(d.take(n as int)[a] == d[a]);
            assert(d.take(n as int)[b] == d[b]);
        }
    }
}

/// A key gets `n` replicas when the ring holds at least `n` volumes, and
/// every volume on the ring otherwise.
pub proof fn lemma_replicas_count(s: Seq<(u64, Seq<char>)>, key: Seq<char>, n: nat)
    requires
        points_sorted(s),
    ensures
        replicas_spec(s, key, n).len() == if n <= ring_ids(s).to_set().len() {
            n
        } else {
            ring_ids(s).to_set().len()
        },
{
    let start = hash64_spec(key);
    let w = walk(s, start);
    lemma_count_split(s, start);
    lemma_walk_to_set(s, start);
    lemma_dedup_props(w);
    dedup(w).unique_seq_to_set();
}

/// Every replica of a key is a volume on the ring.
pub proof fn lemma_replicas_on_ring(s: Seq<(u64, Seq<char>)>, key: Seq<char>, n: nat, x: Seq<char>)
    requires
        points_sorted(s),
        replicas_spec(s, key, n).contains(x),
    ensures
        ring_ids(s).contains(x),
{
    let start = hash64_spec(key);
    let w = walk(s, start);
    let d = dedup(w);
    lemma_count_split(s, start);
    lemma_walk_to_set(s, start);
    lemma_dedup_props(w);
    let j = choose|j: int|
        0 <= j < replicas_spec(s, key, n).len() && replicas_spec(s, key, n)[j] == x;
    if n <= d.len() {
        assert(d.take(n as int)[j] == d[j]);
    }
    assert(d.contains(x));
    assert(d.to_set().contains(x));
}

/// Adding a volume twice leaves the ring as adding it once.
pub proof fn lemma_add_volume_idempotent(m: Map<u64, Seq<char>>, volume_id: Seq<char>, k: nat)
    ensures
        with_volume(with_volume(m, volume_id, k), volume_id, k) == with_volume(m, volume_id, k),
{
    assert(with_volume(with_volume(m, volume_id, k), volume_id, k) =~= with_volume(
        m,
        volume_id,
        k,
    ));
}

/// After (re)adding a volume with `k` points it owns exactly its `k`
/// points; every other point keeps its owner, and the volume's old points
/// that are not among them are gone.
pub proof fn lemma_with_volume_points(m: Map<u64, Seq<char>>, volume_id: Seq<char>, k: nat)
    ensures
        forall|i: nat|
            i < k ==> with_volume(m, volume_id, k).contains_key(#[trigger] vnode_point(volume_id, i))
                && with_volume(m, volume_id, k)[vnode_point(volume_id, i)] == volume_id,
        forall|p: u64|
            #[trigger] with_volume(m, volume_id, k).contains_key(p) && with_volume(m, volume_id, k)[p]
                == volume_id ==> exists|i: nat| i < k && vnode_point(volume_id, i) == p,
        forall|p: u64|
            (forall|i: nat| i < k ==> vnode_point(volume_id, i) != p) ==> (#[trigger] with_volume(
                m,
                volume_id,
                k,
            ).contains_key(p) == (m.contains_key(p) && m[p] != volume_id)) && (with_volume(
                m,
                volume_id,
                k,
            ).contains_key(p) ==> with_volume(m, volume_id, k)[p] == m[p]),
{
    assert forall|i: nat| i < k implies with_volume(m, volume_id, k).contains_key(
        #[trigger] vnode_point(volume_id, i),
    ) && with_volume(m, volume_id, k)[vnode_point(volume_id, i)] == volume_id by {
        assert(is_vnode_point(volume_id, k, vnode_point(volume_id, i)));
    }
    assert forall|p: u64|
        #[trigger] with_volume(m, volume_id, k).contains_key(p) && with_volume(m, volume_id, k)[p]
            == volume_id implies exists|i: nat| i < k && vnode_point(volume_id, i) == p by {
        if !is_vnode_point(volume_id, k, p) {
            assert(without_volume(m, volume_id).contains_key(p));
        }
    }
    assert forall|p: u64| (forall|i: nat| i < k ==> vnode_point(volume_id, i) != p) implies (
    #[trigger] with_volume(m, volume_id, k).contains_key(p) == (m.contains_key(p) && m[p]
        != volume_id)) && (with_volume(m, volume_id, k).contains_key(p) ==> with_volume(
        m,
        volume_id,
        k,
    )[p] == m[p]) by {
        assert(!is_vnode_point(volume_id, k, p));
    }
}

/// A volume added with at least one point owns its first point.
pub proof fn lemma_added_volume_owns_point(m: Map<u64, Seq<char>>, volume_id: Seq<char>, k: nat)
    requires
        k > 0,
    ensures
        with_volume(m, volume_id, k).contains_key(vnode_point(volume_id, 0)),
        with_volume(m, volume_id, k)[vnode_point(volume_id, 0)] == volume_id,
{
    assert(is_vnode_point(volume_id, k, vnode_point(volume_id, 0)));
}

/// Dropping the last point of a sorted ring drops that point from its map.
proof fn lemma_ring_map_drop_last(s: Seq<(u64, Seq<char>)>)
    requires
        points_sorted(s),
        s.len() > 0,
    ensures
        points_sorted(s.drop_last()),
        ring_map(s.drop_last()) == ring_map(s).remove(s.last().0),
{
    let t = s.drop_last();
    let l = s.last().0;
    assert forall|a: int, b: int| 0 <= a < b < t.len() implies #[trigger] t[a].0 < #[trigger] t[b].0 by {
        assert(t[a] == s[a]);
        assert(t[b] == s[b]);
    }
    assert forall|q: u64| has_point(t, q) == (has_point(s, q) && q != l) by {
        if has_point(t, q) {
            let j = choose|j: int| 0 <= j < t.len() && #[trigger] t[j].0 == q;
            assert(s[j].0 == q);
            assert(s[j].0 < s[s.len() - 1].0);
        }
        if has_point(s, q) && q != l {
            let j = choose|j: int| 0 <= j < s.len() && #[trigger] s[j].0 == q;
            assert(j != s.len() - 1);
            assert(t[j].0 == q);
        }
    }
    assert forall|q: u64| #[trigger] ring_map(t).contains_key(q) implies ring_map(t)[q] == ring_map(
        s,
    )[q] by {
        let j = choose|j: int| 0 <= j < t.len() && #[trigger] t[j].0 == q;
        assert(t[j] == s[j]);
        lemma_ring_map_index(t, j);
        lemma_ring_map_index(s, j);
    }
    assert(ring_map(t) =~= ring_map(s).remove(l));
}

/// A sorted ring is determined by its map from points to volumes.
pub proof fn lemma_ring_unique(s: Seq<(u64, Seq<char>)>, t: Seq<(u64, Seq<char>)>)
    requires
        points_sorted(s),
        points_sorted(t),
        ring_map(s) == ring_map(t),
    ensures
        s == t,
    decreases s.len() + t.len(),
{
    if s.len() == 0 {
        if t.len() > 0 {
            lemma_ring_map_index(t, 0);
            assert(ring_map(s).contains_key(t[0].0));
        }
        assert(s =~= t);
    } else if t.len() == 0 {
        lemma_ring_map_index(s, 0);
        assert(ring_map(t).contains_key(s[0].0));
    } else {
        let ls = s.last();
        let lt = t.last();
        lemma_ring_map_index(s, s.len() - 1);
        lemma_ring_map_index(t, t.len() - 1);
        assert(has_point(t, ls.0));
        let j = choose|j: int| 0 <= j < t.len() && #[trigger] t[j].0 == ls.0;
        if j < t.len() - 1 {
            assert(t[j].0 < t[t.len() - 1].0);
        }
        assert(has_point(s, lt.0));
        let i = choose|i: int| 0 <= i < s.len() && #[trigger] s[i].0 == lt.0;
        if i < s.len() - 1 {
            assert(s[i].0 < s[s.len() - 1].0);
        }
        assert(ls.0 == lt.0);
        assert(ls.1 == lt.1);
        lemma_ring_map_drop_last(s);
        lemma_ring_map_drop_last(t);
        lemma_ring_unique(s.drop_last(), t.drop_last());
        assert(s =~= s.drop_last().push(ls));
        assert(t =~= t.drop_last().push(lt));
    }
}

/// Adding a volume that holds no point and whose points are all free, then
/// removing it, gives back the same ring, and so every key's replicas.
pub proof fn lemma_add_remove_round_trip(
    s: Seq<(u64, Seq<char>)>,
    s2: Seq<(u64, Seq<char>)>,
    s3: Seq<(u64, Seq<char>)>,
    volume_id: Seq<char>,
    k: nat,
)
    requires
        points_sorted(s),
        points_sorted(s3),
        ring_map(s2) == with_volume(ring_map(s), volume_id, k),
        ring_map(s3) == without_volume(ring_map(s2), volume_id),
        forall|p: u64| #[trigger] ring_map(s).contains_key(p) ==> ring_map(s)[p] != volume_id,
        forall|i: nat| i < k ==> !ring_map(s).contains_key(#[trigger] vnode_point(volume_id, i)),
    ensures
        s3 == s,
        forall|key: Seq<char>, n: nat| #[trigger] replicas_spec(s3, key, n) == replicas_spec(s, key, n),
{
    let m = ring_map(s);
    let m2 = with_volume(m, volume_id, k);
    let m3 = without_volume(m2, volume_id);
    assert forall|p: u64| m3.contains_key(p) == m.contains_key(p) by {
        if m.contains_key(p) && is_vnode_point(volume_id, k, p) {
            let i = choose|i: nat| i < k && #[trigger] vnode_point(volume_id, i) == p;
            assert(!m.contains_key(vnode_point(volume_id, i)));
        }
    }
    assert(m3 =~= m);
    lemma_ring_unique(s3, s);
}

/// Adding a volume whose points fall on no point of another volume: with
/// at least one point per volume the ring's volumes gain it, with none they
/// lose it.
pub proof fn lemma_add_volume_volumes(
    s: Seq<(u64, Seq<char>)>,
    s2: Seq<(u64, Seq<char>)>,
    volume_id: Seq<char>,
    k: nat,
)
    requires
        points_sorted(s),
        points_sorted(s2),
        ring_map(s2) == with_volume(ring_map(s), volume_id, k),
        forall|p: u64|
            #[trigger] ring_map(s).contains_key(p) && ring_map(s)[p] != volume_id
                ==> !is_vnode_point(volume_id, k, p),
    ensures
        ring_ids(s2).to_set() == if k > 0 {
            ring_ids(s).to_set().insert(volume_id)
        } else {
            ring_ids(s).to_set().remove(volume_id)
        },
{
    let m = ring_map(s);
    let m2 = ring_map(s2);
    lemma_ring_ids_map(s);
    lemma_ring_ids_map(s2);
    let want = if k > 0 {
        ring_ids(s).to_set().insert(volume_id)
    } else {
        ring_ids(s).to_set().remove(volume_id)
    };
    assert forall|x: Seq<char>| ring_ids(s2).to_set().contains(x) == want.contains(x) by {
        if x == volume_id {
            if k > 0 {
                let p = vnode_point(volume_id, 0);
                assert(is_vnode_point(volume_id, k, p));
                assert(m2.contains_key(p) && m2[p] == x);
            } else if ring_ids(s2).to_set().contains(x) {
                let p = choose|p: u64| m2.contains_key(p) && m2[p] == x;
                assert(!is_vnode_point(volume_id, k, p));
            }
        } else {
            if ring_ids(s2).to_set().contains(x) {
                let p = choose|p: u64| m2.contains_key(p) && m2[p] == x;
                assert(!is_vnode_point(volume_id, k, p));
                assert(m.contains_key(p) && m[p] == x);
            }
            if ring_ids(s).to_set().contains(x) {
                let p = choose|p: u64| m.contains_key(p) && m[p] == x;
                assert(!is_vnode_point(volume_id, k, p));
                assert(m2.contains_key(p) && m2[p] == x);
            }
        }
    }
    assert(ring_ids(s2).to_set() =~= want);
}

/// A volume that holds no point of the ring is no key's replica.
pub proof fn lemma_absent_not_replica(
    s: Seq<(u64, Seq<char>)>,
    volume_id: Seq<char>,
    key: Seq<char>,
    n: nat,
)
    requires
        points_sorted(s),
        forall|p: u64| #[trigger] ring_map(s).contains_key(p) ==> ring_map(s)[p] != volume_id,
    ensures
        !replicas_spec(s, key, n).contains(volume_id),
{
    lemma_ring_ids_map(s);
    if replicas_spec(s, key, n).contains(volume_id) {
        lemma_replicas_on_ring(s, key, n, volume_id);
        assert(ring_ids(s).to_set().contains(volume_id));
    }
}

/// Removing a volume leaves no point owned by it and every other point as it was.
pub proof fn lemma_removed_volume_gone(m: Map<u64, Seq<char>>, volume_id: Seq<char>, p: u64)
    ensures
        without_volume(m, volume_id).contains_key(p) ==> without_volume(m, volume_id)[p]
            != volume_id,
        m.contains_key(p) && m[p] != volume_id ==> without_volume(m, volume_id).contains_key(p)
            && without_volume(m, volume_id)[p] == m[p],
{
}

} // verus!
