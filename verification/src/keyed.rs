//! A map from string keys to values, held as a vector of entries sorted by the
//! keys' UTF-8 bytes (the order of `String`'s `Ord`). Lookups are binary
//! searches; listing in key order is a walk over the vector.
use crate::bytes_order::{bytes_lt, compare_bytes, lemma_bytes_lt_irreflexive, lemma_bytes_lt_transitive, KeyOrder};
use vstd::prelude::*;
use vstd::string::*;
use vstd::utf8::*;

verus! {

/// The bytes by which a key is ordered: its UTF-8 encoding.
pub open spec fn key_bytes(k: Seq<char>) -> Seq<u8> {
    encode_utf8(k)
}

/// Strictly increasing keys, compared by their UTF-8 bytes.
pub open spec fn keys_sorted<V>(s: Seq<(Seq<char>, V)>) -> bool {
    forall|i: int, j: int|
        0 <= i < j < s.len() ==> #[trigger] bytes_lt(key_bytes(s[i].0), key_bytes(s[j].0))
}

pub open spec fn has_key<V>(s: Seq<(Seq<char>, V)>, k: Seq<char>) -> bool {
    exists|i: int| 0 <= i < s.len() && #[trigger] s[i].0 == k
}

/// A position at which the key occurs, if it occurs.
pub open spec fn index_of<V>(s: Seq<(Seq<char>, V)>, k: Seq<char>) -> int {
    choose|i: int| 0 <= i < s.len() && #[trigger] s[i].0 == k
}

/// The map that a sequence of entries with distinct keys stands for.
pub open spec fn to_map<V>(s: Seq<(Seq<char>, V)>) -> Map<Seq<char>, V> {
    Map::new(|k: Seq<char>| has_key(s, k), |k: Seq<char>| s[index_of(s, k)].1)
}

/// The keys of a sequence of entries, in order.
pub open spec fn keys_of<V>(s: Seq<(Seq<char>, V)>) -> Seq<Seq<char>> {
    s.map_values(|e: (Seq<char>, V)| e.0)
}

pub proof fn lemma_key_bytes_injective(a: Seq<char>, b: Seq<char>)
    ensures
        key_bytes(a) == key_bytes(b) ==> a == b,
{
    encode_utf8_decode_utf8(a);
    encode_utf8_decode_utf8(b);
}

pub proof fn lemma_sorted_distinct<V>(s: Seq<(Seq<char>, V)>, i: int, j: int)
    requires
        keys_sorted(s),
        0 <= i < s.len(),
        0 <= j < s.len(),
        i != j,
    ensures
        s[i].0 != s[j].0,
{
    if i < j {
        assert(bytes_lt(key_bytes(s[i].0), key_bytes(s[j].0)));
        lemma_bytes_lt_irreflexive(key_bytes(s[i].0));
    } else {
        assert(bytes_lt(key_bytes(s[j].0), key_bytes(s[i].0)));
        lemma_bytes_lt_irreflexive(key_bytes(s[j].0));
    }
}

/// In a sorted sequence, the entry at `i` is what the map holds for its key.
pub proof fn lemma_to_map_index<V>(s: Seq<(Seq<char>, V)>, i: int)
    requires
        keys_sorted(s),
        0 <= i < s.len(),
    ensures
        to_map(s).contains_key(s[i].0),
        to_map(s)[s[i].0] == s[i].1,
{
    let k = s[i].0;
    assert(has_key(s, k));
    let j = index_of(s, k);
    if j != i {
        lemma_sorted_distinct(s, i, j);
    }
    assert(to_map(s).contains_key(k));
    assert(to_map(s)[k] == s[j].1);
}

/// Whether two strings are equal, compared byte for byte.
pub fn str_eq(a: &str, b: &str) -> (r: bool)
    ensures
        r == (a@ == b@),
{
    let r = compare_bytes(a.as_bytes(), b.as_bytes());
    proof {
        lemma_key_bytes_injective(a@, b@);
    }
    r == KeyOrder::Equal
}

impl<V> View for KeyedVec<V> {
    type V = Seq<(Seq<char>, V)>;

    closed spec fn view(&self) -> Seq<(Seq<char>, V)> {
        self.entries@.map_values(|e: Entry<V>| (e.key@, e.value))
    }
}

/// One key and its value.
pub struct Entry<V> {
    pub key: String,
    pub value: V,
}

/// A map from string keys to values, kept sorted by key.
pub struct KeyedVec<V> {
    entries: Vec<Entry<V>>,
}

impl<V> KeyedVec<V> {
    pub open spec fn wf(&self) -> bool {
        keys_sorted(self@)
    }

    pub open spec fn map(&self) -> Map<Seq<char>, V> {
        to_map(self@)
    }

    pub fn new() -> (r: Self)
        ensures
            r.wf(),
            r@ == Seq::<(Seq<char>, V)>::empty(),
            r.map() == Map::<Seq<char>, V>::empty(),
    {
        let r = KeyedVec { entries: Vec::new() };
        assert(r@ =~= Seq::<(Seq<char>, V)>::empty());
        assert(r.map() =~= Map::<Seq<char>, V>::empty());
        r
    }

    pub fn len(&self) -> (n: usize)
        ensures
            n == self@.len(),
    {
        self.entries.len()
    }

    pub fn key_at(&self, i: usize) -> (k: &String)
        requires
            i < self@.len(),
        ensures
            k@ == self@[i as int].0,
    {
        &self.entries[i].key
    }

    pub fn value_at(&self, i: usize) -> (v: &V)
        requires
            i < self@.len(),
        ensures
            *v == self@[i as int].1,
    {
        &self.entries[i].value
    }

    /// Binary search: `Ok(i)` where the key sits, or `Err(i)` where it would go.
    pub fn find(&self, key: &str) -> (r: Result<usize, usize>)
        requires
            self.wf(),
        ensures
            match r {
                Ok(i) => i < self@.len() && self@[i as int].0 == key@,
                Err(i) => {
                    &&& i <= self@.len()
                    &&& !has_key(self@, key@)
                    &&& forall|j: int| 0 <= j < i ==> bytes_lt(key_bytes(#[trigger] self@[j].0), key_bytes(key@))
                    &&& forall|j: int| i <= j < self@.len() ==> bytes_lt(key_bytes(key@), key_bytes(#[trigger] self@[j].0))
                },
            },
    {
        let kb = key.as_bytes();
        let mut lo: usize = 0;
        let mut hi: usize = self.entries.len();
        while lo < hi
            invariant
                self.wf(),
                kb@ == key_bytes(key@),
                lo <= hi <= self@.len(),
                self@.len() == self.entries@.len(),
                forall|j: int| 0 <= j < lo ==> bytes_lt(key_bytes(#[trigger] self@[j].0), kb@),
                forall|j: int| hi <= j < self@.len() ==> bytes_lt(kb@, key_bytes(#[trigger] self@[j].0)),
            decreases hi - lo,
        {
            let mid = lo + (hi - lo) / 2;
            let eb = self.entries[mid].key.as_str().as_bytes();
            assert(eb@ == key_bytes(self@[mid as int].0));
            match compare_bytes(eb, kb) {
                KeyOrder::Less => {
                    proof {
                        assert forall|j: int| 0 <= j < mid + 1 implies bytes_lt(
                            key_bytes(#[trigger] self@[j].0),
                            kb@,
                        ) by {
                            if j < mid {
                                assert(bytes_lt(key_bytes(self@[j].0), key_bytes(self@[mid as int].0)));
                                lemma_bytes_lt_transitive(key_bytes(self@[j].0), eb@, kb@);
                            }
                        }
                    }
                    lo = mid + 1;
                },
                KeyOrder::Equal => {
                    proof {
                        lemma_key_bytes_injective(self@[mid as int].0, key@);
                    }
                    return Ok(mid);
                },
                KeyOrder::Greater => {
                    proof {
                        assert forall|j: int| mid <= j < self@.len() implies bytes_lt(
                            kb@,
                            key_bytes(#[trigger] self@[j].0),
                        ) by {
                            if j > mid {
                                assert(bytes_lt(key_bytes(self@[mid as int].0), key_bytes(self@[j].0)));
                                lemma_bytes_lt_transitive(kb@, eb@, key_bytes(self@[j].0));
                            }
                        }
                    }
                    hi = mid;
                },
            }
        }
        proof {
            assert forall|j: int| 0 <= j < self@.len() implies #[trigger] self@[j].0 != key@ by {
                if j < lo {
                    assert(bytes_lt(key_bytes(self@[j].0), kb@));
                    lemma_bytes_lt_irreflexive(kb@);
                } else {
                    assert(bytes_lt(kb@, key_bytes(self@[j].0)));
                    lemma_bytes_lt_irreflexive(kb@);
                }
            }
        }
        Err(lo)
    }

    pub fn get(&self, key: &str) -> (r: Option<&V>)
        requires
            self.wf(),
        ensures
            match r {
                Some(v) => self.map().contains_key(key@) && *v == self.map()[key@],
                None => !self.map().contains_key(key@),
            },
    {
        match self.find(key) {
            Ok(i) => {
                proof {
                    lemma_to_map_index(self@, i as int);
                }
                Some(&self.entries[i].value)
            },
            Err(_) => None,
        }
    }

    pub fn contains_key(&self, key: &str) -> (r: bool)
        requires
            self.wf(),
        ensures
            r == self.map().contains_key(key@),
    {
        match self.find(key) {
            Ok(i) => {
                proof {
                    lemma_to_map_index(self@, i as int);
                }
                true
            },
            Err(_) => false,
        }
    }

    /// Replaces the value at position `i`, keeping its key.
    pub fn set_value(&mut self, i: usize, value: V)
        requires
            old(self).wf(),
            i < old(self)@.len(),
        ensures
            final(self).wf(),
            final(self)@ == old(self)@.update(i as int, (old(self)@[i as int].0, value)),
            final(self).map() == old(self).map().insert(old(self)@[i as int].0, value),
    {
        let ghost s0 = self@;
        let ghost k = s0[i as int].0;
        let e = self.entries.remove(i);
        let ne = Entry { key: e.key, value };
        self.entries.insert(i, ne);
        proof {
            assert(self@ =~= s0.update(i as int, (k, value)));
            let s1 = self@;
            assert(keys_sorted(s1)) by {
                assert forall|a: int, b: int| 0 <= a < b < s1.len() implies #[trigger] bytes_lt(
                    key_bytes(s1[a].0),
                    key_bytes(s1[b].0),
                ) by {
                    assert(s1[a].0 == s0[a].0);
                    assert(s1[b].0 == s0[b].0);
                    assert(bytes_lt(key_bytes(s0[a].0), key_bytes(s0[b].0)));
                }
            }
            lemma_update_map(s0, i as int, value);
        }
    }

    /// Inserts a key, or replaces the value of a key already present.
    pub fn insert(&mut self, key: String, value: V)
        requires
            old(self).wf(),
        ensures
            final(self).wf(),
            final(self).map() == old(self).map().insert(key@, value),
            keys_of(final(self)@).to_set() == keys_of(old(self)@).to_set().insert(key@),
    {
        let ghost s0 = self@;
        match self.find(key.as_str()) {
            Ok(i) => {
                self.set_value(i, value);
                proof {
                    assert(keys_of(self@) =~= keys_of(s0));
                    assert(keys_of(s0)[i as int] == key@);
                    assert(keys_of(s0).to_set() =~= keys_of(s0).to_set().insert(key@));
                }
            },
            Err(i) => {
                let ghost k = key@;
                self.entries.insert(i, Entry { key, value });
                proof {
                    assert(self@ =~= s0.insert(i as int, (k, value)));
                    lemma_insert_sorted(s0, i as int, k, value);
                    lemma_insert_map(s0, i as int, k, value);
                    assert(keys_of(self@) =~= keys_of(s0).insert(i as int, k));
                    lemma_seq_insert_to_set(keys_of(s0), i as int, k);
                }
            },
        }
    }

    /// Appends a key greater than every key present.
    pub fn push_greatest(&mut self, key: String, value: V)
        requires
            old(self).wf(),
            forall|j: int|
                0 <= j < old(self)@.len() ==> bytes_lt(key_bytes(#[trigger] old(self)@[j].0), key_bytes(key@)),
        ensures
            final(self).wf(),
            final(self)@ == old(self)@.push((key@, value)),
            final(self).map() == old(self).map().insert(key@, value),
    {
        let ghost s0 = self@;
        let ghost k = key@;
        self.entries.push(Entry { key, value });
        proof {
            assert(self@ =~= s0.insert(s0.len() as int, (k, value)));
            assert(!has_key(s0, k)) by {
                if has_key(s0, k) {
                    let j = choose|j: int| 0 <= j < s0.len() && #[trigger] s0[j].0 == k;
                    assert(bytes_lt(key_bytes(s0[j].0), key_bytes(k)));
                    lemma_bytes_lt_irreflexive(key_bytes(k));
                }
            }
            lemma_insert_sorted(s0, s0.len() as int, k, value);
            lemma_insert_map(s0, s0.len() as int, k, value);
        }
    }

    /// Removes a key; returns its value if it was present.
    pub fn remove(&mut self, key: &str) -> (r: Option<V>)
        requires
            old(self).wf(),
        ensures
            final(self).wf(),
            final(self).map() == old(self).map().remove(key@),
            match r {
                Some(v) => old(self).map().contains_key(key@) && v == old(self).map()[key@],
                None => !old(self).map().contains_key(key@) && final(self)@ == old(self)@,
            },
            keys_of(final(self)@).to_set() == keys_of(old(self)@).to_set().remove(key@),
    {
        let ghost s0 = self@;
        match self.find(key) {
            Ok(i) => {
                proof {
                    lemma_to_map_index(s0, i as int);
                }
                let e = self.entries.remove(i);
                proof {
                    assert(self@ =~= s0.remove(i as int));
                    lemma_remove_sorted(s0, i as int);
                    lemma_remove_map(s0, i as int);
                    assert(keys_of(self@) =~= keys_of(s0).remove(i as int));
                    lemma_sorted_keys_no_duplicates(s0);
                    lemma_seq_remove_to_set(keys_of(s0), i as int);
                }
                Some(e.value)
            },
            Err(_) => {
                proof {
                    assert(to_map(s0).remove(key@) =~= to_map(s0));
                    assert(!keys_of(s0).contains(key@)) by {
                        if keys_of(s0).contains(key@) {
                            let j = choose|j: int| 0 <= j < keys_of(s0).len() && keys_of(s0)[j] == key@;
                            assert(s0[j].0 == key@);
                        }
                    }
                    assert(keys_of(s0).to_set().remove(key@) =~= keys_of(s0).to_set());
                }
                None
            },
        }
    }
}

pub proof fn lemma_insert_sorted<V>(s: Seq<(Seq<char>, V)>, i: int, k: Seq<char>, v: V)
    requires
        keys_sorted(s),
        0 <= i <= s.len(),
        forall|j: int| 0 <= j < i ==> bytes_lt(key_bytes(#[trigger] s[j].0), key_bytes(k)),
        forall|j: int| i <= j < s.len() ==> bytes_lt(key_bytes(k), key_bytes(#[trigger] s[j].0)),
    ensures
        keys_sorted(s.insert(i, (k, v))),
{
    let t = s.insert(i, (k, v));
    assert forall|a: int, b: int| 0 <= a < b < t.len() implies #[trigger] bytes_lt(
        key_bytes(t[a].0),
        key_bytes(t[b].0),
    ) by {
        if a < i && b < i {
            assert(bytes_lt(key_bytes(s[a].0), key_bytes(s[b].0)));
        } else if a < i && b == i {
        } else if a < i && b > i {
            assert(bytes_lt(key_bytes(s[a].0), key_bytes(s[b - 1].0)));
        } else if a == i {
            assert(t[b].0 == s[b - 1].0);
        } else {
            assert(bytes_lt(key_bytes(s[a - 1].0), key_bytes(s[b - 1].0)));
        }
    }
}

pub proof fn lemma_insert_map<V>(s: Seq<(Seq<char>, V)>, i: int, k: Seq<char>, v: V)
    requires
        keys_sorted(s),
        keys_sorted(s.insert(i, (k, v))),
        0 <= i <= s.len(),
        !has_key(s, k),
    ensures
        to_map(s.insert(i, (k, v))) == to_map(s).insert(k, v),
{
    let t = s.insert(i, (k, v));
    assert forall|q: Seq<char>| has_key(t, q) == (has_key(s, q) || q == k) by {
        if has_key(t, q) {
            let j = choose|j: int| 0 <= j < t.len() && #[trigger] t[j].0 == q;
            if j < i {
                assert(s[j].0 == q);
            } else if j > i {
                assert(s[j - 1].0 == q);
            }
        }
        if has_key(s, q) {
            let j = choose|j: int| 0 <= j < s.len() && #[trigger] s[j].0 == q;
            if j < i {
                assert(t[j].0 == q);
            } else {
                assert(t[j + 1].0 == q);
            }
        }
        if q == k {
            assert(t[i].0 == k);
        }
    }
    assert forall|q: Seq<char>| #[trigger] to_map(t).contains_key(q) implies to_map(t)[q] == to_map(
        s,
    ).insert(k, v)[q] by {
        if q == k {
            lemma_to_map_index(t, i);
        } else {
            let j = choose|j: int| 0 <= j < s.len() && #[trigger] s[j].0 == q;
            lemma_to_map_index(s, j);
            if j < i {
                lemma_to_map_index(t, j);
            } else {
                assert(t[j + 1] == s[j]);
                lemma_to_map_index(t, j + 1);
            }
        }
    }
    assert(to_map(t) =~= to_map(s).insert(k, v));
}

pub proof fn lemma_update_map<V>(s: Seq<(Seq<char>, V)>, i: int, v: V)
    requires
        keys_sorted(s),
        0 <= i < s.len(),
    ensures
        keys_sorted(s.update(i, (s[i].0, v))),
        to_map(s.update(i, (s[i].0, v))) == to_map(s).insert(s[i].0, v),
{
    let k = s[i].0;
    let t = s.update(i, (k, v));
    assert forall|a: int, b: int| 0 <= a < b < t.len() implies #[trigger] bytes_lt(
        key_bytes(t[a].0),
        key_bytes(t[b].0),
    ) by {
        assert(t[a].0 == s[a].0);
        assert(t[b].0 == s[b].0);
        assert(bytes_lt(key_bytes(s[a].0), key_bytes(s[b].0)));
    }
    assert forall|q: Seq<char>| has_key(t, q) == has_key(s, q) by {
        if has_key(t, q) {
            let j = choose|j: int| 0 <= j < t.len() && #[trigger] t[j].0 == q;
            assert(s[j].0 == q);
        }
        if has_key(s, q) {
            let j = choose|j: int| 0 <= j < s.len() && #[trigger] s[j].0 == q;
            assert(t[j].0 == q);
        }
    }
    assert(has_key(s, k)) by {
        assert(s[i].0 == k);
    }
    assert forall|q: Seq<char>| #[trigger] to_map(t).contains_key(q) implies to_map(t)[q] == to_map(
        s,
    ).insert(k, v)[q] by {
        assert(has_key(t, q));
        assert(has_key(s, q));
        let j = choose|j: int| 0 <= j < s.len() && #[trigger] s[j].0 == q;
        assert(t[j].0 == q);
        lemma_to_map_index(t, j);
        lemma_to_map_index(s, j);
        if j == i {
        } else {
            lemma_sorted_distinct(s, i, j);
            assert(t[j] == s[j]);
        }
    }
    assert(to_map(t) =~= to_map(s).insert(k, v));
}

pub proof fn lemma_remove_sorted<V>(s: Seq<(Seq<char>, V)>, i: int)
    requires
        keys_sorted(s),
        0 <= i < s.len(),
    ensures
        keys_sorted(s.remove(i)),
{
    let t = s.remove(i);
    assert forall|a: int, b: int| 0 <= a < b < t.len() implies #[trigger] bytes_lt(
        key_bytes(t[a].0),
        key_bytes(t[b].0),
    ) by {
        let a0 = if a < i { a } else { a + 1 };
        let b0 = if b < i { b } else { b + 1 };
        assert(t[a] == s[a0]);
        assert(t[b] == s[b0]);
        assert(bytes_lt(key_bytes(s[a0].0), key_bytes(s[b0].0)));
    }
}

pub proof fn lemma_remove_map<V>(s: Seq<(Seq<char>, V)>, i: int)
    requires
        keys_sorted(s),
        0 <= i < s.len(),
    ensures
        to_map(s.remove(i)) == to_map(s).remove(s[i].0),
{
    let k = s[i].0;
    let t = s.remove(i);
    lemma_remove_sorted(s, i);
    assert forall|q: Seq<char>| has_key(t, q) == (has_key(s, q) && q != k) by {
        if has_key(t, q) {
            let j = choose|j: int| 0 <= j < t.len() && #[trigger] t[j].0 == q;
            let j0 = if j < i { j } else { j + 1 };
            assert(t[j] == s[j0]);
            assert(s[j0].0 == q);
            lemma_sorted_distinct(s, i, j0);
        }
        if has_key(s, q) && q != k {
            let j = choose|j: int| 0 <= j < s.len() && #[trigger] s[j].0 == q;
            if j < i {
                assert(t[j].0 == q);
            } else {
                assert(j != i);
                assert(t[j - 1].0 == q);
            }
        }
    }
    assert forall|q: Seq<char>| #[trigger] to_map(t).contains_key(q) implies to_map(t)[q] == to_map(
        s,
    ).remove(k)[q] by {
        let j = choose|j: int| 0 <= j < t.len() && #[trigger] t[j].0 == q;
        let j0 = if j < i { j } else { j + 1 };
        assert(t[j] == s[j0]);
        lemma_to_map_index(t, j);
        lemma_to_map_index(s, j0);
    }
    assert(to_map(t) =~= to_map(s).remove(k));
}

pub proof fn lemma_seq_insert_to_set<A>(s: Seq<A>, i: int, a: A)
    requires
        0 <= i <= s.len(),
    ensures
        s.insert(i, a).to_set() == s.to_set().insert(a),
{
    let t = s.insert(i, a);
    assert forall|x: A| t.to_set().contains(x) == s.to_set().insert(a).contains(x) by {
        if t.contains(x) {
            let j = choose|j: int| 0 <= j < t.len() && t[j] == x;
            if j < i {
                assert(s[j] == x);
            } else if j > i {
                assert(s[j - 1] == x);
            }
        }
        if s.contains(x) {
            let j = choose|j: int| 0 <= j < s.len() && s[j] == x;
            if j < i {
                assert(t[j] == x);
            } else {
                assert(t[j + 1] == x);
            }
        }
        if x == a {
            assert(t[i] == a);
        }
    }
    assert(t.to_set() =~= s.to_set().insert(a));
}

pub proof fn lemma_seq_remove_to_set<A>(s: Seq<A>, i: int)
    requires
        0 <= i < s.len(),
        s.no_duplicates(),
    ensures
        s.remove(i).to_set() == s.to_set().remove(s[i]),
{
    let t = s.remove(i);
    assert forall|x: A| t.to_set().contains(x) == s.to_set().remove(s[i]).contains(x) by {
        if t.contains(x) {
            let j = choose|j: int| 0 <= j < t.len() && t[j] == x;
            let j0 = if j < i { j } else { j + 1 };
            assert(t[j] == s[j0]);
        }
        if s.contains(x) && x != s[i] {
            let j = choose|j: int| 0 <= j < s.len() && s[j] == x;
            if j < i {
                assert(t[j] == x);
            } else {
                assert(t[j - 1] == x);
            }
        }
    }
    assert(t.to_set() =~= s.to_set().remove(s[i]));
}

pub proof fn lemma_sorted_keys_no_duplicates<V>(s: Seq<(Seq<char>, V)>)
    requires
        keys_sorted(s),
    ensures
        keys_of(s).no_duplicates(),
{
    assert forall|i: int, j: int|
        0 <= i < keys_of(s).len() && 0 <= j < keys_of(s).len() && i != j implies keys_of(s)[i]
        != keys_of(s)[j] by {
        lemma_sorted_distinct(s, i, j);
    }
}

/// Strictly increasing by UTF-8 bytes.
pub open spec fn strings_sorted(s: Seq<Seq<char>>) -> bool {
    forall|i: int, j: int| 0 <= i < j < s.len() ==> #[trigger] bytes_lt(key_bytes(s[i]), key_bytes(s[j]))
}

/// The keys of a sorted sequence of entries: sorted, without repeats, and
/// the domain of its map; the map has as many keys as there are entries.
pub proof fn lemma_keys_of_sorted<V>(s: Seq<(Seq<char>, V)>)
    requires
        keys_sorted(s),
    ensures
        strings_sorted(keys_of(s)),
        keys_of(s).no_duplicates(),
        keys_of(s).to_set() == to_map(s).dom(),
        to_map(s).len() == s.len(),
        keys_of(s).len() == s.len(),
{
    assert forall|i: int, j: int| 0 <= i < j < keys_of(s).len() implies #[trigger] bytes_lt(
        key_bytes(keys_of(s)[i]),
        key_bytes(keys_of(s)[j]),
    ) by {
        assert(bytes_lt(key_bytes(s[i].0), key_bytes(s[j].0)));
    }
    lemma_sorted_keys_no_duplicates(s);
    assert forall|k: Seq<char>| keys_of(s).to_set().contains(k) == to_map(s).dom().contains(k) by {
        if keys_of(s).contains(k) {
            let j = choose|j: int| 0 <= j < keys_of(s).len() && keys_of(s)[j] == k;
            assert(s[j].0 == k);
        }
        if has_key(s, k) {
            let j = choose|j: int| 0 <= j < s.len() && #[trigger] s[j].0 == k;
            assert(keys_of(s)[j] == k);
        }
    }
    assert(keys_of(s).to_set() =~= to_map(s).dom());
    keys_of(s).unique_seq_to_set();
}

} // verus!
