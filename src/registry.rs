//! The point registry: an ordered table from caller-chosen node keys to
//! points, whose insertion order gives each key a dense position.
use crate::error::NeighborError;
use indexmap::IndexSet;
use vstd::prelude::*;

verus! {

/// `indexmap::IndexSet`, held opaque; `key_order` names what it holds.
#[verifier::external_type_specification]
#[verifier::external_body]
#[verifier::reject_recursive_types(T)]
#[verifier::reject_recursive_types(S)]
pub struct ExIndexSet<T, S>(IndexSet<T, S>);

/// The keys that an `IndexSet` holds, in insertion order.
pub uninterp spec fn key_order(s: IndexSet<usize>) -> Seq<usize>;

/// Relies on `IndexSet::new`: a new set holds no key.
#[verifier::external_body]
fn empty_key_set() -> (r: IndexSet<usize>)
    ensures
        key_order(r) == Seq::<usize>::empty(),
{
    IndexSet::new()
}

/// Relies on `IndexSet::insert_full`: a key already held keeps its place
/// and its index comes back with `false`; a new key goes last and its index
/// comes back with `true`.
#[verifier::external_body]
fn insert_key(s: &mut IndexSet<usize>, k: usize) -> (r: (usize, bool))
    ensures
        key_order(*old(s)).contains(k) ==> {
            &&& key_order(*final(s)) == key_order(*old(s))
            &&& !r.1
            &&& r.0 < key_order(*old(s)).len()
            &&& key_order(*old(s))[r.0 as int] == k
        },
        !key_order(*old(s)).contains(k) ==> {
            &&& key_order(*final(s)) == key_order(*old(s)).push(k)
            &&& r.1
            &&& r.0 == key_order(*old(s)).len()
        },
{
    s.insert_full(k)
}

/// Relies on `IndexSet::get_index_of`: the index of the key, if held.
#[verifier::external_body]
fn index_of_key(s: &IndexSet<usize>, k: usize) -> (r: Option<usize>)
    ensures
        r is None <==> !key_order(*s).contains(k),
        r matches Some(i) ==> i < key_order(*s).len() && key_order(*s)[i as int] == k,
{
    s.get_index_of(&k)
}

/// Relies on `IndexSet::get_index`: the key at an index, if in range.
#[verifier::external_body]
fn key_at_index(s: &IndexSet<usize>, i: usize) -> (r: Option<usize>)
    ensures
        i < key_order(*s).len() ==> r == Some(key_order(*s)[i as int]),
        i >= key_order(*s).len() ==> r is None,
{
    s.get_index(i).copied()
}

/// Whether some entry has key `k`.
pub open spec fn has_key<P>(e: Seq<(usize, P)>, k: usize) -> bool {
    exists|i: int| 0 <= i < e.len() && e[i].0 == k
}

/// The position of the entry with key `k` (meaningful when there is one).
pub open spec fn slot<P>(e: Seq<(usize, P)>, k: usize) -> int {
    choose|i: int| 0 <= i < e.len() && e[i].0 == k
}

/// No key occurs twice.
pub open spec fn unique_keys<P>(e: Seq<(usize, P)>) -> bool {
    forall|i: int, j: int| 0 <= i < e.len() && 0 <= j < e.len() && e[i].0 == e[j].0 ==> i == j
}

/// The keys of the entries, in order.
pub open spec fn keys_of<P>(e: Seq<(usize, P)>) -> Seq<usize> {
    e.map_values(|x: (usize, P)| x.0)
}

/// The points of the entries, in order.
pub open spec fn points_of<P>(e: Seq<(usize, P)>) -> Seq<P> {
    e.map_values(|x: (usize, P)| x.1)
}

/// The point registered under `k`, if any.
pub open spec fn point_of<P>(e: Seq<(usize, P)>, k: usize) -> Option<P> {
    if has_key(e, k) {
        Some(e[slot(e, k)].1)
    } else {
        None
    }
}

/// Registering `p` under `k`: an existing key gets the new point in place,
/// a new key is appended.
pub open spec fn upsert<P>(e: Seq<(usize, P)>, k: usize, p: P) -> Seq<(usize, P)> {
    if has_key(e, k) {
        e.update(slot(e, k), (k, p))
    } else {
        e.push((k, p))
    }
}

/// Registering every pair of `pairs`, in order: for a key given twice the
/// later point wins.
pub open spec fn upsert_all<P>(e: Seq<(usize, P)>, pairs: Seq<(usize, P)>) -> Seq<(usize, P)>
    decreases pairs.len(),
{
    if pairs.len() == 0 {
        e
    } else {
        upsert(upsert_all(e, pairs.drop_last()), pairs.last().0, pairs.last().1)
    }
}

/// The point that the last pair with key `k` gives, if any pair has it.
pub open spec fn latest<P>(pairs: Seq<(usize, P)>, k: usize) -> Option<P>
    decreases pairs.len(),
{
    if pairs.len() == 0 {
        None
    } else if pairs.last().0 == k {
        Some(pairs.last().1)
    } else {
        latest(pairs.drop_last(), k)
    }
}

proof fn lemma_upsert<P>(e: Seq<(usize, P)>, k: usize, p: P)
    requires
        unique_keys(e),
    ensures
        unique_keys(upsert(e, k, p)),
        upsert(e, k, p).len() >= e.len(),
        upsert(e, k, p).len() > e.len() ==> upsert(e, k, p).len() == e.len() + 1,
        forall|i: int|
            0 <= i < e.len() ==> (#[trigger] upsert(e, k, p)[i]).0 == e[i].0 && (e[i].0 != k
                ==> upsert(e, k, p)[i] == e[i]),
        forall|i: int|
            0 <= i < upsert(e, k, p).len() && (#[trigger] upsert(e, k, p)[i]).0 == k ==> upsert(
                e,
                k,
                p,
            )[i].1 == p,
        forall|i: int|
            e.len() <= i < upsert(e, k, p).len() ==> (#[trigger] upsert(e, k, p)[i]).0 == k,
        forall|kk: usize| #[trigger] has_key(upsert(e, k, p), kk) <==> (has_key(e, kk) || kk == k),
{
    let r = upsert(e, k, p);
    if has_key(e, k) {
        let s = slot(e, k);
        assert forall|kk: usize| #[trigger] has_key(r, kk) <==> (has_key(e, kk) || kk == k) by {
            if has_key(e, kk) {
                let j = choose|j: int| 0 <= j < e.len() && e[j].0 == kk;
                assert(r[j].0 == kk);
            }
            if has_key(r, kk) {
                let j = choose|j: int| 0 <= j < r.len() && r[j].0 == kk;
                assert(e[j].0 == kk);
            }
            if kk == k {
                assert(r[s].0 == k);
            }
        }
    } else {
        assert forall|i: int, j: int|
            0 <= i < r.len() && 0 <= j < r.len() && r[i].0 == r[j].0 implies i == j by {
            if i < e.len() && j == e.len() {
                assert(e[i].0 == k);
            } else if j < e.len() && i == e.len() {
                assert(e[j].0 == k);
            }
        }
        assert forall|kk: usize| #[trigger] has_key(r, kk) <==> (has_key(e, kk) || kk == k) by {
            if has_key(e, kk) {
                let j = choose|j: int| 0 <= j < e.len() && e[j].0 == kk;
                assert(r[j].0 == kk);
            }
            if has_key(r, kk) {
                let j = choose|j: int| 0 <= j < r.len() && r[j].0 == kk;
                if j < e.len() {
                    assert(e[j].0 == kk);
                }
            }
            if kk == k {
                assert(r[e.len() as int].0 == k);
            }
        }
    }
}

proof fn lemma_upsert_all<P>(e: Seq<(usize, P)>, pairs: Seq<(usize, P)>)
    requires
        unique_keys(e),
    ensures
        unique_keys(upsert_all(e, pairs)),
        upsert_all(e, pairs).len() >= e.len(),
        forall|i: int|
            0 <= i < e.len() ==> (#[trigger] upsert_all(e, pairs)[i]).0 == e[i].0 && (latest(
                pairs,
                e[i].0,
            ) is None ==> upsert_all(e, pairs)[i].1 == e[i].1),
        forall|i: int|
            0 <= i < upsert_all(e, pairs).len() ==> (latest(
                pairs,
                (#[trigger] upsert_all(e, pairs)[i]).0,
            ) matches Some(p) ==> upsert_all(e, pairs)[i].1 == p),
        forall|kk: usize| #[trigger]
            has_key(upsert_all(e, pairs), kk) <==> (has_key(e, kk) || latest(pairs, kk) is Some),
    decreases pairs.len(),
{
    if pairs.len() > 0 {
        let rest = pairs.drop_last();
        let (k, p) = pairs.last();
        let r0 = upsert_all(e, rest);
        lemma_upsert_all(e, rest);
        lemma_upsert(r0, k, p);
        let r = upsert(r0, k, p);
        assert(r == upsert_all(e, pairs));
        assert forall|i: int| 0 <= i < e.len() implies (#[trigger] r[i]).0 == e[i].0 && (latest(
            pairs,
            e[i].0,
        ) is None ==> r[i].1 == e[i].1) by {
            assert(r[i].0 == r0[i].0);
        }
        assert forall|i: int| 0 <= i < r.len() implies (latest(pairs, (#[trigger] r[i]).0) matches Some(
            q,
        ) ==> r[i].1 == q) by {
            if r[i].0 != k {
                assert(r[i] == r0[i]);
            }
        }
    }
}

/// Registering the same pairs a second time changes nothing: the keys,
/// their positions and their points stay as the first registration left
/// them.
pub proof fn lemma_update_twice<P>(e: Seq<(usize, P)>, pairs: Seq<(usize, P)>)
    requires
        unique_keys(e),
    ensures
        upsert_all(upsert_all(e, pairs), pairs) == upsert_all(e, pairs),
{
    let r = upsert_all(e, pairs);
    lemma_upsert_all(e, pairs);
    lemma_upsert_all(r, pairs);
    let r2 = upsert_all(r, pairs);
    if r2.len() > r.len() {
        let i = r.len() as int;
        let kk = r2[i].0;
        assert(has_key(r2, kk));
        assert(has_key(r, kk));
        let j = choose|j: int| 0 <= j < r.len() && r[j].0 == kk;
        assert(r2[j].0 == kk);
    }
    assert(r2 =~= r);
}

/// An ordered table from node keys to points. Keys are unique; the
/// insertion order gives each key its dense position `0..len`, which a
/// later registration of the same key does not change.
pub struct Registry<P> {
    keys: IndexSet<usize>,
    points: Vec<P>,
}

impl<P> View for Registry<P> {
    type V = Seq<(usize, P)>;

    closed spec fn view(&self) -> Seq<(usize, P)> {
        Seq::new(self.points@.len(), |i: int| (key_order(self.keys)[i], self.points@[i]))
    }
}

impl<P> Registry<P> {
    /// Every registry that `new` makes and the methods here change is well
    /// formed: one point per key, and no key twice.
    pub closed spec fn wf(&self) -> bool {
        &&& key_order(self.keys).len() == self.points@.len()
        &&& key_order(self.keys).no_duplicates()
    }

    /// An empty registry.
    pub fn new() -> (r: Self)
        ensures
            r.wf(),
            r@ == Seq::<(usize, P)>::empty(),
    {
        let r = Registry { keys: empty_key_set(), points: Vec::new() };
        assert(r@ =~= Seq::<(usize, P)>::empty());
        r
    }

    /// The number of registered points.
    pub fn len(&self) -> (r: usize)
        requires
            self.wf(),
        ensures
            r == self@.len(),
    {
        self.points.len()
    }

    /// The points in registry order, position by position.
    pub fn points(&self) -> (r: &Vec<P>)
        requires
            self.wf(),
        ensures
            r@ == points_of(self@),
    {
        assert(self.points@ =~= points_of(self@));
        &self.points
    }

    /// Registers `point` under `key`: an existing key keeps its position and
    /// gets the new point, a new key is appended.
    pub fn insert_or_replace(&mut self, key: usize, point: P)
        requires
            old(self).wf(),
        ensures
            final(self).wf(),
            final(self)@ == upsert(old(self)@, key, point),
            unique_keys(final(self)@),
    {
        let ghost e = self@;
        let ghost ks = key_order(self.keys);
        assert(ks.contains(key) == has_key(e, key)) by {
            if ks.contains(key) {
                let i = choose|i: int| 0 <= i < ks.len() && ks[i] == key;
                assert(e[i].0 == key);
            }
            if has_key(e, key) {
                let i = choose|i: int| 0 <= i < e.len() && e[i].0 == key;
                assert(ks[i] == key);
            }
        }
        let (i, fresh) = insert_key(&mut self.keys, key);
        if fresh {
            self.points.push(point);
            proof {
                let ks2 = key_order(self.keys);
                assert(ks2.no_duplicates()) by {
                    assert forall|a: int, b: int|
                        0 <= a < ks2.len() && 0 <= b < ks2.len() && a != b implies ks2[a]
                        != ks2[b] by {
                        if a < ks.len() && b < ks.len() {
                        } else if a < ks.len() {
                            assert(ks.contains(ks[a]));
                        } else {
                            assert(ks.contains(ks[b]));
                        }
                    }
                }
                assert(self@ =~= e.push((key, point)));
            }
        } else {
            self.points.set(i, point);
            proof {
                assert(e[i as int].0 == key);
                assert(slot(e, key) == i);
                assert(self@ =~= e.update(i as int, (key, point)));
            }
        }
    }

    /// Registers every pair, in order; a key given twice keeps the later
    /// point.
    pub fn update(&mut self, pairs: Vec<(usize, P)>)
        where
            P: Copy,
        requires
            old(self).wf(),
        ensures
            final(self).wf(),
            final(self)@ == upsert_all(old(self)@, pairs@),
            unique_keys(final(self)@),
    {
        let ghost e = self@;
        let mut i: usize = 0;
        while i < pairs.len()
            invariant
                i <= pairs.len(),
                self@ == upsert_all(e, pairs@.take(i as int)),
                self.wf(),
            decreases pairs.len() - i,
        {
            let (k, p) = pairs[i];
            self.insert_or_replace(k, p);
            proof {
                assert(pairs@.take(i + 1).drop_last() =~= pairs@.take(i as int));
            }
            i = i + 1;
        }
        assert(pairs@.take(i as int) =~= pairs@);
    }

    /// The dense position of `key`.
    pub fn position_of(&self, key: usize) -> (r: Result<usize, NeighborError>)
        requires
            self.wf(),
        ensures
            has_key(self@, key) ==> (r matches Ok(i) && i == slot(self@, key)),
            !has_key(self@, key) ==> r == Err::<usize, NeighborError>(NeighborError::UnknownKey),
    {
        match index_of_key(&self.keys, key) {
            Some(i) => {
                assert(self@[i as int].0 == key);
                Ok(i)
            },
            None => {
                assert(!has_key(self@, key)) by {
                    if has_key(self@, key) {
                        let j = choose|j: int| 0 <= j < self@.len() && self@[j].0 == key;
                        assert(key_order(self.keys)[j] == key);
                    }
                }
                Err(NeighborError::UnknownKey)
            },
        }
    }

    /// The key at dense position `i`.
    pub fn key_at(&self, i: usize) -> (r: Result<usize, NeighborError>)
        requires
            self.wf(),
        ensures
            i < self@.len() ==> r == Ok::<usize, NeighborError>(self@[i as int].0),
            i >= self@.len() ==> r == Err::<usize, NeighborError>(NeighborError::IndexOutOfRange),
    {
        match key_at_index(&self.keys, i) {
            Some(k) => Ok(k),
            None => Err(NeighborError::IndexOutOfRange),
        }
    }

    /// The point at dense position `i`.
    pub fn point_at(&self, i: usize) -> (r: Result<&P, NeighborError>)
        requires
            self.wf(),
        ensures
            i < self@.len() ==> (r matches Ok(p) && *p == self@[i as int].1),
            i >= self@.len() ==> (r matches Err(e) && e == NeighborError::IndexOutOfRange),
    {
        if i < self.points.len() {
            Ok(&self.points[i])
        } else {
            Err(NeighborError::IndexOutOfRange)
        }
    }

    /// The point registered under `key`, if any.
    pub fn get(&self, key: usize) -> (r: Option<&P>)
        requires
            self.wf(),
        ensures
            r is Some <==> has_key(self@, key),
            r matches Some(p) ==> point_of(self@, key) == Some(*p),
    {
        match self.position_of(key) {
            Ok(i) => {
                assert(self@[i as int].1 == self.points@[i as int]);
                Some(&self.points[i])
            },
            Err(_) => None,
        }
    }
}

} // verus!
