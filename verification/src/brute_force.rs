//! Brute-force (flat) kNN index — the exact baseline.
//!
//! It compares a query against every stored vector and returns the `k` closest.
//! O(N·d) per query: too slow at scale, but exact by construction (recall = 1.0),
//! so it is the oracle an approximate index is measured against.
//!
//! The distance of each stored vector to the query is computed by the caller
//! under its metric, as an order key (see [`crate::metric::distance_key`]):
//! [`BruteForceIndex::search_by`] asks for the key of each stored vector while
//! it scans and keeps only the `k` nearest so far, so memory is O(k), not O(N);
//! [`BruteForceIndex::search`] takes the keys already computed, one per stored
//! vector in storage order (the order of [`BruteForceIndex::iter`]). A query
//! meets the stored vectors only once [`BruteForceIndex::dims_agree`] has
//! confirmed that they share its dimension.
use vstd::prelude::*;
use crate::vector::Vector;
use crate::neighbor::{Neighbor, NearestBuffer, is_nearest, sorted_by_distance, selects};

verus! {

/// Some entry of `s` has id `id`.
pub open spec fn has_id<V>(s: Seq<(u64, V)>, id: u64) -> bool {
    exists|i: int| 0 <= i < s.len() && s[i].0 == id
}

/// The position of an entry of `s` with id `id`.
pub open spec fn position_of<V>(s: Seq<(u64, V)>, id: u64) -> int {
    choose|i: int| 0 <= i < s.len() && s[i].0 == id
}

/// No two entries of `s` share an id.
pub open spec fn ids_unique<V>(s: Seq<(u64, V)>) -> bool {
    forall|i: int, j: int| 0 <= i < j < s.len() ==> #[trigger] s[i].0 != #[trigger] s[j].0
}

/// The vector stored under `id` in `s`, if any.
pub open spec fn lookup<V>(s: Seq<(u64, V)>, id: u64) -> Option<V> {
    if has_id(s, id) {
        Some(s[position_of(s, id)].1)
    } else {
        None
    }
}

/// The entries of `s` scored by `keys`: the id of each entry with the key at
/// the same position.
pub open spec fn scored<V>(s: Seq<(u64, V)>, keys: Seq<u32>) -> Seq<Neighbor> {
    Seq::new(s.len(), |i: int| Neighbor { id: s[i].0, distance: keys[i] })
}

/// In an entry sequence without repeated ids, the entry with a given id is the
/// one at its position.
pub proof fn lemma_position_unique<V>(s: Seq<(u64, V)>, id: u64, i: int)
    requires
        ids_unique(s),
        0 <= i < s.len(),
        s[i].0 == id,
    ensures
        has_id(s, id),
        position_of(s, id) == i,
{
    let p = position_of(s, id);
    if p != i {
        if p < i {
            assert(s[p].0 != s[i].0);
        } else {
            assert(s[i].0 != s[p].0);
        }
    }
}

/// The entries after inserting `v` under the fresh id `id`.
pub open spec fn insert_entry<V>(s: Seq<(u64, V)>, id: u64, v: V) -> Seq<(u64, V)> {
    s.push((id, v))
}

/// The entries after removing `id`: the last entry takes its place; unchanged
/// when `id` is not stored.
pub open spec fn remove_entry<V>(s: Seq<(u64, V)>, id: u64) -> Seq<(u64, V)> {
    if has_id(s, id) {
        s.update(position_of(s, id), s.last()).drop_last()
    } else {
        s
    }
}

/// The entries after replacing the vector of `id` by `v`; unchanged when `id`
/// is not stored.
pub open spec fn update_entry<V>(s: Seq<(u64, V)>, id: u64, v: V) -> Seq<(u64, V)> {
    if has_id(s, id) {
        s.update(position_of(s, id), (id, v))
    } else {
        s
    }
}

/// Every id stored in `s` is below `bound`.
pub open spec fn ids_below<V>(s: Seq<(u64, V)>, bound: int) -> bool {
    forall|i: int| 0 <= i < s.len() ==> #[trigger] s[i].0 < bound
}

/// Inserting under an id above all stored ones keeps ids unique, stores the
/// vector under it and leaves every other id as it was.
proof fn lemma_insert_entry<V>(s: Seq<(u64, V)>, id: u64, v: V)
    requires
        ids_unique(s),
        ids_below(s, id as int),
    ensures
        ids_unique(insert_entry(s, id, v)),
        ids_below(insert_entry(s, id, v), id + 1),
        !has_id(s, id),
        lookup(insert_entry(s, id, v), id) == Some(v),
        forall|other: u64|
            other != id ==> #[trigger] lookup(insert_entry(s, id, v), other) == lookup(s, other),
{
    let s2 = insert_entry(s, id, v);
    assert(!has_id(s, id)) by {
        if has_id(s, id) {
            let i = choose|i: int| 0 <= i < s.len() && s[i].0 == id;
            assert(s[i].0 < id);
        }
    }
    assert(ids_unique(s2)) by {
        assert forall|i: int, j: int| 0 <= i < j < s2.len() implies #[trigger] s2[i].0
            != #[trigger] s2[j].0 by {
            if j == s.len() {
                assert(s[i].0 < id);
            } else {
                assert(s[i] == s2[i] && s[j] == s2[j]);
            }
        }
    }
    assert forall|i: int| 0 <= i < s2.len() implies #[trigger] s2[i].0 < id + 1 by {
        if i < s.len() {
            assert(s2[i] == s[i]);
        }
    }
    lemma_position_unique(s2, id, s.len() as int);
    assert forall|other: u64| other != id implies #[trigger] lookup(s2, other) == lookup(s, other) by {
        if has_id(s, other) {
            let p = position_of(s, other);
            lemma_position_unique(s, other, p);
            assert(s2[p] == s[p]);
            lemma_position_unique(s2, other, p);
        } else if has_id(s2, other) {
            let p = choose|i: int| 0 <= i < s2.len() && s2[i].0 == other;
            assert(p < s.len());
            assert(s2[p] == s[p]);
        }
    }
}

/// Removing keeps ids unique and below any bound they were below, drops
/// `id`, and leaves every other id as it was.
proof fn lemma_remove_entry<V>(s: Seq<(u64, V)>, id: u64, bound: int)
    requires
        ids_unique(s),
        ids_below(s, bound),
    ensures
        ids_unique(remove_entry(s, id)),
        ids_below(remove_entry(s, id), bound),
        lookup(remove_entry(s, id), id) is None,
        forall|other: u64| other != id ==> #[trigger] lookup(remove_entry(s, id), other) == lookup(s, other),
        remove_entry(s, id).len() == if has_id(s, id) { s.len() - 1 } else { s.len() as int },
{
    if has_id(s, id) {
        let p = position_of(s, id);
        lemma_swap_remove_lookup(s, p);
        let s2 = remove_entry(s, id);
        assert forall|i: int| 0 <= i < s2.len() implies #[trigger] s2[i].0 < bound by {
            assert(s2[i].0 == s[if i == p { s.len() - 1 } else { i }].0);
        }
    }
}

/// Replacing the vector of a stored id keeps ids as they were, stores the new
/// vector under it, and leaves every other id as it was.
proof fn lemma_update_entry<V>(s: Seq<(u64, V)>, id: u64, v: V, bound: int)
    requires
        ids_unique(s),
        ids_below(s, bound),
    ensures
        ids_unique(update_entry(s, id, v)),
        ids_below(update_entry(s, id, v), bound),
        update_entry(s, id, v).len() == s.len(),
        has_id(s, id) ==> lookup(update_entry(s, id, v), id) == Some(v),
        !has_id(s, id) ==> update_entry(s, id, v) == s,
        forall|other: u64|
            other != id ==> #[trigger] lookup(update_entry(s, id, v), other) == lookup(s, other),
{
    if has_id(s, id) {
        let p = position_of(s, id);
        let s2 = update_entry(s, id, v);
        assert(ids_unique(s2)) by {
            assert forall|i: int, j: int| 0 <= i < j < s2.len() implies #[trigger] s2[i].0
                != #[trigger] s2[j].0 by {
                assert(s2[i].0 == s[i].0 && s2[j].0 == s[j].0);
            }
        }
        assert forall|i: int| 0 <= i < s2.len() implies #[trigger] s2[i].0 < bound by {
            assert(s2[i].0 == s[i].0);
        }
        lemma_position_unique(s2, id, p);
        assert forall|other: u64| other != id implies #[trigger] lookup(s2, other) == lookup(s, other) by {
            if has_id(s, other) {
                let q = position_of(s, other);
                lemma_position_unique(s, other, q);
                assert(q != p);
                assert(s2[q] == s[q]);
                lemma_position_unique(s2, other, q);
            } else if has_id(s2, other) {
                let q = choose|i: int| 0 <= i < s2.len() && s2[i].0 == other;
                assert(s2[q].0 == s[q].0);
            }
        }
    }
}

// ---------------------------------------------------------------------------
// Call histories.

/// One call that changes a brute-force index.
pub enum IndexOp<V> {
    Insert(V),
    Remove(u64),
    Update(u64, V),
}

/// The number of inserts in `ops`.
pub open spec fn inserts<V>(ops: Seq<IndexOp<V>>) -> nat
    decreases ops.len(),
{
    if ops.len() == 0 {
        0
    } else {
        inserts(ops.drop_last()) + if ops.last() is Insert { 1nat } else { 0nat }
    }
}

/// The entries of an index built by the calls `ops` from a new one. The `j`-th
/// insert stores under id `j`.
pub open spec fn replay<V>(ops: Seq<IndexOp<V>>) -> Seq<(u64, V)>
    decreases ops.len(),
{
    if ops.len() == 0 {
        Seq::empty()
    } else {
        let prev = ops.drop_last();
        match ops.last() {
            IndexOp::Insert(v) => insert_entry(replay(prev), inserts(prev) as u64, v),
            IndexOp::Remove(id) => remove_entry(replay(prev), id),
            IndexOp::Update(id, v) => update_entry(replay(prev), id, v),
        }
    }
}

/// The number of removes in `ops` that found their id stored.
pub open spec fn removals<V>(ops: Seq<IndexOp<V>>) -> nat
    decreases ops.len(),
{
    if ops.len() == 0 {
        0
    } else {
        let prev = ops.drop_last();
        removals(prev) + match ops.last() {
            IndexOp::Remove(id) => if has_id(replay(prev), id) { 1nat } else { 0nat },
            _ => 0nat,
        }
    }
}

/// The vector of the latest insert of `id`, or successful update of it, in
/// `ops`; `None` when `id` was never inserted or has been removed since.
pub open spec fn latest<V>(ops: Seq<IndexOp<V>>, id: u64) -> Option<V>
    decreases ops.len(),
{
    if ops.len() == 0 {
        None
    } else {
        let prev = ops.drop_last();
        let before = latest(prev, id);
        match ops.last() {
            IndexOp::Insert(v) => if inserts(prev) == id { Some(v) } else { before },
            IndexOp::Remove(r) => if r == id { None } else { before },
            IndexOp::Update(u, v) => if u == id && before is Some { Some(v) } else { before },
        }
    }
}

/// Replaying a history with fewer than `2^64` inserts gives unique ids, all
/// below the number of inserts, and each id holds its latest write.
proof fn lemma_replay<V>(ops: Seq<IndexOp<V>>)
    requires
        inserts(ops) <= u64::MAX,
    ensures
        ids_unique(replay(ops)),
        ids_below(replay(ops), inserts(ops) as int),
        replay(ops).len() == inserts(ops) - removals(ops),
        forall|id: u64| #[trigger] lookup(replay(ops), id) == latest(ops, id),
    decreases ops.len(),
{
    if ops.len() > 0 {
        let prev = ops.drop_last();
        lemma_replay(prev);
        let s = replay(prev);
        match ops.last() {
            IndexOp::Insert(v) => {
                lemma_insert_entry(s, inserts(prev) as u64, v);
                assert forall|id: u64| #[trigger] lookup(replay(ops), id) == latest(ops, id) by {
                    assert(lookup(s, id) == latest(prev, id));
                }
            },
            IndexOp::Remove(r) => {
                lemma_remove_entry(s, r, inserts(prev) as int);
                assert forall|id: u64| #[trigger] lookup(replay(ops), id) == latest(ops, id) by {
                    assert(lookup(s, id) == latest(prev, id));
                }
            },
            IndexOp::Update(u, v) => {
                lemma_update_entry(s, u, v, inserts(prev) as int);
                assert forall|id: u64| #[trigger] lookup(replay(ops), id) == latest(ops, id) by {
                    assert(lookup(s, id) == latest(prev, id));
                    if id == u {
                        assert(has_id(s, u) <==> lookup(s, u) is Some);
                    }
                }
            },
        }
    }
}

proof fn lemma_inserts_prefix<V>(ops: Seq<IndexOp<V>>, j: int)
    requires
        0 <= j <= ops.len(),
    ensures
        inserts(ops.take(j)) <= inserts(ops),
        j < ops.len() && ops[j] is Insert ==> inserts(ops.take(j)) < inserts(ops),
    decreases ops.len() - j,
{
    if j < ops.len() {
        lemma_inserts_prefix(ops, j + 1);
        assert(ops.take(j + 1).drop_last() =~= ops.take(j));
    } else {
        assert(ops.take(j) =~= ops);
    }
}

/// A flat collection of vectors searchable by exact kNN.
///
/// Stores `(id, vector)` pairs and assigns monotonically increasing ids on
/// insert. The metric is chosen per search rather than owned, so the same data
/// can be queried under different metrics.
pub struct BruteForceIndex<V> {
    entries: Vec<(u64, V)>,
    next_id: u64,
    history: Ghost<Seq<IndexOp<V>>>,
}

impl<V> BruteForceIndex<V> {
    /// The stored `(id, vector)` pairs, in storage order.
    pub closed spec fn entries(&self) -> Seq<(u64, V)> {
        self.entries@
    }

    /// The id the next insert assigns.
    pub closed spec fn next_id(&self) -> u64 {
        self.next_id
    }

    /// The inserts, removes and updates made since the index was created,
    /// in call order.
    pub closed spec fn history(&self) -> Seq<IndexOp<V>> {
        self.history@
    }

    /// The entries are those that the history builds, the next id is the
    /// number of inserts so far, and ids are unique and all below it.
    pub open spec fn wf(&self) -> bool {
        &&& self.entries() == replay(self.history())
        &&& self.next_id() == inserts(self.history())
        &&& ids_unique(self.entries())
        &&& forall|i: int| 0 <= i < self.entries().len() ==> #[trigger] self.entries()[i].0 < self.next_id()
    }

    pub fn new() -> (idx: Self)
        ensures
            idx.wf(),
            idx.entries() == Seq::<(u64, V)>::empty(),
            idx.next_id() == 0,
            idx.history() == Seq::<IndexOp<V>>::empty(),
    {
        BruteForceIndex { entries: Vec::new(), next_id: 0, history: Ghost(Seq::empty()) }
    }

    /// The id the next insert will assign.
    pub fn next_free_id(&self) -> (id: u64)
        ensures
            id == self.next_id(),
    {
        self.next_id
    }

    /// Insert a vector and return its assigned id.
    pub fn insert(&mut self, vector: V) -> (id: u64)
        requires
            old(self).wf(),
            old(self).next_id() < u64::MAX,
        ensures
            final(self).wf(),
            id == old(self).next_id(),
            final(self).next_id() == id + 1,
            final(self).entries() == old(self).entries().push((id, vector)),
            final(self).history() == old(self).history().push(IndexOp::Insert(vector)),
            !has_id(old(self).entries(), id),
            lookup(final(self).entries(), id) == Some(vector),
            forall|other: u64|
                other != id ==> #[trigger] lookup(final(self).entries(), other) == lookup(
                    old(self).entries(),
                    other,
                ),
    {
        let id = self.next_id;
        proof {
            lemma_insert_entry(self.entries(), id, vector);
            self.history = Ghost(self.history@.push(IndexOp::Insert(vector)));
            assert(self.history@.drop_last() == old(self).history());
        }
        self.next_id = self.next_id + 1;
        self.entries.push((id, vector));
        id
    }

    /// The position holding id `id`, if any.
    fn find_position(&self, id: u64) -> (pos: Option<usize>)
        requires
            self.wf(),
        ensures
            pos is Some <==> has_id(self.entries(), id),
            pos matches Some(p) ==> p < self.entries().len() && p == position_of(self.entries(), id)
                && self.entries()[p as int].0 == id,
    {
        let mut i: usize = 0;
        while i < self.entries.len()
            invariant
                self.wf(),
                i <= self.entries@.len(),
                forall|j: int| 0 <= j < i ==> self.entries@[j].0 != id,
            decreases self.entries@.len() - i,
        {
            if self.entries[i].0 == id {
                proof {
                    lemma_position_unique(self.entries(), id, i as int);
                }
                return Some(i);
            }
            i = i + 1;
        }
        None
    }

    /// Remove the vector with `id`. Returns whether it existed.
    ///
    /// The last entry takes the removed entry's place in storage order.
    pub fn remove(&mut self, id: u64) -> (existed: bool)
        requires
            old(self).wf(),
        ensures
            final(self).wf(),
            existed == has_id(old(self).entries(), id),
            final(self).next_id() == old(self).next_id(),
            existed ==> final(self).entries() == old(self).entries().update(
                position_of(old(self).entries(), id),
                old(self).entries().last(),
            ).drop_last(),
            !existed ==> final(self).entries() == old(self).entries(),
            final(self).history() == old(self).history().push(IndexOp::Remove(id)),
            lookup(final(self).entries(), id) is None,
            forall|other: u64|
                other != id ==> #[trigger] lookup(final(self).entries(), other) == lookup(
                    old(self).entries(),
                    other,
                ),
    {
        let found = self.find_position(id);
        proof {
            lemma_remove_entry(self.entries(), id, self.next_id() as int);
            self.history = Ghost(self.history@.push(IndexOp::Remove(id)));
            assert(self.history@.drop_last() == old(self).history());
        }
        match found {
            Some(p) => {
                self.entries.swap_remove(p);
                true
            },
            None => false,
        }
    }

    /// Replace the vector stored under `id`. Returns whether it existed.
    pub fn update(&mut self, id: u64, vector: V) -> (existed: bool)
        requires
            old(self).wf(),
        ensures
            final(self).wf(),
            existed == has_id(old(self).entries(), id),
            final(self).next_id() == old(self).next_id(),
            existed ==> final(self).entries() == old(self).entries().update(
                position_of(old(self).entries(), id),
                (id, vector),
            ),
            !existed ==> final(self).entries() == old(self).entries(),
            final(self).history() == old(self).history().push(IndexOp::Update(id, vector)),
            existed ==> lookup(final(self).entries(), id) == Some(vector),
            forall|other: u64|
                other != id ==> #[trigger] lookup(final(self).entries(), other) == lookup(
                    old(self).entries(),
                    other,
                ),
    {
        let found = self.find_position(id);
        proof {
            lemma_update_entry(self.entries(), id, vector, self.next_id() as int);
            self.history = Ghost(self.history@.push(IndexOp::Update(id, vector)));
            assert(self.history@.drop_last() == old(self).history());
        }
        match found {
            Some(p) => {
                self.entries.set(p, (id, vector));
                true
            },
            None => false,
        }
    }

    /// The number of stored vectors.
    pub fn len(&self) -> (n: usize)
        ensures
            n == self.entries().len(),
    {
        self.entries.len()
    }

    /// Whether no vector is stored.
    pub fn is_empty(&self) -> (b: bool)
        ensures
            b == (self.entries().len() == 0),
    {
        self.entries.len() == 0
    }

    /// The vector stored under `id`, if any.
    pub fn get(&self, id: u64) -> (v: Option<&V>)
        requires
            self.wf(),
        ensures
            v is Some == has_id(self.entries(), id),
            v matches Some(r) ==> lookup(self.entries(), id) == Some(*r),
    {
        match self.find_position(id) {
            Some(p) => Some(&self.entries[p].1),
            None => None,
        }
    }

    /// The `(id, vector)` pairs in storage order.
    pub fn iter(&self) -> (items: Vec<(u64, &V)>)
        ensures
            items@.len() == self.entries().len(),
            forall|i: int|
                0 <= i < items@.len() ==> (#[trigger] items@[i]).0 == self.entries()[i].0
                    && *items@[i].1 == self.entries()[i].1,
    {
        let mut items: Vec<(u64, &V)> = Vec::new();
        let mut i: usize = 0;
        while i < self.entries.len()
            invariant
                i <= self.entries@.len(),
                items@.len() == i,
                forall|j: int|
                    0 <= j < i ==> (#[trigger] items@[j]).0 == self.entries@[j].0 && *items@[j].1
                        == self.entries@[j].1,
            decreases self.entries@.len() - i,
        {
            let e = &self.entries[i];
            items.push((e.0, &e.1));
            i = i + 1;
        }
        items
    }

    /// Exact kNN: the `k` stored vectors closest to the query, nearest first.
    ///
    /// `keys[i]` is the order key of the distance from the query to the `i`-th
    /// stored vector in storage order. Among equally distant vectors the one
    /// stored first wins and comes first.
    pub fn search(&self, keys: &Vec<u32>, k: usize) -> (out: Vec<Neighbor>)
        requires
            keys@.len() == self.entries().len(),
        ensures
            is_nearest(scored(self.entries(), keys@), k as int, out@),
            sorted_by_distance(out@),
            forall|t: int| 0 <= t < out@.len() ==> has_id(self.entries(), #[trigger] out@[t].id),
            out@.len() == if k < self.entries().len() { k as int } else { self.entries().len() as int },
    {
        let ghost c = scored(self.entries(), keys@);
        let mut buf = NearestBuffer::new(k);
        let n = self.entries.len();
        let mut i: usize = 0;
        while i < n
            invariant
                n == self.entries@.len(),
                keys@.len() == n,
                c == scored(self.entries(), keys@),
                i <= n,
                buf.wf(),
                buf.capacity() == k,
                buf.offered() == c.take(i as int),
            decreases n - i,
        {
            buf.offer(Neighbor { id: self.entries[i].0, distance: keys[i] });
            i = i + 1;
            assert(buf.offered() =~= c.take(i as int));
        }
        proof {
            assert(c.take(n as int) =~= c);
        }
        let out = buf.into_sorted();
        proof {
            lemma_results_stored(self.entries(), keys@, k as int, out@);
        }
        out
    }
}

/// `key` is a result `key_of` may give for `query` and components `v`.
pub open spec fn keyed_by<T, F: Fn(&[T], &[T]) -> u32>(key_of: F, query: &[T], v: Seq<T>, key: u32) -> bool {
    exists|s: &[T]| #![trigger call_ensures(key_of, (query, s), key)] s@ == v && call_ensures(key_of, (query, s), key)
}

impl<T> BruteForceIndex<Vector<T>> {
    /// Every stored vector has `dim` components.
    pub open spec fn all_of_dim(&self, dim: int) -> bool {
        forall|i: int| 0 <= i < self.entries().len() ==> (#[trigger] self.entries()[i]).1@.len() == dim
    }

    /// Whether every stored vector has `dim` components: the check a query or a
    /// new vector of that dimension passes before it meets the stored ones.
    pub fn dims_agree(&self, dim: usize) -> (b: bool)
        ensures
            b == self.all_of_dim(dim as int),
    {
        let n = self.entries.len();
        let mut i: usize = 0;
        while i < n
            invariant
                n == self.entries@.len(),
                i <= n,
                forall|j: int| 0 <= j < i ==> (#[trigger] self.entries@[j]).1@.len() == dim,
            decreases n - i,
        {
            if self.entries[i].1.dim() != dim {
                assert(self.entries()[i as int].1@.len() != dim);
                return false;
            }
            i = i + 1;
        }
        assert forall|j: int| 0 <= j < self.entries().len() implies (#[trigger] self.entries()[j]).1@.len() == dim by {
            assert(self.entries@[j].1@.len() == dim);
        }
        true
    }

    /// Exact kNN: the `k` stored vectors closest to `query`, nearest first,
    /// the one stored first winning among equal keys. `key_of(query, v)` gives
    /// the order key of the distance from `query` to the stored components `v`
    /// (see [`crate::metric::distance_key`]); the search keeps only the `k`
    /// nearest so far while it scans, so memory is O(k), not O(N).
    ///
    /// Every stored vector has the query's dimension, so `key_of` is called
    /// once per stored vector, in storage order, and only ever with two slices
    /// of equal length.
    pub fn search_by<F: Fn(&[T], &[T]) -> u32>(&self, query: &[T], key_of: F, k: usize) -> (out: Vec<Neighbor>)
        requires
            self.all_of_dim(query@.len() as int),
            forall|a: &[T], b: &[T]| a@.len() == b@.len() ==> #[trigger] call_requires(key_of, (a, b)),
        ensures
            exists|keys: Seq<u32>| {
                &&& keys.len() == self.entries().len()
                &&& forall|i: int| 0 <= i < keys.len() ==> keyed_by(key_of, query, self.entries()[i].1@, #[trigger] keys[i])
                &&& is_nearest(scored(self.entries(), keys), k as int, out@)
            },
            sorted_by_distance(out@),
            forall|t: int| 0 <= t < out@.len() ==> has_id(self.entries(), #[trigger] out@[t].id),
            out@.len() == if k < self.entries().len() { k as int } else { self.entries().len() as int },
    {
        let mut buf = NearestBuffer::new(k);
        let ghost mut keys: Seq<u32> = Seq::empty();
        let n = self.entries.len();
        let mut i: usize = 0;
        while i < n
            invariant
                n == self.entries@.len(),
                i <= n,
                self.all_of_dim(query@.len() as int),
                forall|a: &[T], b: &[T]| a@.len() == b@.len() ==> #[trigger] call_requires(key_of, (a, b)),
                keys.len() == i,
                forall|j: int| 0 <= j < i ==> keyed_by(key_of, query, self.entries@[j].1@, #[trigger] keys[j]),
                buf.wf(),
                buf.capacity() == k,
                buf.offered() == scored(self.entries@.take(i as int), keys),
            decreases n - i,
        {
            let e = &self.entries[i];
            let v = e.1.as_slice();
            assert(self.entries()[i as int].1@.len() == query@.len());
            let key = key_of(query, v);
            buf.offer(Neighbor { id: e.0, distance: key });
            proof {
                keys = keys.push(key);
                assert(v@ == self.entries@[i as int].1@);
                assert(keyed_by(key_of, query, self.entries@[i as int].1@, key));
            }
            i = i + 1;
            assert(buf.offered() =~= scored(self.entries@.take(i as int), keys));
        }
        proof {
            assert(self.entries@.take(n as int) =~= self.entries@);
        }
        let out = buf.into_sorted();
        proof {
            lemma_results_stored(self.entries(), keys, k as int, out@);
        }
        out
    }
}

/// The dimension check at the insert boundary keeps a collection at one
/// dimension: inserting a vector of dimension `dim` into an index whose vectors
/// all have dimension `dim` leaves them all of dimension `dim`.
pub proof fn lemma_insert_keeps_dim<T>(
    before: &BruteForceIndex<Vector<T>>,
    after: &BruteForceIndex<Vector<T>>,
    id: u64,
    v: Vector<T>,
    dim: int,
)
    requires
        before.all_of_dim(dim),
        after.entries() == before.entries().push((id, v)),
        v@.len() == dim,
    ensures
        after.all_of_dim(dim),
{
    assert forall|i: int| 0 <= i < after.entries().len() implies (#[trigger] after.entries()[i]).1@.len() == dim by {
        if i < before.entries().len() {
            assert(after.entries()[i] == before.entries()[i]);
        }
    }
}

/// Every result of an exact selection over the scored entries is a stored id,
/// and there are `min(k, n)` of them.
proof fn lemma_results_stored<V>(s: Seq<(u64, V)>, keys: Seq<u32>, k: int, r: Seq<Neighbor>)
    requires
        keys.len() == s.len(),
        is_nearest(scored(s, keys), k, r),
    ensures
        forall|t: int| 0 <= t < r.len() ==> has_id(s, #[trigger] r[t].id),
        r.len() == if k < s.len() { k } else { s.len() as int },
{
    let c = scored(s, keys);
    let pos = choose|p: Seq<int>| selects(c, c.len() as int, k, r, p);
    assert forall|t: int| 0 <= t < r.len() implies has_id(s, #[trigger] r[t].id) by {
        let q = pos[t];
        assert(r[t] == c[q]);
        assert(s[q].0 == r[t].id);
    }
}

/// The ids stored in `s`.
pub open spec fn stored_ids<V>(s: Seq<(u64, V)>) -> Set<u64> {
    Set::new(|id: u64| has_id(s, id))
}

/// A stored id holds vector `v` exactly when the pair `(id, v)` is one of the
/// entries (those that `iter` lists).
pub proof fn lemma_lookup_is_entry<V>(idx: &BruteForceIndex<V>, id: u64, v: V)
    requires
        idx.wf(),
    ensures
        lookup(idx.entries(), id) == Some(v) <==> exists|i: int|
            0 <= i < idx.entries().len() && idx.entries()[i] == (id, v),
{
    let s = idx.entries();
    if exists|i: int| 0 <= i < s.len() && s[i] == (id, v) {
        let i = choose|i: int| 0 <= i < s.len() && s[i] == (id, v);
        lemma_position_unique(s, id, i);
    }
    if lookup(s, id) == Some(v) {
        let p = position_of(s, id);
        assert(s[p] == (id, v));
    }
}

/// An id that `get` finds holds the vector of its latest insert or successful
/// update; an id never handed out, or removed since, is not found.
pub proof fn lemma_get_latest_write<V>(idx: &BruteForceIndex<V>, id: u64)
    requires
        idx.wf(),
    ensures
        lookup(idx.entries(), id) == latest(idx.history(), id),
{
    lemma_replay(idx.history());
}

/// Ids are never handed out twice: an insert made as the `j`-th call
/// returned `inserts(history[..j])` (the next id then), and every such id is
/// below the id the next insert returns.
pub proof fn lemma_ids_never_reused<V>(idx: &BruteForceIndex<V>, j: int)
    requires
        idx.wf(),
        0 <= j < idx.history().len(),
        idx.history()[j] is Insert,
    ensures
        inserts(idx.history().take(j)) < idx.next_id(),
{
    lemma_inserts_prefix(idx.history(), j);
}

/// A removed id stays removed: after the `j`-th call removed an id that an
/// earlier insert had handed out, no later call stores that id again.
pub proof fn lemma_removed_stays_absent<V>(idx: &BruteForceIndex<V>, j: int, id: u64)
    requires
        idx.wf(),
        0 <= j < idx.history().len(),
        idx.history()[j] == IndexOp::<V>::Remove(id),
        id < inserts(idx.history().take(j)),
    ensures
        lookup(idx.entries(), id) is None,
{
    let h = idx.history();
    lemma_replay(h);
    lemma_latest_stays_none(h, j, id, h.len() as int);
    assert(h.take(h.len() as int) =~= h);
}

/// A removed id is never handed out again: if the `j`-th call removed an id
/// that an earlier insert had handed out, the next insert (`after` is `before`
/// with one more insert, which returns `before.next_id()`) returns a larger id,
/// and the removed id is still absent afterwards.
pub proof fn lemma_removed_id_not_reissued<V>(
    before: &BruteForceIndex<V>,
    after: &BruteForceIndex<V>,
    v: V,
    j: int,
    id: u64,
)
    requires
        before.wf(),
        after.wf(),
        after.history() == before.history().push(IndexOp::Insert(v)),
        0 <= j < before.history().len(),
        before.history()[j] == IndexOp::<V>::Remove(id),
        id < inserts(before.history().take(j)),
    ensures
        id < before.next_id(),
        lookup(before.entries(), id) is None,
        lookup(after.entries(), id) is None,
{
    let h = before.history();
    let h2 = after.history();
    lemma_inserts_prefix(h, j);
    lemma_removed_stays_absent(before, j, id);
    assert(h2.take(j) =~= h.take(j));
    assert(h2[j] == h[j]);
    lemma_removed_stays_absent(after, j, id);
}

proof fn lemma_latest_stays_none<V>(ops: Seq<IndexOp<V>>, j: int, id: u64, m: int)
    requires
        0 <= j < m <= ops.len(),
        ops[j] == IndexOp::<V>::Remove(id),
        id < inserts(ops.take(j)),
    ensures
        latest(ops.take(m), id) is None,
    decreases m,
{
    let t = ops.take(m);
    let prev = t.drop_last();
    assert(prev =~= ops.take(m - 1));
    if m == j + 1 {
        assert(t.last() == ops[j]);
    } else {
        lemma_latest_stays_none(ops, j, id, m - 1);
        lemma_inserts_prefix(ops.take(m - 1), j);
        assert(ops.take(m - 1).take(j) =~= ops.take(j));
        assert(t.last() == ops[m - 1]);
    }
}

/// Counting law: the number of stored vectors is the number of inserts less
/// the number of removes that found their id, and it is also the number of
/// distinct stored ids.
pub proof fn lemma_len_counts<V>(idx: &BruteForceIndex<V>)
    requires
        idx.wf(),
    ensures
        idx.entries().len() == inserts(idx.history()) - removals(idx.history()),
        stored_ids(idx.entries()).finite(),
        stored_ids(idx.entries()).len() == idx.entries().len(),
{
    let s = idx.entries();
    lemma_replay(idx.history());
    let ids = s.map_values(|e: (u64, V)| e.0);
    assert(ids.no_duplicates()) by {
        assert forall|a: int, b: int| 0 <= a < ids.len() && 0 <= b < ids.len() && a != b implies ids[a] != ids[b] by {
            if a < b {
                assert(s[a].0 != s[b].0);
            } else {
                assert(s[b].0 != s[a].0);
            }
        }
    }
    ids.unique_seq_to_set();
    assert(stored_ids(s) =~= ids.to_set()) by {
        assert forall|id: u64| stored_ids(s).contains(id) <==> ids.to_set().contains(id) by {
            if has_id(s, id) {
                let i = choose|i: int| 0 <= i < s.len() && s[i].0 == id;
                assert(ids[i] == id);
            }
            if ids.contains(id) {
                let i = choose|i: int| 0 <= i < ids.len() && ids[i] == id;
                assert(s[i].0 == id);
            }
        }
    }
}

/// A vector that is not stored — for instance one just removed — is never
/// among the results of a search.
pub proof fn lemma_absent_never_found<V>(idx: &BruteForceIndex<V>, keys: Seq<u32>, k: int, r: Seq<Neighbor>, id: u64)
    requires
        keys.len() == idx.entries().len(),
        is_nearest(scored(idx.entries(), keys), k, r),
        !has_id(idx.entries(), id),
    ensures
        forall|t: int| 0 <= t < r.len() ==> #[trigger] r[t].id != id,
{
    let c = scored(idx.entries(), keys);
    let pos = choose|p: Seq<int>| selects(c, c.len() as int, k, r, p);
    assert forall|t: int| 0 <= t < r.len() implies #[trigger] r[t].id != id by {
        let q = pos[t];
        assert(r[t] == c[q]);
        assert(idx.entries()[q].0 == r[t].id);
    }
}

impl<V> Default for BruteForceIndex<V> {
    fn default() -> (idx: Self)
        ensures
            idx.wf(),
            idx.entries() == Seq::<(u64, V)>::empty(),
            idx.next_id() == 0,
            idx.history() == Seq::<IndexOp<V>>::empty(),
    {
        BruteForceIndex::new()
    }
}

/// After `swap_remove` at position `p` in an entry sequence without repeated
/// ids, the ids stay unique, the removed id is gone and every other id keeps its
/// vector.
proof fn lemma_swap_remove_lookup<V>(s: Seq<(u64, V)>, p: int)
    requires
        ids_unique(s),
        0 <= p < s.len(),
    ensures
        ids_unique(s.update(p, s.last()).drop_last()),
        forall|i: int|
            0 <= i < s.len() - 1 ==> #[trigger] s.update(p, s.last()).drop_last()[i].0 == s[if i
                == p { s.len() - 1 } else { i }].0,
        !has_id(s.update(p, s.last()).drop_last(), s[p].0),
        forall|other: u64|
            other != s[p].0 ==> #[trigger] lookup(s.update(p, s.last()).drop_last(), other) == lookup(
                s,
                other,
            ),
{
    let n = s.len();
    let s2 = s.update(p, s.last()).drop_last();
    // where each surviving entry came from
    assert forall|i: int| 0 <= i < n - 1 implies #[trigger] s2[i] == s[if i == p { n - 1 } else { i }] by {
    }
    assert(ids_unique(s2)) by {
        assert forall|i: int, j: int| 0 <= i < j < s2.len() implies #[trigger] s2[i].0
            != #[trigger] s2[j].0 by {
            let oi = if i == p { n - 1 } else { i };
            let oj = if j == p { n - 1 } else { j };
            assert(s2[i] == s[oi] && s2[j] == s[oj]);
            if oi < oj {
                assert(s[oi].0 != s[oj].0);
            } else {
                assert(s[oj].0 != s[oi].0);
            }
        }
    }
    assert(!has_id(s2, s[p].0)) by {
        if has_id(s2, s[p].0) {
            let i = choose|i: int| 0 <= i < s2.len() && s2[i].0 == s[p].0;
            let oi = if i == p { n - 1 } else { i };
            assert(s2[i] == s[oi]);
            assert(oi != p);
            if oi < p {
                assert(s[oi].0 != s[p].0);
            } else {
                assert(s[p].0 != s[oi].0);
            }
        }
    }
    assert forall|other: u64| other != s[p].0 implies #[trigger] lookup(s2, other) == lookup(s, other) by {
        if has_id(s, other) {
            let q = position_of(s, other);
            lemma_position_unique(s, other, q);
            assert(q != p);
            let q2 = if q == n - 1 { p } else { q };
            assert(s2[q2] == s[q]);
            lemma_position_unique(s2, other, q2);
        } else if has_id(s2, other) {
            let i = choose|i: int| 0 <= i < s2.len() && s2[i].0 == other;
            let oi = if i == p { n - 1 } else { i };
            assert(s2[i] == s[oi]);
        }
    }
}

} // verus!
