//! Exact k-nearest selection over scored candidates.
//!
//! A candidate carries the id of a stored vector and its distance to the query,
//! the distance given by its order key (see [`crate::metric::distance_key`]), so
//! that "closer" is plain integer `<`.
use vstd::prelude::*;

verus! {

/// A search result: the id of a stored vector and the order key of its distance
/// to the query.
#[derive(Clone, Copy, Debug, PartialEq, Eq, Structural)]
pub struct Neighbor {
    pub id: u64,
    pub distance: u32,
}

/// Candidate `i` comes before candidate `j`: it is strictly closer, or equally
/// close and scanned earlier.
pub open spec fn precedes(c: Seq<Neighbor>, i: int, j: int) -> bool {
    ||| c[i].distance < c[j].distance
    ||| (c[i].distance == c[j].distance && i < j)
}

/// Position `j` is one of the chosen positions.
pub open spec fn chosen(pos: Seq<int>, j: int) -> bool {
    exists|t: int| 0 <= t < pos.len() && pos[t] == j
}

/// `r` holds, nearest first, the `min(k, n)` candidates among `c[0..n)` that
/// come first in the search order, `pos` giving the position of each.
pub open spec fn selects(c: Seq<Neighbor>, n: int, k: int, r: Seq<Neighbor>, pos: Seq<int>) -> bool {
    &&& pos.len() == r.len()
    &&& r.len() == (if k < n { k } else { n })
    &&& forall|t: int| 0 <= t < pos.len() ==> 0 <= #[trigger] pos[t] < n && r[t] == c[pos[t]]
    &&& forall|t: int, u: int|
        0 <= t < u < pos.len() ==> precedes(c, #[trigger] pos[t], #[trigger] pos[u])
    &&& forall|j: int|
        0 <= j < n && !#[trigger] chosen(pos, j) ==> forall|t: int|
            0 <= t < pos.len() ==> precedes(c, #[trigger] pos[t], j)
}

/// `r` is the exact `k`-nearest answer over the candidates `c`: the first
/// `min(k, |c|)` candidates in the search order (closest first, ties in scan
/// order), listed in that order.
pub open spec fn is_nearest(c: Seq<Neighbor>, k: int, r: Seq<Neighbor>) -> bool {
    exists|pos: Seq<int>| selects(c, c.len() as int, k, r, pos)
}

/// The distances of `s` never decrease.
pub open spec fn sorted_by_distance(s: Seq<Neighbor>) -> bool {
    forall|t: int, u: int| 0 <= t < u < s.len() ==> s[t].distance <= s[u].distance
}

pub(crate) proof fn lemma_selects_sorted(c: Seq<Neighbor>, n: int, k: int, r: Seq<Neighbor>, pos: Seq<int>)
    requires
        selects(c, n, k, r, pos),
    ensures
        sorted_by_distance(r),
{
    assert forall|t: int, u: int| 0 <= t < u < r.len() implies r[t].distance <= r[u].distance by {
        assert(precedes(c, pos[t], pos[u]));
    }
}

/// Inserting candidate `i` into a run of earlier candidates kept in search
/// order, after those no farther than it and before those farther, keeps the
/// run in search order.
proof fn lemma_insert_in_order(c: Seq<Neighbor>, i: int, r: Seq<Neighbor>, pos: Seq<int>, p: int)
    requires
        0 <= i < c.len(),
        pos.len() == r.len(),
        forall|t: int| 0 <= t < pos.len() ==> 0 <= #[trigger] pos[t] < i && r[t] == c[pos[t]],
        forall|t: int, u: int| 0 <= t < u < pos.len() ==> precedes(c, #[trigger] pos[t], #[trigger] pos[u]),
        0 <= p <= r.len(),
        forall|t: int| 0 <= t < p ==> r[t].distance <= c[i].distance,
        forall|t: int| p <= t < r.len() ==> r[t].distance > c[i].distance,
    ensures
        forall|t: int| 0 <= t < pos.len() + 1 ==> 0 <= #[trigger] pos.insert(p, i)[t] < i + 1
            && r.insert(p, c[i])[t] == c[pos.insert(p, i)[t]],
        forall|t: int, u: int| 0 <= t < u < pos.len() + 1 ==> precedes(
            c,
            #[trigger] pos.insert(p, i)[t],
            #[trigger] pos.insert(p, i)[u],
        ),
{
    let r2 = r.insert(p, c[i]);
    let pos2 = pos.insert(p, i);
    r.insert_ensures(p, c[i]);
    pos.insert_ensures(p, i);
    assert forall|t: int| 0 <= t < pos2.len() implies 0 <= #[trigger] pos2[t] < i + 1 && r2[t]
        == c[pos2[t]] by {
        if t > p {
            assert(pos2[t] == pos[t - 1]);
        }
    }
    assert forall|t: int, u: int| 0 <= t < u < pos2.len() implies precedes(
        c,
        #[trigger] pos2[t],
        #[trigger] pos2[u],
    ) by {
        if u < p {
            assert(precedes(c, pos[t], pos[u]));
        } else if u == p {
            assert(pos[t] < i);
        } else if t < p {
            assert(precedes(c, pos[t], pos[u - 1]));
        } else if t == p {
            assert(pos2[u] == pos[u - 1]);
            assert(r[u - 1] == c[pos[u - 1]]);
        } else {
            assert(precedes(c, pos[t - 1], pos[u - 1]));
        }
    }
}

/// Inserting candidate `i` at its place keeps the selection exact while the
/// buffer still has room.
proof fn lemma_insert_keeps_selection(
    c: Seq<Neighbor>,
    i: int,
    k: int,
    r: Seq<Neighbor>,
    pos: Seq<int>,
    p: int,
)
    requires
        0 <= i < c.len(),
        selects(c, i, k, r, pos),
        r.len() < k,
        forall|j: int| 0 <= j < i ==> #[trigger] chosen(pos, j),
        0 <= p <= r.len(),
        forall|t: int| 0 <= t < p ==> r[t].distance <= c[i].distance,
        forall|t: int| p <= t < r.len() ==> r[t].distance > c[i].distance,
    ensures
        selects(c, i + 1, k, r.insert(p, c[i]), pos.insert(p, i)),
{
    let pos2 = pos.insert(p, i);
    pos.insert_ensures(p, i);
    lemma_insert_in_order(c, i, r, pos, p);
    assert forall|j: int| 0 <= j < i + 1 && !#[trigger] chosen(pos2, j) implies forall|t: int|
        0 <= t < pos2.len() ==> precedes(c, #[trigger] pos2[t], j) by {
        if j == i {
            assert(pos2[p] == j);
        } else {
            assert(chosen(pos, j));
            let t = choose|t: int| 0 <= t < pos.len() && pos[t] == j;
            if t < p {
                assert(pos2[t] == j);
            } else {
                assert(pos2[t + 1] == j);
            }
        }
    }
}

/// When the buffer is full and candidate `i` beats its worst entry, evicting
/// that entry and inserting `i` at its place keeps the selection exact.
proof fn lemma_insert_after_evict(
    c: Seq<Neighbor>,
    i: int,
    k: int,
    r: Seq<Neighbor>,
    pos: Seq<int>,
    p: int,
)
    requires
        0 <= i < c.len(),
        selects(c, i, k, r, pos),
        k > 0,
        r.len() == k,
        c[i].distance < r[k - 1].distance,
        0 <= p <= r.len() - 1,
        forall|t: int| 0 <= t < p ==> r[t].distance <= c[i].distance,
        forall|t: int| p <= t < r.len() - 1 ==> r[t].distance > c[i].distance,
    ensures
        selects(c, i + 1, k, r.drop_last().insert(p, c[i]), pos.drop_last().insert(p, i)),
{
    let rd = r.drop_last();
    let pd = pos.drop_last();
    let pos2 = pd.insert(p, i);
    let last = pos[k - 1];
    pd.insert_ensures(p, i);
    lemma_selects_sorted(c, i, k, r, pos);
    assert(r[k - 1] == c[last]);
    assert forall|t: int, u: int| 0 <= t < u < pd.len() implies precedes(c, #[trigger] pd[t], #[trigger] pd[u]) by {
        assert(precedes(c, pos[t], pos[u]));
    }
    lemma_insert_in_order(c, i, rd, pd, p);
    assert forall|j: int| 0 <= j < i + 1 && !#[trigger] chosen(pos2, j) implies forall|t: int|
        0 <= t < pos2.len() ==> precedes(c, #[trigger] pos2[t], j) by {
        assert(j != i) by {
            if j == i {
                assert(pos2[p] == j);
            }
        }
        if j == last {
            assert forall|t: int| 0 <= t < pos2.len() implies precedes(c, #[trigger] pos2[t], j) by {
                if t < p {
                    assert(precedes(c, pos[t], pos[k - 1]));
                } else if t == p {
                } else {
                    assert(pos2[t] == pos[t - 1]);
                    assert(precedes(c, pos[t - 1], pos[k - 1]));
                }
            }
        } else {
            assert(!chosen(pos, j)) by {
                if chosen(pos, j) {
                    let t = choose|t: int| 0 <= t < pos.len() && pos[t] == j;
                    assert(t != k - 1);
                    if t < p {
                        assert(pos2[t] == j);
                    } else {
                        assert(pos2[t + 1] == j);
                    }
                }
            }
            assert(precedes(c, pos[k - 1], j));
            assert forall|t: int| 0 <= t < pos2.len() implies precedes(c, #[trigger] pos2[t], j) by {
                if t < p {
                    assert(precedes(c, pos[t], j));
                } else if t == p {
                } else {
                    assert(pos2[t] == pos[t - 1]);
                    assert(precedes(c, pos[t - 1], j));
                }
            }
        }
    }
}

/// A candidate that neither fits nor beats the worst kept entry leaves the
/// selection exact.
proof fn lemma_skip_candidate(c: Seq<Neighbor>, i: int, k: int, r: Seq<Neighbor>, pos: Seq<int>)
    requires
        0 <= i < c.len(),
        selects(c, i, k, r, pos),
        r.len() >= k,
        k > 0 ==> c[i].distance >= r[k - 1].distance,
    ensures
        selects(c, i + 1, k, r, pos),
{
    lemma_selects_sorted(c, i, k, r, pos);
    assert forall|j: int| 0 <= j < i + 1 && !#[trigger] chosen(pos, j) implies forall|t: int|
        0 <= t < pos.len() ==> precedes(c, #[trigger] pos[t], j) by {
        if j == i {
            assert forall|t: int| 0 <= t < pos.len() implies precedes(c, #[trigger] pos[t], j) by {
                assert(r[t].distance <= r[k - 1].distance);
            }
        }
    }
}

/// The first position of the sorted `s` whose distance exceeds `d`.
fn insertion_point(s: &Vec<Neighbor>, d: u32) -> (p: usize)
    requires
        sorted_by_distance(s@),
    ensures
        p <= s@.len(),
        forall|t: int| 0 <= t < p ==> s@[t].distance <= d,
        forall|t: int| p <= t < s@.len() ==> s@[t].distance > d,
{
    let mut p = s.len();
    while p > 0 && s[p - 1].distance > d
        invariant
            p <= s@.len(),
            sorted_by_distance(s@),
            forall|t: int| p <= t < s@.len() ==> s@[t].distance > d,
        decreases p,
    {
        p = p - 1;
    }
    p
}

/// Offer candidate `i` (which is `x`) to the buffer holding the exact
/// selection among the candidates before it; afterwards the buffer holds the
/// exact selection among the candidates up to and including `i`.
fn offer(
    out: &mut Vec<Neighbor>,
    Ghost(c): Ghost<Seq<Neighbor>>,
    Ghost(pos): Ghost<Seq<int>>,
    Ghost(i): Ghost<int>,
    x: Neighbor,
    k: usize,
) -> (new_pos: Ghost<Seq<int>>)
    requires
        0 <= i < c.len(),
        c[i] == x,
        selects(c, i, k as int, old(out)@, pos),
        old(out)@.len() < k ==> forall|j: int| 0 <= j < i ==> #[trigger] chosen(pos, j),
    ensures
        selects(c, i + 1, k as int, final(out)@, new_pos@),
        final(out)@.len() < k ==> forall|j: int| 0 <= j < i + 1 ==> #[trigger] chosen(new_pos@, j),
{
    let ghost mut pos = pos;
    proof {
        lemma_selects_sorted(c, i as int, k as int, out@, pos);
    }
    if out.len() < k {
        let p = insertion_point(&out, x.distance);
        let ghost old_out = out@;
        let ghost old_pos = pos;
        out.insert(p, x);
        proof {
            old_out.insert_ensures(p as int, x);
            old_pos.insert_ensures(p as int, i as int);
            pos = old_pos.insert(p as int, i as int);
            lemma_insert_keeps_selection(c, i as int, k as int, old_out, old_pos, p as int);
            assert forall|j: int| 0 <= j < i + 1 implies #[trigger] chosen(pos, j) by {
                if j == i {
                    assert(pos[p as int] == j);
                } else {
                    assert(chosen(old_pos, j));
                    let t = choose|t: int| 0 <= t < old_pos.len() && old_pos[t] == j;
                    if t < p {
                        assert(pos[t] == j);
                    } else {
                        assert(pos[t + 1] == j);
                    }
                }
            }
        }
    } else if k > 0 && x.distance < out[k - 1].distance {
        let ghost old_out = out@;
        let ghost old_pos = pos;
        out.pop();
        proof {
            pos = old_pos.drop_last();
            lemma_selects_sorted(c, i as int, k as int, old_out, old_pos);
        }
        let p = insertion_point(&out, x.distance);
        let ghost mid_out = out@;
        let ghost mid_pos = pos;
        out.insert(p, x);
        proof {
            assert(mid_out == old_out.drop_last());
            assert forall|t: int| 0 <= t < p implies old_out[t].distance <= x.distance by {
                assert(mid_out[t] == old_out[t]);
            }
            assert forall|t: int| p <= t < old_out.len() - 1 implies old_out[t].distance
                > x.distance by {
                assert(mid_out[t] == old_out[t]);
            }
            mid_out.insert_ensures(p as int, x);
            mid_pos.insert_ensures(p as int, i as int);
            pos = mid_pos.insert(p as int, i as int);
            lemma_insert_after_evict(c, i as int, k as int, old_out, old_pos, p as int);
        }
    } else {
        proof {
            lemma_skip_candidate(c, i as int, k as int, out@, pos);
        }
    }
    Ghost(pos)
}

/// Selections over a prefix of the candidates do not depend on what follows.
proof fn lemma_selects_extend(c: Seq<Neighbor>, x: Neighbor, k: int, r: Seq<Neighbor>, pos: Seq<int>)
    requires
        selects(c, c.len() as int, k, r, pos),
    ensures
        selects(c.push(x), c.len() as int, k, r, pos),
{
    let c2 = c.push(x);
    let n = c.len() as int;
    assert forall|t: int| 0 <= t < pos.len() implies 0 <= #[trigger] pos[t] < n && r[t] == c2[pos[t]] by {
        assert(c2[pos[t]] == c[pos[t]]);
    }
    assert forall|t: int, u: int| 0 <= t < u < pos.len() implies precedes(c2, #[trigger] pos[t], #[trigger] pos[u]) by {
        assert(precedes(c, pos[t], pos[u]));
        assert(c2[pos[t]] == c[pos[t]] && c2[pos[u]] == c[pos[u]]);
    }
    assert forall|j: int| 0 <= j < n && !#[trigger] chosen(pos, j) implies forall|t: int|
        0 <= t < pos.len() ==> precedes(c2, #[trigger] pos[t], j) by {
        assert forall|t: int| 0 <= t < pos.len() implies precedes(c2, #[trigger] pos[t], j) by {
            assert(precedes(c, pos[t], j));
            assert(c2[pos[t]] == c[pos[t]] && c2[j] == c[j]);
        }
    }
}

/// A streaming exact top-`k`: candidates are offered one at a time, and the
/// buffer keeps, in O(k) memory, the `k` nearest among all offered so far,
/// nearest first (ties to the earlier offer).
pub struct NearestBuffer {
    k: usize,
    kept: Vec<Neighbor>,
    offered: Ghost<Seq<Neighbor>>,
    pos: Ghost<Seq<int>>,
}

impl NearestBuffer {
    /// The candidates offered so far, in offer order.
    pub closed spec fn offered(&self) -> Seq<Neighbor> {
        self.offered@
    }

    /// How many nearest candidates the buffer keeps.
    pub closed spec fn capacity(&self) -> nat {
        self.k as nat
    }

    /// The candidates kept so far, nearest first.
    pub closed spec fn kept(&self) -> Seq<Neighbor> {
        self.kept@
    }

    /// The kept candidates are the exact selection among those offered.
    pub closed spec fn wf(&self) -> bool {
        &&& selects(self.offered@, self.offered@.len() as int, self.k as int, self.kept@, self.pos@)
        &&& self.kept@.len() < self.k ==> forall|j: int|
            0 <= j < self.offered@.len() ==> #[trigger] chosen(self.pos@, j)
    }

    /// An empty buffer keeping the `k` nearest.
    pub fn new(k: usize) -> (b: Self)
        ensures
            b.wf(),
            b.offered() == Seq::<Neighbor>::empty(),
            b.capacity() == k,
            b.kept() == Seq::<Neighbor>::empty(),
    {
        NearestBuffer { k, kept: Vec::new(), offered: Ghost(Seq::empty()), pos: Ghost(Seq::empty()) }
    }

    /// Offer one more candidate.
    pub fn offer(&mut self, x: Neighbor)
        requires
            old(self).wf(),
        ensures
            final(self).wf(),
            final(self).offered() == old(self).offered().push(x),
            final(self).capacity() == old(self).capacity(),
            is_nearest(final(self).offered(), final(self).capacity() as int, final(self).kept()),
            sorted_by_distance(final(self).kept()),
    {
        let ghost c = self.offered@.push(x);
        let ghost i = self.offered@.len() as int;
        proof {
            lemma_selects_extend(self.offered@, x, self.k as int, self.kept@, self.pos@);
            assert(c.take(i) =~= self.offered@);
        }
        let next = offer(&mut self.kept, Ghost(c), Ghost(self.pos@), Ghost(i), x, self.k);
        proof {
            self.pos = next;
            self.offered = Ghost(c);
            lemma_selects_sorted(c, i + 1, self.k as int, self.kept@, self.pos@);
        }
    }

    /// The `k` nearest of all candidates offered, nearest first.
    pub fn into_sorted(self) -> (out: Vec<Neighbor>)
        requires
            self.wf(),
        ensures
            is_nearest(self.offered(), self.capacity() as int, out@),
            sorted_by_distance(out@),
            out@ == self.kept(),
    {
        proof {
            lemma_selects_sorted(self.offered@, self.offered@.len() as int, self.k as int, self.kept@, self.pos@);
        }
        self.kept
    }
}

/// Exact kNN over scored candidates: the `k` candidates with the smallest
/// distance keys, nearest first; among equal keys the earlier candidate wins
/// and comes first.
pub fn nearest_k(candidates: &Vec<Neighbor>, k: usize) -> (out: Vec<Neighbor>)
    ensures
        is_nearest(candidates@, k as int, out@),
        sorted_by_distance(out@),
{
    let mut buf = NearestBuffer::new(k);
    let n = candidates.len();
    let mut i: usize = 0;
    while i < n
        invariant
            n == candidates@.len(),
            i <= n,
            buf.wf(),
            buf.capacity() == k,
            buf.offered() == candidates@.take(i as int),
        decreases n - i,
    {
        buf.offer(candidates[i]);
        i = i + 1;
        assert(buf.offered() =~= candidates@.take(i as int));
    }
    assert(candidates@.take(n as int) =~= candidates@);
    buf.into_sorted()
}

/// The positions behind two exact selections over the same candidates agree on
/// their common prefix.
proof fn lemma_positions_agree(
    c: Seq<Neighbor>,
    k1: int,
    k2: int,
    r1: Seq<Neighbor>,
    r2: Seq<Neighbor>,
    p1: Seq<int>,
    p2: Seq<int>,
    t: int,
)
    requires
        selects(c, c.len() as int, k1, r1, p1),
        selects(c, c.len() as int, k2, r2, p2),
        p1.len() <= p2.len(),
        0 <= t < p1.len(),
    ensures
        forall|s: int| 0 <= s <= t ==> p1[s] == p2[s],
    decreases t,
{
    if t > 0 {
        lemma_positions_agree(c, k1, k2, r1, r2, p1, p2, t - 1);
    }
    let x = p1[t];
    let y = p2[t];
    if x != y {
        assert(precedes(c, y, x)) by {
            if chosen(p2, x) {
                let u = choose|u: int| 0 <= u < p2.len() && p2[u] == x;
                if u < t {
                    assert(p1[u] == p2[u]);
                    assert(precedes(c, p1[u], p1[t]));
                } else {
                    assert(u != t);
                    assert(precedes(c, p2[t], p2[u]));
                }
            } else {
                assert(0 <= x < c.len());
            }
        }
        assert(precedes(c, x, y)) by {
            if chosen(p1, y) {
                let v = choose|v: int| 0 <= v < p1.len() && p1[v] == y;
                if v < t {
                    assert(p1[v] == p2[v]);
                    assert(precedes(c, p2[v], p2[t]));
                } else {
                    assert(v != t);
                    assert(precedes(c, p1[t], p1[v]));
                }
            } else {
                assert(0 <= y < c.len());
            }
        }
    }
}

/// Asking for fewer neighbors gives a prefix of the answer for more: the exact
/// answer for `k1 <= k2` is the first entries of the exact answer for `k2`.
pub proof fn lemma_nearest_prefix(c: Seq<Neighbor>, k1: int, k2: int, r1: Seq<Neighbor>, r2: Seq<Neighbor>)
    requires
        0 <= k1 <= k2,
        is_nearest(c, k1, r1),
        is_nearest(c, k2, r2),
    ensures
        r1.len() <= r2.len(),
        r1 == r2.take(r1.len() as int),
{
    let p1 = choose|p: Seq<int>| selects(c, c.len() as int, k1, r1, p);
    let p2 = choose|p: Seq<int>| selects(c, c.len() as int, k2, r2, p);
    if p1.len() > 0 {
        lemma_positions_agree(c, k1, k2, r1, r2, p1, p2, p1.len() - 1);
    }
    assert forall|t: int| 0 <= t < r1.len() implies r1[t] == r2.take(r1.len() as int)[t] by {
        assert(p1[t] == p2[t]);
    }
    assert(r1 =~= r2.take(r1.len() as int));
}

/// The answer is exact (recall 1.0): a candidate whose id is not among the
/// results is at least as far as every result.
pub proof fn lemma_nearest_recall(c: Seq<Neighbor>, k: int, r: Seq<Neighbor>, j: int)
    requires
        is_nearest(c, k, r),
        0 <= j < c.len(),
        forall|t: int| 0 <= t < r.len() ==> #[trigger] r[t].id != c[j].id,
    ensures
        forall|t: int| 0 <= t < r.len() ==> #[trigger] r[t].distance <= c[j].distance,
{
    let pos = choose|p: Seq<int>| selects(c, c.len() as int, k, r, p);
    assert(!chosen(pos, j)) by {
        if chosen(pos, j) {
            let t = choose|t: int| 0 <= t < pos.len() && pos[t] == j;
            assert(r[t] == c[pos[t]]);
            assert(r[t].id != c[j].id);
        }
    }
    assert forall|t: int| 0 <= t < r.len() implies #[trigger] r[t].distance <= c[j].distance by {
        assert(precedes(c, pos[t], j));
    }
}

/// The exact answer is unique: two results that both meet the specification
/// for the same candidates and `k` are equal.
pub proof fn lemma_nearest_unique(c: Seq<Neighbor>, k: int, r1: Seq<Neighbor>, r2: Seq<Neighbor>)
    requires
        0 <= k,
        is_nearest(c, k, r1),
        is_nearest(c, k, r2),
    ensures
        r1 == r2,
{
    lemma_nearest_prefix(c, k, k, r1, r2);
    assert(r1 =~= r2);
}

} // verus!
