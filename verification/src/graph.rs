//! The k-NN graph drawn over the stored vectors: its undirected edge set and
//! its connected components.
//!
//! Nodes are `0..n`; an edge joins two of them. Components are numbered in the
//! order in which their first node appears.
use vstd::prelude::*;
use std::collections::HashMap;

verus! {

/// One of the first `m` edges joins `x` and `y` (in either direction).
pub open spec fn adjacent(edges: Seq<(usize, usize)>, m: int, x: int, y: int) -> bool {
    exists|t: int|
        0 <= t < m && ((edges[t].0 == x && edges[t].1 == y) || (edges[t].0 == y && edges[t].1 == x))
}

/// `w` is a walk from `a` to `b` along the first `m` edges.
pub open spec fn is_walk(edges: Seq<(usize, usize)>, m: int, w: Seq<int>, a: int, b: int) -> bool {
    &&& w.len() >= 1
    &&& w[0] == a
    &&& w.last() == b
    &&& forall|s: int| 0 <= s < w.len() - 1 ==> adjacent(edges, m, #[trigger] w[s], w[s + 1])
}

/// Some walk along the first `m` edges leads from `a` to `b`.
pub open spec fn connected(edges: Seq<(usize, usize)>, m: int, a: int, b: int) -> bool {
    exists|w: Seq<int>| is_walk(edges, m, w, a, b)
}

proof fn lemma_connected_refl(edges: Seq<(usize, usize)>, m: int, a: int)
    ensures
        connected(edges, m, a, a),
{
    assert(is_walk(edges, m, seq![a], a, a));
}

proof fn lemma_connected_more_edges(edges: Seq<(usize, usize)>, m: int, m2: int, a: int, b: int)
    requires
        m <= m2,
        connected(edges, m, a, b),
    ensures
        connected(edges, m2, a, b),
{
    let w = choose|w: Seq<int>| is_walk(edges, m, w, a, b);
    assert forall|s: int| 0 <= s < w.len() - 1 implies adjacent(edges, m2, #[trigger] w[s], w[s + 1]) by {
        assert(adjacent(edges, m, w[s], w[s + 1]));
    }
    assert(is_walk(edges, m2, w, a, b));
}

proof fn lemma_connected_trans(edges: Seq<(usize, usize)>, m: int, a: int, b: int, c: int)
    requires
        connected(edges, m, a, b),
        connected(edges, m, b, c),
    ensures
        connected(edges, m, a, c),
{
    let w1 = choose|w: Seq<int>| is_walk(edges, m, w, a, b);
    let w2 = choose|w: Seq<int>| is_walk(edges, m, w, b, c);
    let w = w1 + w2.drop_first();
    assert forall|s: int| 0 <= s < w.len() - 1 implies adjacent(edges, m, #[trigger] w[s], w[s + 1]) by {
        if s < w1.len() - 1 {
            assert(adjacent(edges, m, w1[s], w1[s + 1]));
        } else if s == w1.len() - 1 {
            assert(w[s] == b);
            assert(w2[0] == b);
            assert(adjacent(edges, m, w2[0], w2[1]));
        } else {
            let s2 = s - w1.len() + 1;
            assert(w[s] == w2[s2]);
            assert(w[s + 1] == w2[s2 + 1]);
            assert(adjacent(edges, m, w2[s2], w2[s2 + 1]));
        }
    }
    if w2.len() == 1 {
        assert(w.last() == w1.last());
    } else {
        assert(w.last() == w2.last());
    }
    assert(is_walk(edges, m, w, a, c));
}

proof fn lemma_connected_symm(edges: Seq<(usize, usize)>, m: int, a: int, b: int)
    requires
        connected(edges, m, a, b),
    ensures
        connected(edges, m, b, a),
{
    let w = choose|w: Seq<int>| is_walk(edges, m, w, a, b);
    let r = w.reverse();
    assert forall|s: int| 0 <= s < r.len() - 1 implies adjacent(edges, m, #[trigger] r[s], r[s + 1]) by {
        let s2 = w.len() - 2 - s;
        assert(r[s] == w[s2 + 1]);
        assert(r[s + 1] == w[s2]);
        assert(adjacent(edges, m, w[s2], w[s2 + 1]));
    }
    assert(is_walk(edges, m, r, b, a));
}

proof fn lemma_connected_step(edges: Seq<(usize, usize)>, m: int, a: int, b: int)
    requires
        adjacent(edges, m, a, b),
    ensures
        connected(edges, m, a, b),
{
    let w = seq![a, b];
    assert(w[0] == a && w[1] == b);
    assert(is_walk(edges, m, w, a, b));
}

// ---------------------------------------------------------------------------
// The undirected k-NN edge set.

/// The last position of `id` in `ids`, or -1 when it does not occur.
pub open spec fn last_index(ids: Seq<u64>, id: u64) -> int
    decreases ids.len(),
{
    if ids.len() == 0 {
        -1
    } else if ids.last() == id {
        ids.len() - 1
    } else {
        last_index(ids.drop_last(), id)
    }
}

/// The pair `{i, j}` written with its smaller node first.
pub open spec fn ordered_pair(i: int, j: int) -> (usize, usize) {
    if i <= j {
        (i as usize, j as usize)
    } else {
        (j as usize, i as usize)
    }
}

/// The `t`-th search result of node `i` gives edge `e`: it names a stored
/// node other than `i` itself, and `e` joins the nodes of the two ids.
pub open spec fn edge_at(ids: Seq<u64>, results: Seq<Vec<u64>>, i: int, t: int, e: (usize, usize)) -> bool {
    &&& results[i]@[t] != ids[i]
    &&& last_index(ids, results[i]@[t]) >= 0
    &&& e == ordered_pair(last_index(ids, ids[i]), last_index(ids, results[i]@[t]))
}

/// `e` is an edge of the k-NN graph: some node's search returned the other end.
pub open spec fn is_knn_edge(ids: Seq<u64>, results: Seq<Vec<u64>>, e: (usize, usize)) -> bool {
    exists|i: int, t: int|
        0 <= i < ids.len() && 0 <= t < results[i]@.len() && #[trigger] edge_at(ids, results, i, t, e)
}

/// Pairs in lexicographic order.
pub open spec fn pair_lt(a: (usize, usize), b: (usize, usize)) -> bool {
    a.0 < b.0 || (a.0 == b.0 && a.1 < b.1)
}

/// Strictly increasing pairs: sorted, with no pair twice.
pub open spec fn strictly_sorted(s: Seq<(usize, usize)>) -> bool {
    forall|t: int, u: int| 0 <= t < u < s.len() ==> pair_lt(#[trigger] s[t], #[trigger] s[u])
}

/// `m` maps each id occurring in `ids` to its last position, and nothing else.
spec fn maps_last_positions(m: Map<u64, usize>, ids: Seq<u64>) -> bool {
    &&& forall|id: u64| #[trigger] m.contains_key(id) <==> last_index(ids, id) >= 0
    &&& forall|id: u64| m.contains_key(id) ==> #[trigger] m[id] == last_index(ids, id)
}

/// The map from each id of `ids` to the last position that holds it.
fn last_positions(ids: &Vec<u64>) -> (m: HashMap<u64, usize>)
    ensures
        maps_last_positions(m@, ids@),
{
    broadcast use vstd::std_specs::hash::group_hash_axioms;
    let mut m: HashMap<u64, usize> = HashMap::new();
    let n = ids.len();
    let mut i: usize = 0;
    while i < n
        invariant
            n == ids@.len(),
            i <= n,
            maps_last_positions(m@, ids@.take(i as int)),
        decreases n - i,
    {
        let ghost before = m@;
        m.insert(ids[i], i);
        proof {
            let t = ids@.take(i + 1);
            assert(t.drop_last() =~= ids@.take(i as int));
            assert(t.last() == ids@[i as int]);
            assert forall|id: u64| #[trigger] m@.contains_key(id) <==> last_index(t, id) >= 0 by {
                if id != ids@[i as int] {
                    assert(m@.contains_key(id) == before.contains_key(id));
                }
            }
            assert forall|id: u64| m@.contains_key(id) implies #[trigger] m@[id] == last_index(t, id) by {
                if id != ids@[i as int] {
                    assert(before.contains_key(id));
                }
            }
        }
        i = i + 1;
    }
    assert(ids@.take(n as int) =~= ids@);
    m
}

/// The last position of `id` in `ids`, looked up in the map of last positions.
fn find_last(positions: &HashMap<u64, usize>, Ghost(ids): Ghost<Seq<u64>>, id: u64) -> (r: Option<usize>)
    requires
        maps_last_positions(positions@, ids),
    ensures
        match r {
            Some(j) => j == last_index(ids, id) && j < ids.len(),
            None => last_index(ids, id) == -1,
        },
        last_index(ids, id) < ids.len(),
{
    broadcast use vstd::std_specs::hash::group_hash_axioms;
    proof {
        lemma_last_index_bounds(ids, id);
    }
    match positions.get(&id) {
        Some(j) => Some(*j),
        None => None,
    }
}

/// Add `e` to the strictly sorted `out`, keeping it strictly sorted.
fn insert_pair(out: &mut Vec<(usize, usize)>, e: (usize, usize))
    requires
        strictly_sorted(old(out)@),
    ensures
        strictly_sorted(final(out)@),
        forall|x: (usize, usize)| #[trigger] final(out)@.contains(x) <==> (old(out)@.contains(x) || x == e),
{
    let mut p: usize = 0;
    while p < out.len() && (out[p].0 < e.0 || (out[p].0 == e.0 && out[p].1 < e.1))
        invariant
            p <= out@.len(),
            forall|t: int| 0 <= t < p ==> pair_lt(#[trigger] out@[t], e),
        decreases out@.len() - p,
    {
        p = p + 1;
    }
    if p < out.len() && out[p].0 == e.0 && out[p].1 == e.1 {
        assert(out@[p as int] == e);
        return;
    }
    let ghost old_s = out@;
    out.insert(p, e);
    proof {
        old_s.insert_ensures(p as int, e);
        let s = out@;
        assert forall|t: int, u: int| 0 <= t < u < s.len() implies pair_lt(#[trigger] s[t], #[trigger] s[u]) by {
            if u < p {
            } else if u == p {
            } else if t < p {
                assert(pair_lt(old_s[t], old_s[u - 1]));
            } else if t == p {
                assert(!pair_lt(old_s[p as int], e));
                assert(old_s[p as int] != e);
                if u - 1 > p {
                    assert(pair_lt(old_s[p as int], old_s[u - 1]));
                }
            } else {
                assert(pair_lt(old_s[t - 1], old_s[u - 1]));
            }
        }
        assert forall|x: (usize, usize)| #[trigger] s.contains(x) <==> (old_s.contains(x) || x == e) by {
            if s.contains(x) {
                let t = choose|t: int| 0 <= t < s.len() && s[t] == x;
                if t < p {
                    assert(old_s[t] == x);
                } else if t > p {
                    assert(old_s[t - 1] == x);
                }
            }
            if old_s.contains(x) {
                let t = choose|t: int| 0 <= t < old_s.len() && old_s[t] == x;
                if t < p {
                    assert(s[t] == x);
                } else {
                    assert(s[t + 1] == x);
                }
            }
            if x == e {
                assert(s[p as int] == x);
            }
        }
    }
}

/// The undirected edges of the k-NN graph, each once, smaller node first, in
/// increasing order.
///
/// `ids[i]` is the id of node `i` and `results[i]` the ids returned by the
/// neighbor search from node `i`. A result naming the node itself, or an id
/// that no node carries, gives no edge; an id carried by several nodes stands
/// for the last of them.
pub fn knn_edges(ids: &Vec<u64>, results: &Vec<Vec<u64>>) -> (out: Vec<(usize, usize)>)
    requires
        results@.len() == ids@.len(),
    ensures
        strictly_sorted(out@),
        forall|e: (usize, usize)| #[trigger] out@.contains(e) <==> is_knn_edge(ids@, results@, e),
{
    let positions = last_positions(ids);
    let mut out: Vec<(usize, usize)> = Vec::new();
    let n = ids.len();
    let mut i: usize = 0;
    while i < n
        invariant
            n == ids@.len(),
            results@.len() == n,
            maps_last_positions(positions@, ids@),
            i <= n,
            strictly_sorted(out@),
            forall|e: (usize, usize)|
                #[trigger] out@.contains(e) <==> exists|i2: int, t2: int|
                    0 <= i2 < i && 0 <= t2 < results@[i2]@.len() && #[trigger] edge_at(
                        ids@,
                        results@,
                        i2,
                        t2,
                        e,
                    ),
        decreases n - i,
    {
        let me = find_last(&positions, Ghost(ids@), ids[i]);
        let me = match me {
            Some(j) => j,
            None => {
                proof {
                    lemma_last_index_found(ids@, i as int);
                }
                i
            },
        };
        let row = &results[i];
        let mut t: usize = 0;
        while t < row.len()
            invariant
                n == ids@.len(),
                results@.len() == n,
                i < n,
                row@ == results@[i as int]@,
                maps_last_positions(positions@, ids@),
                me == last_index(ids@, ids@[i as int]),
                me < n,
                t <= row@.len(),
                strictly_sorted(out@),
                forall|e: (usize, usize)|
                    #[trigger] out@.contains(e) <==> (exists|i2: int, t2: int|
                        0 <= i2 < i && 0 <= t2 < results@[i2]@.len() && #[trigger] edge_at(
                            ids@,
                            results@,
                            i2,
                            t2,
                            e,
                        )) || (exists|t2: int| 0 <= t2 < t && #[trigger] edge_at(ids@, results@, i as int, t2, e)),
            decreases row@.len() - t,
        {
            let nb = row[t];
            let ghost before = out@;
            if nb != ids[i] {
                match find_last(&positions, Ghost(ids@), nb) {
                    Some(j) => {
                        let e = if me <= j { (me, j) } else { (j, me) };
                        insert_pair(&mut out, e);
                        proof {
                            assert(edge_at(ids@, results@, i as int, t as int, e));
                            assert forall|x: (usize, usize)| #[trigger] out@.contains(x) <==> (exists|i2: int, t2: int|
                                0 <= i2 < i && 0 <= t2 < results@[i2]@.len() && #[trigger] edge_at(
                                    ids@,
                                    results@,
                                    i2,
                                    t2,
                                    x,
                                )) || (exists|t2: int| 0 <= t2 < t + 1 && #[trigger] edge_at(ids@, results@, i as int, t2, x)) by {
                                if exists|t2: int| 0 <= t2 < t + 1 && #[trigger] edge_at(ids@, results@, i as int, t2, x) {
                                    let t2 = choose|t2: int| 0 <= t2 < t + 1 && #[trigger] edge_at(ids@, results@, i as int, t2, x);
                                    if t2 < t {
                                        assert(before.contains(x));
                                    } else {
                                        assert(x == e);
                                    }
                                }
                                if before.contains(x) && !(exists|i2: int, t2: int|
                                    0 <= i2 < i && 0 <= t2 < results@[i2]@.len() && #[trigger] edge_at(
                                        ids@,
                                        results@,
                                        i2,
                                        t2,
                                        x,
                                    )) {
                                    let t2 = choose|t2: int| 0 <= t2 < t && #[trigger] edge_at(ids@, results@, i as int, t2, x);
                                    assert(0 <= t2 < t + 1);
                                }
                            }
                        }
                    },
                    None => {
                        proof {
                            lemma_no_new_edge(ids@, results@, i as int, t as int, before);
                        }
                    },
                }
            } else {
                proof {
                    lemma_no_new_edge(ids@, results@, i as int, t as int, before);
                }
            }
            t = t + 1;
        }
        i = i + 1;
        proof {
            assert forall|x: (usize, usize)| #[trigger] out@.contains(x) <==> exists|i2: int, t2: int|
                0 <= i2 < i && 0 <= t2 < results@[i2]@.len() && #[trigger] edge_at(ids@, results@, i2, t2, x) by {
                if exists|i2: int, t2: int|
                    0 <= i2 < i && 0 <= t2 < results@[i2]@.len() && #[trigger] edge_at(ids@, results@, i2, t2, x) {
                    let (i2, t2) = choose|i2: int, t2: int|
                        0 <= i2 < i && 0 <= t2 < results@[i2]@.len() && #[trigger] edge_at(ids@, results@, i2, t2, x);
                    if i2 == i - 1 {
                        assert(0 <= t2 < row@.len());
                    } else {
                        assert(0 <= i2 < i - 1);
                    }
                }
                if out@.contains(x) {
                    if !(exists|i2: int, t2: int|
                        0 <= i2 < i - 1 && 0 <= t2 < results@[i2]@.len() && #[trigger] edge_at(ids@, results@, i2, t2, x)) {
                        let t2 = choose|t2: int| 0 <= t2 < row@.len() && #[trigger] edge_at(ids@, results@, (i - 1) as int, t2, x);
                        assert(0 <= i - 1 < i);
                    } else {
                        let (i2, t2) = choose|i2: int, t2: int|
                            0 <= i2 < i - 1 && 0 <= t2 < results@[i2]@.len() && #[trigger] edge_at(ids@, results@, i2, t2, x);
                        assert(0 <= i2 < i);
                    }
                }
            }
        }
    }
    proof {
        assert forall|e: (usize, usize)| #[trigger] out@.contains(e) <==> is_knn_edge(ids@, results@, e) by {
            if is_knn_edge(ids@, results@, e) {
                let (i2, t2) = choose|i2: int, t2: int|
                    0 <= i2 < ids@.len() && 0 <= t2 < results@[i2]@.len() && #[trigger] edge_at(ids@, results@, i2, t2, e);
                assert(0 <= i2 < i);
            }
        }
    }
    out
}

/// The last position is -1 or a position holding the id, with no later one.
proof fn lemma_last_index_bounds(ids: Seq<u64>, id: u64)
    ensures
        -1 <= last_index(ids, id) < ids.len(),
        last_index(ids, id) >= 0 ==> ids[last_index(ids, id)] == id,
        forall|q: int| last_index(ids, id) < q < ids.len() ==> ids[q] != id,
    decreases ids.len(),
{
    if ids.len() > 0 && ids.last() != id {
        lemma_last_index_bounds(ids.drop_last(), id);
        assert forall|q: int| last_index(ids, id) < q < ids.len() implies ids[q] != id by {
            if q < ids.len() - 1 {
                assert(ids.drop_last()[q] == ids[q]);
            }
        }
    }
}

/// A node's own id occurs in the ids, so it has a last position.
proof fn lemma_last_index_found(ids: Seq<u64>, i: int)
    requires
        0 <= i < ids.len(),
    ensures
        i <= last_index(ids, ids[i]) < ids.len(),
    decreases ids.len(),
{
    if ids.last() != ids[i] {
        assert(i < ids.len() - 1);
        assert(ids.drop_last()[i] == ids[i]);
        lemma_last_index_found(ids.drop_last(), i);
    }
}

/// A search result that names the node itself, or no node, adds no edge.
proof fn lemma_no_new_edge(ids: Seq<u64>, results: Seq<Vec<u64>>, i: int, t: int, out: Seq<(usize, usize)>)
    requires
        0 <= i < ids.len(),
        results.len() == ids.len(),
        0 <= t < results[i]@.len(),
        results[i]@[t] == ids[i] || last_index(ids, results[i]@[t]) < 0,
        forall|e: (usize, usize)|
            #[trigger] out.contains(e) <==> (exists|i2: int, t2: int|
                0 <= i2 < i && 0 <= t2 < results[i2]@.len() && #[trigger] edge_at(ids, results, i2, t2, e))
                || (exists|t2: int| 0 <= t2 < t && #[trigger] edge_at(ids, results, i, t2, e)),
    ensures
        forall|e: (usize, usize)|
            #[trigger] out.contains(e) <==> (exists|i2: int, t2: int|
                0 <= i2 < i && 0 <= t2 < results[i2]@.len() && #[trigger] edge_at(ids, results, i2, t2, e))
                || (exists|t2: int| 0 <= t2 < t + 1 && #[trigger] edge_at(ids, results, i, t2, e)),
{
    assert forall|e: (usize, usize)| #[trigger] out.contains(e) <==> (exists|i2: int, t2: int|
        0 <= i2 < i && 0 <= t2 < results[i2]@.len() && #[trigger] edge_at(ids, results, i2, t2, e))
        || (exists|t2: int| 0 <= t2 < t + 1 && #[trigger] edge_at(ids, results, i, t2, e)) by {
        if exists|t2: int| 0 <= t2 < t + 1 && #[trigger] edge_at(ids, results, i, t2, e) {
            let t2 = choose|t2: int| 0 <= t2 < t + 1 && #[trigger] edge_at(ids, results, i, t2, e);
            assert(t2 != t);
        }
    }
}

// ---------------------------------------------------------------------------
// Union-find over 0..n where every parent link points to a smaller node.

/// Parent links stay inside `0..n` and never point to a larger node.
pub open spec fn forest(parent: Seq<usize>, n: int) -> bool {
    &&& parent.len() == n
    &&& forall|x: int| 0 <= x < n ==> #[trigger] parent[x] <= x
}

/// The root reached from `x` by following parent links.
pub open spec fn root(parent: Seq<usize>, x: int) -> int
    decreases x,
{
    if 0 <= x < parent.len() && parent[x] < x {
        root(parent, parent[x] as int)
    } else {
        x
    }
}

proof fn lemma_root_props(parent: Seq<usize>, n: int, x: int)
    requires
        forest(parent, n),
        0 <= x < n,
    ensures
        0 <= root(parent, x) <= x,
        parent[root(parent, x)] == root(parent, x),
    decreases x,
{
    if parent[x] < x {
        lemma_root_props(parent, n, parent[x] as int);
    }
}

/// Pointing `x` straight at its root changes no node's root.
proof fn lemma_compress(parent: Seq<usize>, n: int, x: int, y: int)
    requires
        forest(parent, n),
        0 <= x < n,
        0 <= y < n,
    ensures
        forest(parent.update(x, root(parent, x) as usize), n),
        root(parent.update(x, root(parent, x) as usize), y) == root(parent, y),
    decreases y,
{
    let r = root(parent, x);
    lemma_root_props(parent, n, x);
    let p2 = parent.update(x, r as usize);
    assert(forest(p2, n));
    if y == x {
        if r < x {
            lemma_compress(parent, n, x, r);
            lemma_root_props(parent, n, r);
        }
    } else if parent[y] < y {
        lemma_compress(parent, n, x, parent[y] as int);
    }
}

/// Linking root `hi` under the smaller root `lo` moves exactly the nodes of
/// `hi`'s tree to `lo`'s root.
proof fn lemma_link(parent: Seq<usize>, n: int, hi: int, lo: int, y: int)
    requires
        forest(parent, n),
        0 <= lo < hi < n,
        parent[hi] == hi,
        parent[lo] == lo,
        0 <= y < n,
    ensures
        forest(parent.update(hi, lo as usize), n),
        root(parent.update(hi, lo as usize), y) == if root(parent, y) == hi {
            lo
        } else {
            root(parent, y)
        },
    decreases y,
{
    let p2 = parent.update(hi, lo as usize);
    assert(forest(p2, n));
    if y == hi {
        assert(root(p2, lo) == lo);
    } else if parent[y] < y {
        lemma_link(parent, n, hi, lo, parent[y] as int);
    }
}

/// The root of `x`, pointing `x` and the nodes on its path straight at it.
fn find(parent: &mut Vec<usize>, x: usize) -> (r: usize)
    requires
        forest(old(parent)@, old(parent)@.len() as int),
        x < old(parent)@.len(),
    ensures
        final(parent)@.len() == old(parent)@.len(),
        forest(final(parent)@, final(parent)@.len() as int),
        r == root(old(parent)@, x as int),
        forall|y: int|
            0 <= y < final(parent)@.len() ==> #[trigger] root(final(parent)@, y) == root(
                old(parent)@,
                y,
            ),
    decreases x,
{
    let ghost n = parent@.len() as int;
    if parent[x] != x {
        let px = parent[x];
        let r = find(parent, px);
        let ghost mid = parent@;
        proof {
            assert(root(old(parent)@, x as int) == root(old(parent)@, px as int));
            lemma_root_props(mid, n, px as int);
            assert(root(mid, x as int) == r) by {
                assert(root(mid, x as int) == root(old(parent)@, x as int));
            }
        }
        parent.set(x, r);
        proof {
            assert forall|y: int| 0 <= y < n implies #[trigger] root(parent@, y) == root(old(parent)@, y) by {
                lemma_compress(mid, n, x as int, y);
            }
            lemma_compress(mid, n, x as int, 0);
        }
        r
    } else {
        x
    }
}

/// Every one of the first `m` edges joins two nodes of the same tree.
pub open spec fn edges_merged(parent: Seq<usize>, edges: Seq<(usize, usize)>, m: int) -> bool {
    forall|t: int|
        0 <= t < m ==> root(parent, #[trigger] edges[t].0 as int) == root(parent, edges[t].1 as int)
}

/// Nodes of one tree are connected along the first `m` edges.
pub open spec fn trees_connected(parent: Seq<usize>, edges: Seq<(usize, usize)>, m: int, n: int) -> bool {
    forall|a: int, b: int|
        0 <= a < n && 0 <= b < n && #[trigger] root(parent, a) == #[trigger] root(parent, b)
            ==> connected(edges, m, a, b)
}

/// Walking along merged edges never leaves a tree.
proof fn lemma_walk_same_root(
    parent: Seq<usize>,
    edges: Seq<(usize, usize)>,
    m: int,
    w: Seq<int>,
    a: int,
    b: int,
)
    requires
        edges_merged(parent, edges, m),
        is_walk(edges, m, w, a, b),
    ensures
        root(parent, a) == root(parent, b),
    decreases w.len(),
{
    if w.len() > 1 {
        let w2 = w.drop_last();
        let c = w2.last();
        assert forall|s: int| 0 <= s < w2.len() - 1 implies adjacent(edges, m, #[trigger] w2[s], w2[s + 1]) by {
            assert(adjacent(edges, m, w[s], w[s + 1]));
        }
        lemma_walk_same_root(parent, edges, m, w2, a, c);
        assert(adjacent(edges, m, w[w.len() - 2], w[w.len() - 1]));
        let t = choose|t: int|
            0 <= t < m && ((edges[t].0 == c && edges[t].1 == b) || (edges[t].0 == b && edges[t].1 == c));
        assert(root(parent, edges[t].0 as int) == root(parent, edges[t].1 as int));
    }
}

/// Merging the trees of the ends of edge `m` keeps both invariants for `m + 1`
/// edges.
proof fn lemma_union_step(
    parent: Seq<usize>,
    p2: Seq<usize>,
    edges: Seq<(usize, usize)>,
    m: int,
    n: int,
)
    requires
        0 <= m < edges.len(),
        forall|t: int| 0 <= t < edges.len() ==> (#[trigger] edges[t]).0 < n && edges[t].1 < n,
        forest(parent, n),
        forest(p2, n),
        edges_merged(parent, edges, m),
        trees_connected(parent, edges, m, n),
        root(parent, edges[m].0 as int) == root(parent, edges[m].1 as int) ==> p2 == parent,
        root(parent, edges[m].0 as int) != root(parent, edges[m].1 as int) ==> forall|y: int|
            0 <= y < n ==> #[trigger] root(p2, y) == if root(parent, y) == root(
                parent,
                edges[m].0 as int,
            ) || root(parent, y) == root(parent, edges[m].1 as int) {
                if root(parent, edges[m].0 as int) < root(parent, edges[m].1 as int) {
                    root(parent, edges[m].0 as int)
                } else {
                    root(parent, edges[m].1 as int)
                }
            } else {
                root(parent, y)
            },
    ensures
        edges_merged(p2, edges, m + 1),
        trees_connected(p2, edges, m + 1, n),
{
    let u = edges[m].0 as int;
    let v = edges[m].1 as int;
    let ru = root(parent, u);
    let rv = root(parent, v);
    assert forall|t: int| 0 <= t < m + 1 implies root(p2, #[trigger] edges[t].0 as int) == root(
        p2,
        edges[t].1 as int,
    ) by {
        let e0 = edges[t].0 as int;
        let e1 = edges[t].1 as int;
        assert(e0 < n && e1 < n);
        if t < m {
            assert(root(parent, e0) == root(parent, e1));
        }
        if ru != rv {
            assert(root(p2, e0) == if root(parent, e0) == ru || root(parent, e0) == rv {
                if ru < rv { ru } else { rv }
            } else {
                root(parent, e0)
            });
            assert(root(p2, e1) == if root(parent, e1) == ru || root(parent, e1) == rv {
                if ru < rv { ru } else { rv }
            } else {
                root(parent, e1)
            });
        }
    }
    assert(adjacent(edges, m + 1, u, v));
    lemma_connected_step(edges, m + 1, u, v);
    lemma_connected_symm(edges, m + 1, u, v);
    assert forall|a: int, b: int|
        0 <= a < n && 0 <= b < n && #[trigger] root(p2, a) == #[trigger] root(p2, b) implies connected(
        edges,
        m + 1,
        a,
        b,
    ) by {
        if root(parent, a) == root(parent, b) {
            lemma_connected_more_edges(edges, m, m + 1, a, b);
        } else {
            // a and b were in the two trees that edge m joined
            let (x, y) = if root(parent, a) == ru { (u, v) } else { (v, u) };
            assert(root(parent, a) == root(parent, x));
            assert(root(parent, b) == root(parent, y));
            lemma_connected_more_edges(edges, m, m + 1, a, x);
            lemma_connected_more_edges(edges, m, m + 1, y, b);
            lemma_connected_trans(edges, m + 1, a, x, y);
            lemma_connected_trans(edges, m + 1, a, y, b);
        }
    }
}

/// Every edge joins two of the nodes `0..n`.
pub open spec fn edges_within(edges: Seq<(usize, usize)>, n: int) -> bool {
    forall|t: int| 0 <= t < edges.len() ==> (#[trigger] edges[t]).0 < n && edges[t].1 < n
}

/// Some node carries label `c`.
pub open spec fn has_label(labels: Seq<usize>, c: int) -> bool {
    exists|a: int| 0 <= a < labels.len() && labels[a] == c
}

/// `labels` numbers the connected components of the graph on `0..n`: two
/// nodes share a label exactly when a walk joins them, the labels are exactly
/// `0..count`, and they are handed out in order of each component's first
/// node (a label above 0 first appears after the label just below it).
pub open spec fn is_component_labeling(
    edges: Seq<(usize, usize)>,
    n: int,
    labels: Seq<usize>,
    count: int,
) -> bool {
    &&& labels.len() == n
    &&& forall|a: int| 0 <= a < n ==> #[trigger] labels[a] < count
    &&& forall|c: int| 0 <= c < count ==> #[trigger] has_label(labels, c)
    &&& forall|a: int, b: int|
        0 <= a < n && 0 <= b < n ==> (#[trigger] labels[a] == #[trigger] labels[b] <==> connected(
            edges,
            edges.len() as int,
            a,
            b,
        ))
    &&& 0 <= count
    &&& first_seen_order(labels)
}

/// Every label above 0 first appears after the label just below it.
pub open spec fn first_seen_order(labels: Seq<usize>) -> bool {
    forall|b: int|
        0 <= b < labels.len() && #[trigger] labels[b] > 0 ==> exists|a: int|
            0 <= a < b && #[trigger] labels[a] + 1 == labels[b]
}

/// Below any label in a labeling, every smaller label appears earlier.
proof fn lemma_labels_downward(l: Seq<usize>, a: int, v: int)
    requires
        first_seen_order(l),
        0 <= a < l.len(),
        0 <= v < l[a],
    ensures
        exists|a2: int| 0 <= a2 < a && #[trigger] l[a2] == v,
    decreases l[a] - v,
{
    let a1 = choose|a1: int| 0 <= a1 < a && #[trigger] l[a1] + 1 == l[a];
    if v < l[a1] {
        lemma_labels_downward(l, a1, v);
        let a2 = choose|a2: int| 0 <= a2 < a1 && #[trigger] l[a2] == v;
        assert(0 <= a2 < a);
    } else {
        assert(l[a1] == v);
    }
}

/// The numbering of components is determined by the graph: two labelings of
/// the same graph are equal and count the same components.
pub proof fn lemma_component_labeling_unique(
    edges: Seq<(usize, usize)>,
    n: int,
    l1: Seq<usize>,
    c1: int,
    l2: Seq<usize>,
    c2: int,
)
    requires
        is_component_labeling(edges, n, l1, c1),
        is_component_labeling(edges, n, l2, c2),
    ensures
        l1 == l2,
        c1 == c2,
{
    assert forall|x: int, y: int| 0 <= x < l1.len() && 0 <= y < l1.len() implies (#[trigger] l1[x]
        == #[trigger] l1[y]) == (l2[x] == l2[y]) by {
        assert((l1[x] == l1[y]) == connected(edges, edges.len() as int, x, y));
        assert((l2[x] == l2[y]) == connected(edges, edges.len() as int, x, y));
    }
    assert forall|b: int| 0 <= b < n implies l1[b] == l2[b] by {
        lemma_labels_agree_upto(l1, l2, b);
    }
    assert(l1 =~= l2);
    if c1 < c2 {
        assert(has_label(l2, c1));
        let a = choose|a: int| 0 <= a < l2.len() && l2[a] == c1;
        assert(l1[a] < c1);
    }
    if c2 < c1 {
        assert(has_label(l1, c2));
        let a = choose|a: int| 0 <= a < l1.len() && l1[a] == c2;
        assert(l2[a] < c2);
    }
}

proof fn lemma_labels_agree_upto(l1: Seq<usize>, l2: Seq<usize>, b: int)
    requires
        first_seen_order(l1),
        first_seen_order(l2),
        l1.len() == l2.len(),
        forall|x: int, y: int|
            0 <= x < l1.len() && 0 <= y < l1.len() ==> (#[trigger] l1[x] == #[trigger] l1[y]) == (l2[x]
                == l2[y]),
        0 <= b < l1.len(),
    ensures
        forall|a: int| 0 <= a <= b ==> l1[a] == l2[a],
    decreases b,
{
    if b > 0 {
        lemma_labels_agree_upto(l1, l2, b - 1);
    }
    if exists|a: int| 0 <= a < b && l1[a] == l1[b] {
        let a = choose|a: int| 0 <= a < b && l1[a] == l1[b];
        assert(l2[a] == l2[b]);
    } else {
        // b is the first node of its component: its label is new in both.
        assert forall|a: int| 0 <= a < b implies l1[a] != l1[b] && l2[a] != l2[b] by {
            assert((l1[a] == l1[b]) == (l2[a] == l2[b]));
        }
        lemma_new_label_agrees(l1, l2, b);
    }
}

/// Two first-seen numberings that agree before `b` and both give `b` a label
/// not seen before give it the same label.
proof fn lemma_new_label_agrees(l1: Seq<usize>, l2: Seq<usize>, b: int)
    requires
        first_seen_order(l1),
        first_seen_order(l2),
        l1.len() == l2.len(),
        0 <= b < l1.len(),
        forall|a: int| 0 <= a < b ==> l1[a] == l2[a],
        forall|a: int| 0 <= a < b ==> l1[a] != l1[b] && l2[a] != l2[b],
    ensures
        l1[b] == l2[b],
{
    let x = l1[b] as int;
    let y = l2[b] as int;
    if x < y {
        let a = choose|a: int| 0 <= a < b && #[trigger] l2[a] + 1 == l2[b];
        if l2[a] == x {
            assert(l1[a] == x);
        } else {
            lemma_labels_downward(l2, a, x);
            let a2 = choose|a2: int| 0 <= a2 < a && #[trigger] l2[a2] == x;
            assert(l1[a2] == x);
        }
    }
    if y < x {
        let a = choose|a: int| 0 <= a < b && #[trigger] l1[a] + 1 == l1[b];
        if l1[a] == y {
            assert(l2[a] == y);
        } else {
            lemma_labels_downward(l1, a, y);
            let a2 = choose|a2: int| 0 <= a2 < a && #[trigger] l1[a2] == y;
            assert(l2[a2] == y);
        }
    }
}

/// Label the connected components of the graph on nodes `0..n`, numbering
/// them in order of their first node; returns the label of each node and the
/// number of components.
pub fn assign_components(n: usize, edges: &Vec<(usize, usize)>) -> (res: (Vec<usize>, usize))
    requires
        edges_within(edges@, n as int),
    ensures
        is_component_labeling(edges@, n as int, res.0@, res.1 as int),
{
    let ghost e = edges@;
    let mut parent: Vec<usize> = Vec::new();
    let mut i: usize = 0;
    while i < n
        invariant
            i <= n,
            parent@.len() == i,
            forall|x: int| 0 <= x < i ==> #[trigger] parent@[x] == x,
        decreases n - i,
    {
        parent.push(i);
        i = i + 1;
    }
    proof {
        assert forall|a: int, b: int|
            0 <= a < n && 0 <= b < n && #[trigger] root(parent@, a) == #[trigger] root(parent@, b)
                implies connected(e, 0, a, b) by {
            lemma_connected_refl(e, 0, a);
        }
    }
    let mut m: usize = 0;
    while m < edges.len()
        invariant
            e == edges@,
            edges_within(e, n as int),
            m <= e.len(),
            forest(parent@, n as int),
            edges_merged(parent@, e, m as int),
            trees_connected(parent@, e, m as int, n as int),
        decreases e.len() - m,
    {
        let (a, b) = edges[m];
        let ghost p0 = parent@;
        let ra = find(&mut parent, a);
        let rb = find(&mut parent, b);
        let ghost p1 = parent@;
        proof {
            assert(forall|y: int| 0 <= y < n ==> #[trigger] root(p1, y) == root(p0, y));
            assert(edges_merged(p1, e, m as int)) by {
                assert forall|t: int| 0 <= t < m implies root(p1, #[trigger] e[t].0 as int) == root(
                    p1,
                    e[t].1 as int,
                ) by {
                    assert(root(p0, e[t].0 as int) == root(p0, e[t].1 as int));
                }
            }
            assert(trees_connected(p1, e, m as int, n as int)) by {
                assert forall|x: int, y: int|
                    0 <= x < n && 0 <= y < n && #[trigger] root(p1, x) == #[trigger] root(p1, y)
                        implies connected(e, m as int, x, y) by {
                    assert(root(p0, x) == root(p0, y));
                }
            }
            lemma_root_props(p1, n as int, a as int);
            lemma_root_props(p1, n as int, b as int);
        }
        if ra != rb {
            let (hi, lo) = if ra < rb { (rb, ra) } else { (ra, rb) };
            parent.set(hi, lo);
            proof {
                assert forall|y: int| 0 <= y < n implies #[trigger] root(parent@, y) == if root(p1, y)
                    == root(p1, a as int) || root(p1, y) == root(p1, b as int) {
                    if root(p1, a as int) < root(p1, b as int) {
                        root(p1, a as int)
                    } else {
                        root(p1, b as int)
                    }
                } else {
                    root(p1, y)
                } by {
                    lemma_link(p1, n as int, hi as int, lo as int, y);
                }
                lemma_link(p1, n as int, hi as int, lo as int, 0);
            }
        }
        proof {
            lemma_union_step(p1, parent@, e, m as int, n as int);
        }
        m = m + 1;
    }

    let ghost p0 = parent@;
    let mut color_of: Vec<Option<usize>> = Vec::new();
    let mut j: usize = 0;
    while j < n
        invariant
            j <= n,
            color_of@.len() == j,
            forall|x: int| 0 <= x < j ==> #[trigger] color_of@[x] is None,
        decreases n - j,
    {
        color_of.push(None);
        j = j + 1;
    }
    let mut labels: Vec<usize> = Vec::new();
    let mut count: usize = 0;
    let mut i: usize = 0;
    while i < n
        invariant
            i <= n,
            parent@.len() == n,
            forest(parent@, n as int),
            forall|y: int| 0 <= y < n ==> #[trigger] root(parent@, y) == root(p0, y),
            forest(p0, n as int),
            color_of@.len() == n,
            labels@.len() == i,
            count <= i,
            forall|x: int|
                0 <= x < n ==> (#[trigger] color_of@[x] is Some <==> exists|a: int|
                    0 <= a < i && #[trigger] root(p0, a) == x),
            forall|x: int| 0 <= x < n && #[trigger] color_of@[x] is Some ==> color_of@[x]->0 < count,
            forall|x: int, y: int|
                0 <= x < n && 0 <= y < n && #[trigger] color_of@[x] is Some && color_of@[x]
                    == #[trigger] color_of@[y] ==> x == y,
            forall|a: int| 0 <= a < i ==> color_of@[root(p0, a)] == Some(#[trigger] labels@[a]),
            forall|c: int| 0 <= c < count ==> #[trigger] has_label(labels@, c),
            forall|b: int|
                0 <= b < i && #[trigger] labels@[b] > 0 ==> exists|a: int|
                    0 <= a < b && #[trigger] labels@[a] + 1 == labels@[b],
        decreases n - i,
    {
        let r = find(&mut parent, i);
        proof {
            lemma_root_props(p0, n as int, i as int);
        }
        let ghost old_color = color_of@;
        let ghost old_labels = labels@;
        match color_of[r] {
            Some(c) => {
                labels.push(c);
                proof {
                    let a0 = choose|a: int| 0 <= a < i && #[trigger] root(p0, a) == r;
                    assert(old_labels[a0] == c);
                    assert forall|b: int|
                        0 <= b < i + 1 && #[trigger] labels@[b] > 0 implies exists|a: int|
                        0 <= a < b && #[trigger] labels@[a] + 1 == labels@[b] by {
                        if b == i {
                            assert(old_labels[a0] > 0);
                            let a1 = choose|a: int| 0 <= a < a0 && #[trigger] old_labels[a] + 1 == old_labels[a0];
                            assert(labels@[a1] + 1 == labels@[b]);
                        } else {
                            assert(old_labels[b] > 0);
                            let a1 = choose|a: int| 0 <= a < b && #[trigger] old_labels[a] + 1 == old_labels[b];
                            assert(labels@[a1] + 1 == labels@[b]);
                        }
                    }
                    assert forall|c2: int| 0 <= c2 < count implies #[trigger] has_label(labels@, c2) by {
                        assert(has_label(old_labels, c2));
                        let a1 = choose|a: int| 0 <= a < old_labels.len() && old_labels[a] == c2;
                        assert(labels@[a1] == c2);
                    }
                    assert forall|x: int|
                        0 <= x < n implies (#[trigger] color_of@[x] is Some <==> exists|a: int|
                        0 <= a < i + 1 && #[trigger] root(p0, a) == x) by {
                        if color_of@[x] is Some {
                            let a1 = choose|a: int| 0 <= a < i && #[trigger] root(p0, a) == x;
                        }
                    }
                }
            },
            None => {
                color_of.set(r, Some(count));
                labels.push(count);
                proof {
                    assert forall|x: int|
                        0 <= x < n implies (#[trigger] color_of@[x] is Some <==> exists|a: int|
                        0 <= a < i + 1 && #[trigger] root(p0, a) == x) by {
                        if x == r {
                            assert(root(p0, i as int) == x);
                        } else if old_color[x] is Some {
                            let a1 = choose|a: int| 0 <= a < i && #[trigger] root(p0, a) == x;
                        } else {
                            if exists|a: int| 0 <= a < i + 1 && #[trigger] root(p0, a) == x {
                                let a1 = choose|a: int| 0 <= a < i + 1 && #[trigger] root(p0, a) == x;
                                assert(a1 != i);
                            }
                        }
                    }
                    assert forall|a: int| 0 <= a < i + 1 implies color_of@[root(p0, a)] == Some(
                        #[trigger] labels@[a],
                    ) by {
                        if a < i {
                            assert(old_color[root(p0, a)] == Some(old_labels[a]));
                            lemma_root_props(p0, n as int, a);
                            if root(p0, a) == r {
                                assert(old_color[r as int] is Some);
                            }
                        }
                    }
                    assert forall|b: int|
                        0 <= b < i + 1 && #[trigger] labels@[b] > 0 implies exists|a: int|
                        0 <= a < b && #[trigger] labels@[a] + 1 == labels@[b] by {
                        if b == i {
                            assert(has_label(old_labels, count - 1));
                            let a1 = choose|a: int| 0 <= a < old_labels.len() && old_labels[a] == count - 1;
                            assert(labels@[a1] + 1 == labels@[b]);
                        } else {
                            assert(old_labels[b] > 0);
                            let a1 = choose|a: int| 0 <= a < b && #[trigger] old_labels[a] + 1 == old_labels[b];
                            assert(labels@[a1] + 1 == labels@[b]);
                        }
                    }
                    assert forall|c2: int| 0 <= c2 < count + 1 implies #[trigger] has_label(labels@, c2) by {
                        if c2 == count {
                            assert(labels@[i as int] == c2);
                        } else {
                            assert(has_label(old_labels, c2));
                            let a1 = choose|a: int| 0 <= a < old_labels.len() && old_labels[a] == c2;
                            assert(labels@[a1] == c2);
                        }
                    }
                }
                count = count + 1;
            },
        }
        i = i + 1;
    }
    proof {
        assert forall|a: int, b: int|
            0 <= a < n && 0 <= b < n implies (#[trigger] labels@[a] == #[trigger] labels@[b]
            <==> connected(e, e.len() as int, a, b)) by {
            lemma_root_props(p0, n as int, a);
            lemma_root_props(p0, n as int, b);
            assert(color_of@[root(p0, a)] == Some(labels@[a]));
            assert(color_of@[root(p0, b)] == Some(labels@[b]));
            if connected(e, e.len() as int, a, b) {
                let w = choose|w: Seq<int>| is_walk(e, e.len() as int, w, a, b);
                lemma_walk_same_root(p0, e, e.len() as int, w, a, b);
            }
        }
        assert forall|a: int| 0 <= a < n implies #[trigger] labels@[a] < count by {
            lemma_root_props(p0, n as int, a);
            assert(color_of@[root(p0, a)] == Some(labels@[a]));
        }
    }
    (labels, count)
}

} // verus!
