//! NSW (Navigable Small World) — a single-layer proximity graph index.
//!
//! At this stage every inserted node is linked to every node already present,
//! so the graph is complete: each node's neighbor list holds every other node,
//! in index order, and edges go both ways.
use vstd::prelude::*;

verus! {

struct Node<V> {
    id: u64,
    vector: V,
    neighbors: Vec<usize>,
}

/// Every index of `0..n` except `i`, in increasing order.
pub open spec fn all_but(i: int, n: int) -> Seq<usize> {
    Seq::new((n - 1) as nat, |t: int| (if t < i { t } else { t + 1 }) as usize)
}

pub struct NswIndex<V> {
    nodes: Vec<Node<V>>,
    entry: Option<usize>,
    next_id: u64,
    m: usize,
    ef_construction: usize,
}

impl<V> NswIndex<V> {
    /// The id of each node, by node index.
    pub closed spec fn ids(&self) -> Seq<u64> {
        self.nodes@.map_values(|n: Node<V>| n.id)
    }

    /// The vector of each node, by node index.
    pub closed spec fn vectors(&self) -> Seq<V> {
        self.nodes@.map_values(|n: Node<V>| n.vector)
    }

    /// The neighbor list of each node, by node index.
    pub closed spec fn neighbor_lists(&self) -> Seq<Seq<usize>> {
        self.nodes@.map_values(|n: Node<V>| n.neighbors@)
    }

    /// The node index where a search starts, once there is a node.
    pub closed spec fn entry_point(&self) -> Option<usize> {
        self.entry
    }

    /// The id the next insert assigns.
    pub closed spec fn next_id(&self) -> u64 {
        self.next_id
    }

    /// The maximum number of links per node the index was configured with.
    pub closed spec fn max_links(&self) -> usize {
        self.m
    }

    /// The candidate-list size for construction the index was configured with.
    pub closed spec fn construction_width(&self) -> usize {
        self.ef_construction
    }

    /// Node `i` has id `i`, the next id is the node count, the first node is
    /// the entry point, and every node is linked to all others.
    pub open spec fn wf(&self) -> bool {
        let n = self.ids().len();
        &&& n <= usize::MAX
        &&& self.vectors().len() == n
        &&& self.neighbor_lists().len() == n
        &&& self.next_id() == n
        &&& forall|i: int| 0 <= i < n ==> #[trigger] self.ids()[i] == i
        &&& forall|i: int| 0 <= i < n ==> #[trigger] self.neighbor_lists()[i] == all_but(i, n as int)
        &&& self.entry_point() == if n > 0 { Some(0usize) } else { None }
    }

    pub fn new(m: usize, ef_construction: usize) -> (idx: Self)
        ensures
            idx.wf(),
            idx.ids().len() == 0,
            idx.entry_point() is None,
            idx.next_id() == 0,
            idx.max_links() == m,
            idx.construction_width() == ef_construction,
    {
        NswIndex { nodes: Vec::new(), entry: None, next_id: 0, m, ef_construction }
    }

    /// The number of nodes.
    pub fn len(&self) -> (n: usize)
        ensures
            n == self.ids().len(),
    {
        self.nodes.len()
    }

    /// Whether there is no node.
    pub fn is_empty(&self) -> (b: bool)
        ensures
            b == (self.ids().len() == 0),
    {
        self.nodes.len() == 0
    }

    /// The vector stored under `id`, if any.
    pub fn get(&self, id: u64) -> (v: Option<&V>)
        requires
            self.wf(),
        ensures
            v is Some == (id < self.ids().len()),
            v matches Some(r) ==> *r == self.vectors()[id as int],
    {
        let mut i: usize = 0;
        while i < self.nodes.len()
            invariant
                self.wf(),
                i <= self.nodes@.len(),
                forall|j: int| 0 <= j < i ==> self.ids()[j] != id,
            decreases self.nodes@.len() - i,
        {
            if self.nodes[i].id == id {
                assert(self.ids()[i as int] == i);
                return Some(&self.nodes[i].vector);
            }
            i = i + 1;
        }
        proof {
            if id < self.ids().len() {
                assert(self.ids()[id as int] == id);
            }
        }
        None
    }

    /// The neighbor list of the node at `index`.
    pub fn neighbors(&self, index: usize) -> (nb: &Vec<usize>)
        requires
            index < self.ids().len(),
        ensures
            nb@ == self.neighbor_lists()[index as int],
    {
        &self.nodes[index].neighbors
    }

    /// Insert a vector, linking it to every node already present, and return
    /// its assigned id.
    pub fn insert(&mut self, vector: V) -> (id: u64)
        requires
            old(self).wf(),
            old(self).ids().len() < usize::MAX,
            old(self).next_id() < u64::MAX,
        ensures
            final(self).wf(),
            id == old(self).next_id(),
            id == old(self).ids().len(),
            final(self).ids() == old(self).ids().push(id),
            final(self).vectors() == old(self).vectors().push(vector),
            final(self).vectors()[id as int] == vector,
            final(self).max_links() == old(self).max_links(),
            final(self).construction_width() == old(self).construction_width(),
    {
        let id = self.next_id;
        self.next_id = self.next_id + 1;

        let index = self.nodes.len();
        let ghost n = index as int;
        let mut neighbors: Vec<usize> = Vec::new();
        let mut t: usize = 0;
        while t < index
            invariant
                t <= index,
                index == n,
                n < usize::MAX,
                neighbors@ == all_but(n, n + 1).take(t as int),
            decreases index - t,
        {
            assert(all_but(n, n + 1)[t as int] == t);
            neighbors.push(t);
            t = t + 1;
            assert(neighbors@ =~= all_but(n, n + 1).take(t as int));
        }
        assert(neighbors@ =~= all_but(n, n + 1));

        let ghost before = self.nodes@;
        let mut j: usize = 0;
        while j < index
            invariant
                index == n,
                n < usize::MAX,
                old(self).wf(),
                before == old(self).nodes@,
                before.len() == n,
                self.nodes@.len() == n,
                self.next_id == id + 1,
                self.entry == old(self).entry,
                self.m == old(self).m,
                self.ef_construction == old(self).ef_construction,
                j <= index,
                forall|i: int| 0 <= i < n ==> (#[trigger] self.nodes@[i]).id == before[i].id
                    && self.nodes@[i].vector == before[i].vector,
                forall|i: int| 0 <= i < j ==> (#[trigger] self.nodes@[i]).neighbors@ == all_but(i, n + 1),
                forall|i: int| j <= i < n ==> (#[trigger] self.nodes@[i]).neighbors@ == before[i].neighbors@,
            decreases index - j,
        {
            let ghost old_list = self.nodes@[j as int].neighbors@;
            self.nodes[j].neighbors.push(index);
            proof {
                assert(old_list == all_but(j as int, n)) by {
                    assert(old(self).neighbor_lists()[j as int] == all_but(j as int, n));
                    assert(old(self).neighbor_lists()[j as int] == before[j as int].neighbors@);
                }
                assert(self.nodes@[j as int].neighbors@ =~= all_but(j as int, n + 1));
            }
            j = j + 1;
        }
        self.nodes.push(Node { id, vector, neighbors });
        if self.entry.is_none() {
            self.entry = Some(index);
        }
        proof {
            assert(self.ids() =~= old(self).ids().push(id));
            assert(self.vectors() =~= old(self).vectors().push(vector));
            assert forall|i: int| 0 <= i < n + 1 implies #[trigger] self.neighbor_lists()[i]
                == all_but(i, n + 1) by {
            }
            assert forall|i: int| 0 <= i < n + 1 implies #[trigger] self.ids()[i] == i by {
                if i < n {
                    assert(old(self).ids()[i] == i);
                }
            }
        }
        id
    }
}

/// The graph is complete and undirected: every node lists every other node,
/// never itself, and each edge is listed at both of its ends.
pub proof fn lemma_complete_graph<V>(idx: &NswIndex<V>, i: int, j: int)
    requires
        idx.wf(),
        0 <= i < idx.ids().len(),
        0 <= j < idx.ids().len(),
    ensures
        idx.neighbor_lists()[i].len() == idx.ids().len() - 1,
        !idx.neighbor_lists()[i].contains(i as usize),
        i != j ==> idx.neighbor_lists()[i].contains(j as usize) && idx.neighbor_lists()[j].contains(
            i as usize,
        ),
{
    let n = idx.ids().len() as int;
    let li = idx.neighbor_lists()[i];
    let lj = idx.neighbor_lists()[j];
    assert(li == all_but(i, n));
    assert(lj == all_but(j, n));
    if i != j {
        let ti = if j < i { j } else { j - 1 };
        assert(li[ti] == j as usize);
        let tj = if i < j { i } else { i - 1 };
        assert(lj[tj] == i as usize);
    }
    assert(!li.contains(i as usize)) by {
        if li.contains(i as usize) {
            let t = choose|t: int| 0 <= t < li.len() && li[t] == i as usize;
        }
    }
}

} // verus!
