use vstd::prelude::*;
use crate::ids::SystemId;

verus! {

/// A vertex of the working dependency graph: a real system, or the start or
/// end marker of a system set.
#[derive(Clone, Copy, Debug, PartialEq, Eq, Structural)]
pub enum Node {
    System(SystemId),
    SetStart(usize),
    SetEnd(usize),
}

impl Node {
    pub fn is_system_node(&self) -> (r: bool)
        ensures
            r == (*self is System),
    {
        match self {
            Node::System(_) => true,
            _ => false,
        }
    }
}

/// A directed graph over distinct nodes, with edges given as pairs of node
/// positions and kept free of repeats.
pub struct WorkingGraph {
    pub nodes: Vec<Node>,
    pub edges: Vec<(usize, usize)>,
}

impl WorkingGraph {
    /// Nodes are distinct, every edge joins two present nodes, and no edge is
    /// listed twice.
    pub open spec fn wf(&self) -> bool {
        &&& forall|i: int, j: int|
            0 <= i < j < self.nodes@.len() ==> self.nodes@[i] != self.nodes@[j]
        &&& forall|k: int|
            0 <= k < self.edges@.len() ==> (#[trigger] self.edges@[k]).0 < self.nodes@.len()
                && self.edges@[k].1 < self.nodes@.len()
        &&& forall|k: int, l: int|
            0 <= k < l < self.edges@.len() ==> self.edges@[k] != self.edges@[l]
    }

    pub open spec fn has_node(&self, n: Node) -> bool {
        self.nodes@.contains(n)
    }

    /// Whether the graph has an edge from node `a` to node `b`.
    pub open spec fn has_edge(&self, a: Node, b: Node) -> bool {
        exists|k: int|
            0 <= k < self.edges@.len() && self.nodes@[(#[trigger] self.edges@[k]).0 as int] == a
                && self.nodes@[self.edges@[k].1 as int] == b
    }

    /// Nothing of `old` is lost: its nodes keep their positions and its edges stay.
    pub open spec fn extends(&self, old: &WorkingGraph) -> bool {
        &&& old.nodes@.len() <= self.nodes@.len()
        &&& forall|i: int| 0 <= i < old.nodes@.len() ==> self.nodes@[i] == old.nodes@[i]
        &&& old.edges@.len() <= self.edges@.len()
        &&& forall|k: int| 0 <= k < old.edges@.len() ==> self.edges@[k] == old.edges@[k]
    }

    pub fn new() -> (r: WorkingGraph)
        ensures
            r.wf(),
            r.nodes@.len() == 0,
            r.edges@.len() == 0,
    {
        WorkingGraph { nodes: Vec::new(), edges: Vec::new() }
    }

    /// The position of a node, if present.
    pub fn position(&self, n: Node) -> (r: Option<usize>)
        requires
            self.wf(),
        ensures
            r is Some ==> r->0 < self.nodes@.len() && self.nodes@[r->0 as int] == n,
            r is None ==> !self.has_node(n),
    {
        let mut i: usize = 0;
        while i < self.nodes.len()
            invariant
                0 <= i <= self.nodes@.len(),
                forall|j: int| 0 <= j < i ==> self.nodes@[j] != n,
            decreases self.nodes@.len() - i,
        {
            if self.nodes[i] == n {
                return Some(i);
            }
            i += 1;
        }
        None
    }

    /// Adds a node unless present; returns its position.
    pub fn add_node(&mut self, n: Node) -> (r: usize)
        requires
            old(self).wf(),
        ensures
            final(self).wf(),
            final(self).extends(old(self)),
            final(self).edges@ == old(self).edges@,
            r < final(self).nodes@.len(),
            final(self).nodes@[r as int] == n,
            old(self).has_node(n) ==> final(self).nodes@ == old(self).nodes@,
            !old(self).has_node(n) ==> final(self).nodes@ == old(self).nodes@.push(n),
    {
        match self.position(n) {
            Some(i) => i,
            None => {
                let ghost before = self.nodes@;
                self.nodes.push(n);
                proof {
                    assert forall|i: int, j: int|
                        0 <= i < j < self.nodes@.len() implies self.nodes@[i] != self.nodes@[j] by {
                        if j == before.len() {
                            assert(before.contains(before[i]));
                        }
                    }
                }
                self.nodes.len() - 1
            },
        }
    }

    /// Adds the edge from `a` to `b`, and both nodes, unless present.
    pub fn add_edge(&mut self, a: Node, b: Node)
        requires
            old(self).wf(),
        ensures
            final(self).wf(),
            final(self).extends(old(self)),
            final(self).has_node(a),
            final(self).has_node(b),
            final(self).has_edge(a, b),
            forall|n: Node| #[trigger]
                final(self).has_node(n) ==> old(self).has_node(n) || n == a || n == b,
            forall|x: Node, y: Node| #[trigger]
                final(self).has_edge(x, y) ==> old(self).has_edge(x, y) || (x == a && y == b),
    {
        let ghost g0 = *self;
        let i = self.add_node(a);
        let j = self.add_node(b);
        let ghost g1 = *self;
        let mut k: usize = 0;
        let mut found = false;
        while k < self.edges.len()
            invariant
                *self == g1,
                0 <= k <= self.edges@.len(),
                found ==> self.edges@.contains((i, j)),
                !found ==> forall|l: int| 0 <= l < k ==> self.edges@[l] != (i, j),
            decreases self.edges@.len() - k,
        {
            if self.edges[k].0 == i && self.edges[k].1 == j {
                found = true;
            }
            k += 1;
        }
        if !found {
            self.edges.push((i, j));
            assert(self.edges@[self.edges@.len() - 1] == (i, j));
        }
        proof {
            assert(self.edges@.contains((i, j)));
            let l = choose|l: int| 0 <= l < self.edges@.len() && self.edges@[l] == (i, j);
            assert(self.nodes@[(self.edges@[l]).0 as int] == a);
            assert(self.has_edge(a, b));
            assert(self.has_node(a) && self.has_node(b)) by {
                assert(self.nodes@[i as int] == a);
                assert(self.nodes@[j as int] == b);
            }
            assert forall|n: Node| #[trigger] self.has_node(n) implies g0.has_node(n) || n == a || n == b by {
                let p = choose|p: int| 0 <= p < self.nodes@.len() && self.nodes@[p] == n;
                if p < g0.nodes@.len() {
                    assert(g0.nodes@[p] == n);
                }
            }
            assert forall|x: Node, y: Node| #[trigger] self.has_edge(x, y) implies g0.has_edge(x, y) || (x == a
                && y == b) by {
                let q = choose|q: int|
                    0 <= q < self.edges@.len() && self.nodes@[(#[trigger] self.edges@[q]).0 as int] == x
                        && self.nodes@[self.edges@[q].1 as int] == y;
                if q < g0.edges@.len() {
                    assert(g0.edges@[q] == self.edges@[q]);
                    assert(g0.nodes@[g0.edges@[q].0 as int] == x);
                    assert(g0.nodes@[g0.edges@[q].1 as int] == y);
                }
            }
        }
    }
}

/// Whether each node of the sequence has an edge to the next.
pub open spec fn is_path(g: &WorkingGraph, p: Seq<Node>) -> bool {
    &&& p.len() >= 1
    &&& forall|i: int| 0 <= i < p.len() - 1 ==> g.has_edge(#[trigger] p[i], p[i + 1])
}

/// Whether a path leads from `a` to `b`.
pub open spec fn reaches(g: &WorkingGraph, a: Node, b: Node) -> bool {
    exists|p: Seq<Node>| #[trigger] is_path(g, p) && p[0] == a && p.last() == b
}

/// The position of a node of the graph.
pub open spec fn pos_of(g: &WorkingGraph, n: Node) -> int {
    choose|i: int| 0 <= i < g.nodes@.len() && g.nodes@[i] == n
}

pub proof fn lemma_reaches_refl(g: &WorkingGraph, x: Node)
    ensures
        reaches(g, x, x),
{
    let p = seq![x];
    assert(is_path(g, p));
}

pub proof fn lemma_reaches_edge(g: &WorkingGraph, x: Node, y: Node)
    requires
        g.has_edge(x, y),
    ensures
        reaches(g, x, y),
{
    let p = seq![x, y];
    assert(is_path(g, p));
}

pub proof fn lemma_reaches_trans(g: &WorkingGraph, x: Node, y: Node, z: Node)
    requires
        reaches(g, x, y),
        reaches(g, y, z),
    ensures
        reaches(g, x, z),
{
    let p = choose|p: Seq<Node>| #[trigger] is_path(g, p) && p[0] == x && p.last() == y;
    let q = choose|q: Seq<Node>| #[trigger] is_path(g, q) && q[0] == y && q.last() == z;
    let r = p + q.drop_first();
    assert forall|i: int| 0 <= i < r.len() - 1 implies g.has_edge(#[trigger] r[i], r[i + 1]) by {
        if i < p.len() - 1 {
            assert(r[i] == p[i] && r[i + 1] == p[i + 1]);
        } else if i == p.len() - 1 {
            assert(r[i] == q[0]);
            assert(r[i + 1] == q[1]);
        } else {
            let j = i - p.len() + 1;
            assert(r[i] == q[j] && r[i + 1] == q[j + 1]);
        }
    }
    if q.len() == 1 {
        assert(r =~= p);
    } else {
        assert(r.last() == q.last());
    }
    assert(is_path(g, r));
}

/// Along an edge, the position's rank never grows; it drops between two
/// different nodes when ranks descend along every edge between different nodes.
pub proof fn lemma_edge_positions(g: &WorkingGraph, x: Node, y: Node)
    requires
        g.wf(),
        g.has_edge(x, y),
    ensures
        g.has_node(x),
        g.has_node(y),
        exists|k: int|
            0 <= k < g.edges@.len() && (#[trigger] g.edges@[k]).0 == pos_of(g, x) && g.edges@[k].1 == pos_of(g, y),
        0 <= pos_of(g, x) < g.nodes@.len() && g.nodes@[pos_of(g, x)] == x,
        0 <= pos_of(g, y) < g.nodes@.len() && g.nodes@[pos_of(g, y)] == y,
{
    let k = choose|k: int|
        0 <= k < g.edges@.len() && g.nodes@[(#[trigger] g.edges@[k]).0 as int] == x && g.nodes@[g.edges@[k].1 as int]
            == y;
    let e = g.edges@[k];
    assert(g.nodes@.contains(x) && g.nodes@.contains(y)) by {
        assert(g.nodes@[e.0 as int] == x);
        assert(g.nodes@[e.1 as int] == y);
    }
    lemma_pos_unique(g, x, e.0 as int);
    lemma_pos_unique(g, y, e.1 as int);
}

pub proof fn lemma_pos_unique(g: &WorkingGraph, n: Node, i: int)
    requires
        g.wf(),
        0 <= i < g.nodes@.len(),
        g.nodes@[i] == n,
    ensures
        pos_of(g, n) == i,
{
    let j = pos_of(g, n);
    if j != i {
        if j < i {
            assert(g.nodes@[j] != g.nodes@[i]);
        } else {
            assert(g.nodes@[i] != g.nodes@[j]);
        }
    }
}

/// Two graphs with the same edges have the same paths.
pub proof fn lemma_same_paths(g1: &WorkingGraph, g2: &WorkingGraph)
    requires
        forall|x: Node, y: Node| #[trigger] g1.has_edge(x, y) <==> g2.has_edge(x, y),
    ensures
        forall|p: Seq<Node>| #[trigger] is_path(g1, p) <==> is_path(g2, p),
        forall|a: Node, b: Node| #[trigger] reaches(g1, a, b) <==> reaches(g2, a, b),
{
    assert forall|p: Seq<Node>| #[trigger] is_path(g1, p) <==> is_path(g2, p) by {
        if is_path(g1, p) {
            assert forall|i: int| 0 <= i < p.len() - 1 implies g2.has_edge(#[trigger] p[i], p[i + 1]) by {
                assert(g1.has_edge(p[i], p[i + 1]));
            }
        }
        if is_path(g2, p) {
            assert forall|i: int| 0 <= i < p.len() - 1 implies g1.has_edge(#[trigger] p[i], p[i + 1]) by {
                assert(g2.has_edge(p[i], p[i + 1]));
            }
        }
    }
    assert forall|a: Node, b: Node| #[trigger] reaches(g1, a, b) <==> reaches(g2, a, b) by {
        if reaches(g1, a, b) {
            let p = choose|p: Seq<Node>| #[trigger] is_path(g1, p) && p[0] == a && p.last() == b;
            assert(is_path(g2, p));
        }
        if reaches(g2, a, b) {
            let p = choose|p: Seq<Node>| #[trigger] is_path(g2, p) && p[0] == a && p.last() == b;
            assert(is_path(g1, p));
        }
    }
}

} // verus!
