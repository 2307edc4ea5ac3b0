use vstd::prelude::*;
use crate::graph::{
    is_path, lemma_edge_positions, lemma_pos_unique, lemma_same_paths, pos_of, reaches, Node, WorkingGraph,
};
use crate::ids::{duplicate_params, Param, StableId, StableIdView, SystemId};
use crate::schedule::{Constraint, Schedule, ScheduleDescriptor, System};
use crate::sets::{
    builder_member_edge, c_edge, constraint_edge, is_working_graph, key_views, lemma_c_edge_stable,
    lemma_edges_at, lemma_member_edge, lemma_member_edges_at, sched_edge, set_keys,
    constraint_holds, lemma_constraint_holds_stable, lemma_constraint_reaches, lemma_extends_keeps_node,
    lemma_inclusion_reaches, mentions, names_empty_set, orders_members, orders_through_inclusion, Builder, SchedulingError,
};

verus! {

/// Whether the node position occurs in some component.
pub open spec fn in_some_component(comps: Seq<Vec<usize>>, v: int) -> bool {
    exists|c: int, j: int| 0 <= c < comps.len() && 0 <= j < comps[c]@.len() && #[trigger] comps[c]@[j] == v
}

/// Whether `comps` splits the graph's nodes into components listed so that
/// every edge leads to the same or an earlier component: each node position
/// occurs exactly once, and only positions of nodes occur.
pub open spec fn is_component_order(g: &WorkingGraph, comps: Seq<Vec<usize>>) -> bool {
    &&& forall|c: int, j: int|
        0 <= c < comps.len() && 0 <= j < comps[c]@.len() ==> (#[trigger] comps[c]@[j]) < g.nodes@.len()
    &&& forall|v: int| 0 <= v < g.nodes@.len() ==> #[trigger] in_some_component(comps, v)
    &&& forall|c1: int, j1: int, c2: int, j2: int|
        0 <= c1 < comps.len() && 0 <= j1 < comps[c1]@.len() && 0 <= c2 < comps.len() && 0 <= j2
            < comps[c2]@.len() && #[trigger] comps[c1]@[j1] == #[trigger] comps[c2]@[j2] ==> c1 == c2 && j1
            == j2
    &&& forall|k: int, c1: int, j1: int, c2: int, j2: int|
        0 <= k < g.edges@.len() && 0 <= c1 < comps.len() && 0 <= j1 < comps[c1]@.len() && 0 <= c2
            < comps.len() && 0 <= j2 < comps[c2]@.len() && #[trigger] comps[c1]@[j1] == (
        #[trigger] g.edges@[k]).0 && #[trigger] comps[c2]@[j2] == g.edges@[k].1 ==> c2 <= c1
    &&& forall|c: int, j1: int, j2: int|
        0 <= c < comps.len() && 0 <= j1 < comps[c]@.len() && 0 <= j2 < comps[c]@.len() ==> reaches(
            g,
            g.nodes@[(#[trigger] comps[c]@[j1]) as int],
            g.nodes@[(#[trigger] comps[c]@[j2]) as int],
        )
}

/// Whether two different nodes of the graph reach each other.
pub open spec fn graph_has_cycle(g: &WorkingGraph) -> bool {
    exists|x: Node, y: Node| x != y && #[trigger] reaches(g, x, y) && #[trigger] reaches(g, y, x)
}

/// The component that holds a node position.
pub open spec fn comp_index(comps: Seq<Vec<usize>>, v: int) -> int {
    choose|c: int| 0 <= c < comps.len() && #[trigger] in_comp(comps, c, v)
}

/// Whether component `c` holds the node position.
pub open spec fn in_comp(comps: Seq<Vec<usize>>, c: int, v: int) -> bool {
    exists|j: int| 0 <= j < comps[c]@.len() && #[trigger] comps[c]@[j] == v
}

proof fn lemma_comp_index(comps: Seq<Vec<usize>>, v: int)
    requires
        in_some_component(comps, v),
    ensures
        0 <= comp_index(comps, v) < comps.len(),
        exists|j: int| 0 <= j < comps[comp_index(comps, v)]@.len() && #[trigger] comps[comp_index(comps, v)]@[j] == v,
{
    let (c, j) = choose|c: int, j: int| 0 <= c < comps.len() && 0 <= j < comps[c]@.len() && #[trigger] comps[c]@[j] == v;
    assert(in_comp(comps, c, v));
}

/// Along a path the component index never grows.
proof fn lemma_path_comp(g: &WorkingGraph, comps: Seq<Vec<usize>>, p: Seq<Node>)
    requires
        g.wf(),
        is_component_order(g, comps),
        is_path(g, p),
        p.len() >= 2,
    ensures
        g.has_node(p[0]),
        g.has_node(p.last()),
        comp_index(comps, pos_of(g, p.last())) <= comp_index(comps, pos_of(g, p[0])),
    decreases p.len(),
{
    let x = p[p.len() - 2];
    let y = p.last();
    assert(g.has_edge(x, y));
    lemma_edge_positions(g, x, y);
    let k = choose|k: int|
        0 <= k < g.edges@.len() && (#[trigger] g.edges@[k]).0 == pos_of(g, x) && g.edges@[k].1 == pos_of(g, y);
    assert(in_some_component(comps, pos_of(g, x)));
    assert(in_some_component(comps, pos_of(g, y)));
    lemma_comp_index(comps, pos_of(g, x));
    lemma_comp_index(comps, pos_of(g, y));
    let cx = comp_index(comps, pos_of(g, x));
    let cy = comp_index(comps, pos_of(g, y));
    let jx = choose|j: int| 0 <= j < comps[cx]@.len() && #[trigger] comps[cx]@[j] == pos_of(g, x);
    let jy = choose|j: int| 0 <= j < comps[cy]@.len() && #[trigger] comps[cy]@[j] == pos_of(g, y);
    assert(comps[cx]@[jx] == g.edges@[k].0);
    assert(comps[cy]@[jy] == g.edges@[k].1);
    if p.len() > 2 {
        let q = p.drop_last();
        assert forall|i: int| 0 <= i < q.len() - 1 implies g.has_edge(#[trigger] q[i], q[i + 1]) by {
            assert(g.has_edge(p[i], p[i + 1]));
        }
        lemma_path_comp(g, comps, q);
    }
}

/// The components show a cycle exactly when two different nodes of the graph
/// reach each other.
proof fn lemma_cycle_iff(g: &WorkingGraph, comps: Seq<Vec<usize>>)
    requires
        g.wf(),
        is_component_order(g, comps),
    ensures
        has_cycle(comps) <==> graph_has_cycle(g),
{
    if has_cycle(comps) {
        let c = choose|c: int| 0 <= c < comps.len() && (#[trigger] comps[c]@).len() > 1;
        let u = comps[c]@[0];
        let v = comps[c]@[1];
        assert(u != v);
        assert(u < g.nodes@.len() && v < g.nodes@.len());
        assert(g.nodes@[u as int] != g.nodes@[v as int]) by {
            if u < v {
                assert(g.nodes@[u as int] != g.nodes@[v as int]);
            } else {
                assert(g.nodes@[v as int] != g.nodes@[u as int]);
            }
        }
        assert(reaches(g, g.nodes@[u as int], g.nodes@[v as int]));
        assert(reaches(g, g.nodes@[v as int], g.nodes@[u as int]));
    }
    if graph_has_cycle(g) {
        let (x, y) = choose|x: Node, y: Node| x != y && #[trigger] reaches(g, x, y) && #[trigger] reaches(g, y, x);
        let p = choose|p: Seq<Node>| #[trigger] is_path(g, p) && p[0] == x && p.last() == y;
        let q = choose|q: Seq<Node>| #[trigger] is_path(g, q) && q[0] == y && q.last() == x;
        lemma_path_comp(g, comps, p);
        lemma_path_comp(g, comps, q);
        let px = pos_of(g, x);
        let py = pos_of(g, y);
        assert(g.nodes@[px] == x && g.nodes@[py] == y);
        assert(in_some_component(comps, px));
        assert(in_some_component(comps, py));
        lemma_comp_index(comps, px);
        lemma_comp_index(comps, py);
        let c = comp_index(comps, px);
        assert(comp_index(comps, py) == c);
        let jx = choose|j: int| 0 <= j < comps[c]@.len() && #[trigger] comps[c]@[j] == px;
        let jy = choose|j: int| 0 <= j < comps[c]@.len() && #[trigger] comps[c]@[j] == py;
        assert(jx != jy);
        assert(comps[c]@.len() > 1);
    }
}

/// Relies on `petgraph::algo::tarjan_scc`: it returns the strongly connected
/// components of the graph (the nodes of one component reach each other),
/// each node in exactly one, in postorder (reverse topological order), so an
/// edge never leads to a later component.
#[verifier::external_body]
fn strongly_connected_components(g: &WorkingGraph) -> (r: Vec<Vec<usize>>)
    requires
        g.wf(),
    ensures
        is_component_order(g, r@),
{
    let mut map = petgraph::graphmap::DiGraphMap::<usize, ()>::with_capacity(g.nodes.len(), g.edges.len());
    for i in 0..g.nodes.len() {
        map.add_node(i);
    }
    for &(a, b) in g.edges.iter() {
        map.add_edge(a, b, ());
    }
    petgraph::algo::tarjan_scc(&map)
}

/// A system of a loaded schedule: its place in the run order and its parameters.
#[derive(Clone, Debug)]
pub struct LoadedSystem {
    pub id: SystemId,
    pub topological_order: usize,
    pub params: Vec<Param>,
}

/// A schedule ready to run: its systems in run order and the dependencies
/// between them.
#[derive(Clone, Debug)]
pub struct LoadedSchedule {
    pub systems: Vec<LoadedSystem>,
    pub dependency: Vec<(SystemId, SystemId)>,
}

/// Whether some system of the list has the id.
pub open spec fn lists_system(systems: Seq<LoadedSystem>, id: SystemId) -> bool {
    exists|p: int| 0 <= p < systems.len() && (#[trigger] systems[p]).id == id
}

/// Whether every dependency joins two listed systems, the first listed before
/// the second unless they are one.
pub open spec fn deps_ordered(systems: Seq<LoadedSystem>, dependency: Seq<(SystemId, SystemId)>) -> bool {
    forall|k: int| 0 <= k < dependency.len() ==> #[trigger] dep_placed(systems, dependency[k])
}

/// Whether both systems of the dependency are listed, the first before the
/// second unless they are one.
pub open spec fn dep_placed(systems: Seq<LoadedSystem>, e: (SystemId, SystemId)) -> bool {
    exists|p: int, q: int|
        0 <= p < systems.len() && 0 <= q < systems.len() && (#[trigger] systems[p]).id == e.0 && (
        #[trigger] systems[q]).id == e.1 && (e.0 != e.1 ==> p < q)
}

proof fn lemma_deps_ordered_same_ids(
    s1: Seq<LoadedSystem>,
    s2: Seq<LoadedSystem>,
    dependency: Seq<(SystemId, SystemId)>,
)
    requires
        s1.len() == s2.len(),
        forall|i: int| 0 <= i < s1.len() ==> (#[trigger] s1[i]).id == s2[i].id,
        deps_ordered(s1, dependency),
    ensures
        deps_ordered(s2, dependency),
{
    assert forall|k: int| 0 <= k < dependency.len() implies #[trigger] dep_placed(s2, dependency[k]) by {
        assert(dep_placed(s1, dependency[k]));
        let (p, q) = choose|p: int, q: int|
            0 <= p < s1.len() && 0 <= q < s1.len() && (#[trigger] s1[p]).id == dependency[k].0 && (
            #[trigger] s1[q]).id == dependency[k].1 && (dependency[k].0 != dependency[k].1 ==> p < q);
        assert(s1[p].id == s2[p].id);
        assert(s1[q].id == s2[q].id);
    }
}

impl LoadedSchedule {
    /// Systems stand at their topological order, their ids are distinct, and
    /// every dependency joins two listed systems, the first before the second
    /// unless they are one.
    pub open spec fn wf(&self) -> bool {
        &&& forall|p: int|
            0 <= p < self.systems@.len() ==> (#[trigger] self.systems@[p]).topological_order == p
        &&& forall|p: int, q: int|
            0 <= p < q < self.systems@.len() ==> self.systems@[p].id != self.systems@[q].id
        &&& deps_ordered(self.systems@, self.dependency@)
    }
}

/// The run order respects every dependency: of two different systems joined by
/// a dependency, the first has the lower topological order. Distinct systems
/// have distinct orders, so the order is strict and total.
pub proof fn lemma_order_respects_dependency(s: LoadedSchedule, k: int, p: int, q: int)
    requires
        s.wf(),
        0 <= k < s.dependency@.len(),
        0 <= p < s.systems@.len(),
        0 <= q < s.systems@.len(),
        s.systems@[p].id == s.dependency@[k].0,
        s.systems@[q].id == s.dependency@[k].1,
        s.dependency@[k].0 != s.dependency@[k].1,
    ensures
        s.systems@[p].topological_order < s.systems@[q].topological_order,
{
    assert(dep_placed(s.systems@, s.dependency@[k]));
    let (p2, q2) = choose|p2: int, q2: int|
        0 <= p2 < s.systems@.len() && 0 <= q2 < s.systems@.len() && (#[trigger] s.systems@[p2]).id
            == s.dependency@[k].0 && (#[trigger] s.systems@[q2]).id == s.dependency@[k].1 && (
        s.dependency@[k].0 != s.dependency@[k].1 ==> p2 < q2);
    if p != p2 {
        if p < p2 {
            assert(s.systems@[p].id != s.systems@[p2].id);
        } else {
            assert(s.systems@[p2].id != s.systems@[p].id);
        }
    }
    if q != q2 {
        if q < q2 {
            assert(s.systems@[q].id != s.systems@[q2].id);
        } else {
            assert(s.systems@[q2].id != s.systems@[q].id);
        }
    }
    assert(s.systems@[p].topological_order == p);
    assert(s.systems@[q].topological_order == q);
}

/// Every edge between two different nodes goes from a higher rank to a lower one.
pub open spec fn ranks_descend(g: &WorkingGraph, rank: Seq<usize>) -> bool {
    &&& rank.len() == g.nodes@.len()
    &&& forall|k: int|
        0 <= k < g.edges@.len() && (#[trigger] g.edges@[k]).0 != g.edges@[k].1 ==> rank[g.edges@[k].1 as int]
            < rank[g.edges@[k].0 as int]
}

/// Adds the pair unless it is listed.
fn push_unique(out: &mut Vec<(SystemId, SystemId)>, e: (SystemId, SystemId))
    ensures
        old(out)@.contains(e) ==> final(out)@ == old(out)@,
        !old(out)@.contains(e) ==> final(out)@ == old(out)@.push(e),
{
    let mut i: usize = 0;
    while i < out.len()
        invariant
            0 <= i <= out@.len(),
            out@ == old(out)@,
            forall|j: int| 0 <= j < i ==> out@[j] != e,
        decreases out@.len() - i,
    {
        if out[i].0 == e.0 && out[i].1 == e.1 {
            assert(out@.contains(e));
            return;
        }
        i += 1;
    }
    out.push(e);
}

/// Whether the path runs between two systems through marker nodes only.
pub open spec fn is_marker_path(g: &WorkingGraph, p: Seq<Node>) -> bool {
    &&& is_path(g, p)
    &&& p.len() >= 2
    &&& p.last() is System
    &&& forall|i: int| 0 < i < p.len() - 1 ==> !((#[trigger] p[i]) is System)
}

/// Whether the output graph has an edge from `a` to `b`: a path leads from
/// system `a` to system `b` through marker nodes only.
pub open spec fn flattened(g: &WorkingGraph, a: SystemId, b: SystemId) -> bool {
    exists|p: Seq<Node>| #[trigger] is_marker_path(g, p) && p[0] == Node::System(a) && p.last() == Node::System(b)
}

/// Whether the path starts at `n`, runs through marker nodes only, and ends
/// at a system.
pub open spec fn marker_path_from(g: &WorkingGraph, p: Seq<Node>, n: Node) -> bool {
    is_marker_path(g, p) && p[0] == n
}

/// Whether each dependency from position `from` of `out` leads from `parent`
/// to a system that it reaches through marker nodes, and whose node ranks
/// below `bound` unless it is the parent itself.
pub open spec fn found_below(
    g: &WorkingGraph,
    rank: Seq<usize>,
    out: Seq<(SystemId, SystemId)>,
    from: int,
    parent: SystemId,
    bound: int,
) -> bool {
    forall|i: int|
        from <= i < out.len() ==> (#[trigger] out[i]).0 == parent && flattened(g, parent, out[i].1) && (out[i].1
            == parent || exists|v: int| 0 <= v < g.nodes@.len() && g.nodes@[v] == Node::System(out[i].1) && rank[v] < bound)
}

/// The system at the end of a path that ends at a system.
pub open spec fn end_system(p: Seq<Node>) -> SystemId {
    p.last()->System_0
}

proof fn lemma_marker_path_tail(g: &WorkingGraph, q: Seq<Node>)
    requires
        is_marker_path(g, q),
        q.len() >= 3,
    ensures
        is_marker_path(g, q.drop_first()),
        q.drop_first()[0] == q[1],
        q.drop_first().last() == q.last(),
{
    let t = q.drop_first();
    assert forall|i: int| 0 <= i < t.len() - 1 implies g.has_edge(#[trigger] t[i], t[i + 1]) by {
        assert(g.has_edge(q[i + 1], q[i + 2]));
    }
    assert forall|i: int| 0 < i < t.len() - 1 implies !((#[trigger] t[i]) is System) by {
        assert(!(q[i + 1] is System));
    }
}

/// A marker path from a marker node that starts with a loop on that node
/// can drop the loop; repeated, this leaves a path whose first step leaves
/// the node.
proof fn lemma_strip_loops(g: &WorkingGraph, q: Seq<Node>) -> (r: Seq<Node>)
    requires
        is_marker_path(g, q),
        !(q[0] is System),
    ensures
        marker_path_from(g, r, q[0]),
        r.last() == q.last(),
        r[1] != r[0],
    decreases q.len(),
{
    if q[1] == q[0] {
        assert(q.len() >= 3);
        lemma_marker_path_tail(g, q);
        lemma_strip_loops(g, q.drop_first())
    } else {
        q
    }
}

/// Collects the systems reachable from node `u` through marker nodes only,
/// recording a dependency from `parent` to each.
fn add_node_dependents_to_flattened(
    g: &WorkingGraph,
    rank: &Vec<usize>,
    out: &mut Vec<(SystemId, SystemId)>,
    parent: SystemId,
    u: usize,
    bound: Ghost<int>,
    prefix: Ghost<Seq<Node>>,
)
    requires
        g.wf(),
        ranks_descend(g, rank@),
        u < g.nodes@.len(),
        rank@[u as int] < bound@ || g.nodes@[u as int] == Node::System(parent),
        g.nodes@[u as int] == Node::System(parent) ==> rank@[u as int] == bound@,
        is_path(g, prefix@),
        prefix@[0] == Node::System(parent),
        prefix@.last() == g.nodes@[u as int],
        forall|i: int| 0 < i < prefix@.len() ==> !((#[trigger] prefix@[i]) is System),
    ensures
        final(out)@.len() >= old(out)@.len(),
        forall|i: int| 0 <= i < old(out)@.len() ==> final(out)@[i] == old(out)@[i],
        found_below(g, rank@, final(out)@, old(out)@.len() as int, parent, bound@),
        forall|q: Seq<Node>|
            #[trigger] marker_path_from(g, q, g.nodes@[u as int]) && (q[1] != q[0] || g.nodes@[u as int] is System)
                ==> final(out)@.contains((parent, end_system(q))),
    decreases rank@[u as int],
{
    let ghost start = out@.len() as int;
    let ghost n_u = g.nodes@[u as int];
    let mut k: usize = 0;
    while k < g.edges.len()
        invariant
            g.wf(),
            ranks_descend(g, rank@),
            u < g.nodes@.len(),
            n_u == g.nodes@[u as int],
            rank@[u as int] < bound@ || n_u == Node::System(parent),
            n_u == Node::System(parent) ==> rank@[u as int] == bound@,
            is_path(g, prefix@),
            prefix@[0] == Node::System(parent),
            prefix@.last() == n_u,
            forall|i: int| 0 < i < prefix@.len() ==> !((#[trigger] prefix@[i]) is System),
            0 <= k <= g.edges@.len(),
            start == old(out)@.len(),
            out@.len() >= start,
            forall|i: int| 0 <= i < start ==> out@[i] == old(out)@[i],
            found_below(g, rank@, out@, start, parent, bound@),
            forall|q: Seq<Node>|
                #[trigger] marker_path_from(g, q, n_u) && (q[1] != q[0] || n_u is System) && (exists|j: int|
                    0 <= j < k && g.edges@[j] == (u, pos_of(g, q[1]) as usize)) ==> out@.contains((parent, end_system(q))),
        decreases g.edges@.len() - k,
    {
        let (a, b) = g.edges[k];
        let ghost before = out@;
        let ghost next_prefix = prefix@.push(g.nodes@[b as int]);
        proof {
            if a == u {
                assert(g.has_edge(n_u, g.nodes@[b as int]));
                assert(is_path(g, next_prefix)) by {
                    assert forall|i: int| 0 <= i < next_prefix.len() - 1 implies g.has_edge(#[trigger] next_prefix[i], next_prefix[i + 1]) by {
                        if i < prefix@.len() - 1 {
                            assert(g.has_edge(prefix@[i], prefix@[i + 1]));
                        }
                    }
                }
            }
        }
        if a == u && (b != u || g.nodes[b].is_system_node()) {
            match g.nodes[b] {
                Node::System(t) => {
                    push_unique(out, (parent, t));
                    proof {
                        assert(is_marker_path(g, next_prefix)) by {
                            assert forall|i: int| 0 < i < next_prefix.len() - 1 implies !((#[trigger] next_prefix[i]) is System) by {
                                assert(next_prefix[i] == prefix@[i]);
                            }
                        }
                        assert(flattened(g, parent, t));
                        if b != u {
                            assert(rank@[b as int] < rank@[u as int]);
                        }
                        if !before.contains((parent, t)) {
                            assert(out@[out@.len() - 1] == (parent, t));
                        }
                        assert(out@.contains((parent, t)));
                    }
                    assert(found_below(g, rank@, out@, start, parent, bound@)) by {
                        assert forall|i: int| start <= i < out@.len() implies (#[trigger] out@[i]).0 == parent && flattened(g, parent, out@[i].1) && (out@[i].1
                            == parent || exists|v: int| 0 <= v < g.nodes@.len() && g.nodes@[v] == Node::System(out@[i].1) && rank@[v] < bound@) by {
                            if i < before.len() {
                                assert(out@[i] == before[i]);
                            } else {
                                assert(g.nodes@[b as int] == Node::System(out@[i].1));
                            }
                        }
                    }
                },
                _ => {
                    assert(rank@[b as int] < rank@[u as int]);
                    proof {
                        assert forall|i: int| 0 < i < next_prefix.len() implies !((#[trigger] next_prefix[i]) is System) by {
                            if i < prefix@.len() {
                                assert(next_prefix[i] == prefix@[i]);
                            }
                        }
                    }
                    add_node_dependents_to_flattened(g, rank, out, parent, b, bound, Ghost(next_prefix));
                    assert(found_below(g, rank@, out@, start, parent, bound@)) by {
                        assert forall|i: int| start <= i < out@.len() implies (#[trigger] out@[i]).0 == parent && flattened(g, parent, out@[i].1) && (out@[i].1
                            == parent || exists|v: int| 0 <= v < g.nodes@.len() && g.nodes@[v] == Node::System(out@[i].1) && rank@[v] < bound@) by {
                            if i < before.len() {
                                assert(out@[i] == before[i]);
                            }
                        }
                    }
                },
            }
        }
        proof {
            assert forall|i: int| 0 <= i < before.len() implies out@[i] == before[i] by {}
            assert forall|q: Seq<Node>|
                #[trigger] marker_path_from(g, q, n_u) && (q[1] != q[0] || n_u is System) && (exists|j: int|
                    0 <= j < k + 1 && g.edges@[j] == (u, pos_of(g, q[1]) as usize)) implies out@.contains((parent, end_system(q))) by {
                let j = choose|j: int| 0 <= j < k + 1 && g.edges@[j] == (u, pos_of(g, q[1]) as usize);
                if j < k {
                    assert(before.contains((parent, end_system(q))));
                    let w = choose|w: int| 0 <= w < before.len() && before[w] == (parent, end_system(q));
                    assert(out@[w] == before[w]);
                } else {
                    assert(g.has_edge(q[0], q[1]));
                    lemma_edge_positions(g, q[0], q[1]);
                    assert(g.edges@[k as int] == (a, b));
                    assert(b as int == pos_of(g, q[1]));
                    assert(a == u);
                    assert(g.nodes@[b as int] == q[1]);
                    if q[1] is System {
                        if q.len() > 2 {
                            assert(!(q[1] is System));
                        }
                        assert(q.last() == q[1]);
                        assert(end_system(q) == g.nodes@[b as int]->System_0);
                        if !before.contains((parent, end_system(q))) {
                            assert(out@[out@.len() - 1] == (parent, end_system(q)));
                        }
                    } else {
                        assert(q.len() >= 3);
                        if b == u {
                            assert(q[1] == q[0]);
                            assert(false);
                        }
                        lemma_marker_path_tail(g, q);
                        let r = lemma_strip_loops(g, q.drop_first());
                        assert(marker_path_from(g, r, g.nodes@[b as int]));
                        assert(end_system(r) == end_system(q));
                    }
                }
            }
        }
        k += 1;
    }
    proof {
        assert forall|q: Seq<Node>|
            #[trigger] marker_path_from(g, q, n_u) && (q[1] != q[0] || n_u is System) implies out@.contains((parent, end_system(q))) by {
            assert(g.has_edge(q[0], q[1]));
            lemma_edge_positions(g, q[0], q[1]);
            lemma_pos_unique(g, q[0], u as int);
            let j = choose|j: int|
                0 <= j < g.edges@.len() && (#[trigger] g.edges@[j]).0 == pos_of(g, q[0]) && g.edges@[j].1 == pos_of(g, q[1]);
            assert(g.edges@[j] == (u, pos_of(g, q[1]) as usize));
        }
    }
}


/// Whether the first system is listed before the second.
pub open spec fn ordered_before(systems: Seq<LoadedSystem>, a: SystemId, b: SystemId) -> bool {
    exists|p: int, q: int|
        0 <= p < q < systems.len() && (#[trigger] systems[p]).id == a && (#[trigger] systems[q]).id == b
}

proof fn lemma_edge_rank(g: &WorkingGraph, rank: Seq<usize>, x: Node, y: Node)
    requires
        g.wf(),
        ranks_descend(g, rank),
        g.has_edge(x, y),
    ensures
        g.has_node(x),
        g.has_node(y),
        rank[pos_of(g, y)] <= rank[pos_of(g, x)],
{
    lemma_edge_positions(g, x, y);
    let k = choose|k: int|
        0 <= k < g.edges@.len() && (#[trigger] g.edges@[k]).0 == pos_of(g, x) && g.edges@[k].1 == pos_of(g, y);
    assert(g.edges@[k].0 < g.nodes@.len());
}

/// Along a path, the rank of the node's position never grows.
proof fn lemma_path_rank(g: &WorkingGraph, rank: Seq<usize>, p: Seq<Node>)
    requires
        g.wf(),
        ranks_descend(g, rank),
        is_path(g, p),
        p.len() >= 2,
    ensures
        g.has_node(p[0]),
        g.has_node(p.last()),
        rank[pos_of(g, p.last())] <= rank[pos_of(g, p[0])],
    decreases p.len(),
{
    assert(g.has_edge(p[p.len() - 2], p[p.len() - 1]));
    lemma_edge_rank(g, rank, p[p.len() - 2], p.last());
    if p.len() == 2 {
    } else {
        let q = p.drop_last();
        assert forall|i: int| 0 <= i < q.len() - 1 implies g.has_edge(#[trigger] q[i], q[i + 1]) by {
            assert(g.has_edge(p[i], p[i + 1]));
        }
        assert(is_path(g, q));
        lemma_path_rank(g, rank, q);
    }
}

/// The systems among the nodes at the given positions, in order.
pub open spec fn component_systems(g: &WorkingGraph, comp: Seq<usize>) -> Seq<SystemId>
    decreases comp.len(),
{
    if comp.len() == 0 {
        Seq::empty()
    } else {
        let rest = component_systems(g, comp.drop_last());
        match g.nodes@[comp.last() as int] {
            Node::System(id) => rest.push(id),
            _ => rest,
        }
    }
}

/// The systems of each component of more than one node, component by component.
pub open spec fn cycles_of(g: &WorkingGraph, comps: Seq<Vec<usize>>) -> Seq<Seq<SystemId>>
    decreases comps.len(),
{
    if comps.len() == 0 {
        Seq::empty()
    } else if comps.last()@.len() > 1 {
        cycles_of(g, comps.drop_last()).push(component_systems(g, comps.last()@))
    } else {
        cycles_of(g, comps.drop_last())
    }
}

proof fn lemma_component_systems_mem(g: &WorkingGraph, comp: Seq<usize>, s: SystemId)
    ensures
        component_systems(g, comp).contains(s) <==> exists|j: int|
            0 <= j < comp.len() && g.nodes@[#[trigger] comp[j] as int] == Node::System(s),
    decreases comp.len(),
{
    if comp.len() > 0 {
        let rest = comp.drop_last();
        lemma_component_systems_mem(g, rest, s);
        if component_systems(g, comp).contains(s) {
            if component_systems(g, rest).contains(s) {
                let j = choose|j: int| 0 <= j < rest.len() && g.nodes@[#[trigger] rest[j] as int] == Node::System(s);
                assert(comp[j] == rest[j]);
            } else {
                let j = comp.len() - 1;
                assert(g.nodes@[comp[j] as int] == Node::System(s));
            }
        }
        if exists|j: int| 0 <= j < comp.len() && g.nodes@[#[trigger] comp[j] as int] == Node::System(s) {
            let j = choose|j: int| 0 <= j < comp.len() && g.nodes@[#[trigger] comp[j] as int] == Node::System(s);
            if j < comp.len() - 1 {
                assert(rest[j] == comp[j]);
                assert(component_systems(g, rest).contains(s));
                let q = choose|q: int| 0 <= q < component_systems(g, rest).len() && component_systems(g, rest)[q] == s;
                assert(component_systems(g, comp)[q] == s);
            } else {
                let c = component_systems(g, comp);
                assert(c[c.len() - 1] == s);
            }
        }
    }
}

proof fn lemma_cycles_of_mem(g: &WorkingGraph, comps: Seq<Vec<usize>>, i: int)
    requires
        0 <= i < cycles_of(g, comps).len(),
    ensures
        exists|c: int| 0 <= c < comps.len() && (#[trigger] comps[c]@).len() > 1 && cycles_of(g, comps)[i]
            == component_systems(g, comps[c]@),
    decreases comps.len(),
{
    let rest = comps.drop_last();
    if i < cycles_of(g, rest).len() {
        lemma_cycles_of_mem(g, rest, i);
        let c = choose|c: int| 0 <= c < rest.len() && (#[trigger] rest[c]@).len() > 1 && cycles_of(g, rest)[i]
            == component_systems(g, rest[c]@);
        assert(comps[c] == rest[c]);
    } else {
        assert(comps[comps.len() - 1]@.len() > 1);
    }
}

proof fn lemma_cycles_of_complete(g: &WorkingGraph, comps: Seq<Vec<usize>>, c: int)
    requires
        0 <= c < comps.len(),
        comps[c]@.len() > 1,
    ensures
        exists|i: int| 0 <= i < cycles_of(g, comps).len() && #[trigger] cycles_of(g, comps)[i] == component_systems(g, comps[c]@),
    decreases comps.len(),
{
    let rest = comps.drop_last();
    if c < comps.len() - 1 {
        assert(rest[c] == comps[c]);
        lemma_cycles_of_complete(g, rest, c);
        let i = choose|i: int| 0 <= i < cycles_of(g, rest).len() && #[trigger] cycles_of(g, rest)[i] == component_systems(g, rest[c]@);
        assert(cycles_of(g, comps)[i] == cycles_of(g, rest)[i]);
    } else {
        let i = cycles_of(g, rest).len() as int;
        assert(cycles_of(g, comps)[i] == component_systems(g, comps[c]@));
    }
}

/// Whether the system lies on a cycle: its node and another reach each other.
pub open spec fn on_cycle(g: &WorkingGraph, s: SystemId) -> bool {
    exists|x: Node| x != Node::System(s) && #[trigger] reaches(g, Node::System(s), x) && reaches(g, x, Node::System(s))
}

/// What a list of cycles holds, by views.
pub open spec fn cycle_views(cycles: Seq<Vec<SystemId>>) -> Seq<Seq<SystemId>> {
    cycles.map_values(|v: Vec<SystemId>| v@)
}

/// Whether some component holds more than one node.
pub open spec fn has_cycle(comps: Seq<Vec<usize>>) -> bool {
    exists|c: int| 0 <= c < comps.len() && (#[trigger] comps[c]@).len() > 1
}

impl LoadedSchedule {
    /// Turns the working graph, split into components in reverse topological
    /// order, into a schedule. Any component of more than one node is a
    /// cycle, and then the cycles' systems are reported. Otherwise the systems
    /// run in the reverse order of their components, and each depends on the
    /// systems it reaches through marker nodes alone.
    pub fn from_components(g: &WorkingGraph, comps: &Vec<Vec<usize>>) -> (r: Result<
        LoadedSchedule,
        SchedulingError,
    >)
        requires
            g.wf(),
            is_component_order(g, comps@),
        ensures
            r is Err <==> has_cycle(comps@),
            r is Err <==> graph_has_cycle(g),
            r is Err ==> r->Err_0 is Cycles && r->Err_0->cycles@.len() > 0 && r->Err_0->named_set is None
                && cycle_views(r->Err_0->cycles@) == cycles_of(g, comps@),
            r is Err ==> forall|i: int, j1: int, j2: int|
                0 <= i < r->Err_0->cycles@.len() && 0 <= j1 < r->Err_0->cycles@[i]@.len() && 0 <= j2
                    < r->Err_0->cycles@[i]@.len() ==> #[trigger] reaches(
                    g,
                    Node::System(r->Err_0->cycles@[i]@[j1]),
                    Node::System(r->Err_0->cycles@[i]@[j2]),
                ),
            r is Err ==> forall|s: SystemId|
                #[trigger] on_cycle(g, s) ==> exists|i: int|
                    0 <= i < r->Err_0->cycles@.len() && r->Err_0->cycles@[i]@.contains(s),
            r is Ok ==> {
                &&& r->Ok_0.wf()
                &&& forall|id: SystemId| #[trigger]
                    lists_system(r->Ok_0.systems@, id) <==> g.has_node(Node::System(id))
                &&& forall|p: int| 0 <= p < r->Ok_0.systems@.len() ==> (#[trigger] r->Ok_0.systems@[p]).params@.len() == 0
                &&& forall|a: SystemId, b: SystemId|
                    a != b && #[trigger] reaches(g, Node::System(a), Node::System(b)) ==> ordered_before(
                        r->Ok_0.systems@,
                        a,
                        b,
                    )
                &&& forall|a: SystemId, b: SystemId|
                    #[trigger] r->Ok_0.dependency@.contains((a, b)) <==> flattened(g, a, b)
            },
    {
        proof {
            lemma_cycle_iff(g, comps@);
        }
        // Cycles
        let mut cycles: Vec<Vec<SystemId>> = Vec::new();
        let mut c: usize = 0;
        while c < comps.len()
            invariant
                0 <= c <= comps@.len(),
                is_component_order(g, comps@),
                (cycles@.len() > 0) == exists|d: int| 0 <= d < c && (#[trigger] comps@[d]@).len() > 1,
                cycle_views(cycles@) == cycles_of(g, comps@.subrange(0, c as int)),
            decreases comps@.len() - c,
        {
            let ghost pre = comps@.subrange(0, c as int + 1);
            proof {
                assert(pre.drop_last() =~= comps@.subrange(0, c as int));
            }
            if comps[c].len() > 1 {
                let mut ids: Vec<SystemId> = Vec::new();
                let mut j: usize = 0;
                while j < comps[c].len()
                    invariant
                        0 <= c < comps@.len(),
                        0 <= j <= comps@[c as int]@.len(),
                        is_component_order(g, comps@),
                        ids@ == component_systems(g, comps@[c as int]@.subrange(0, j as int)),
                    decreases comps@[c as int]@.len() - j,
                {
                    let ghost sub = comps@[c as int]@.subrange(0, j as int + 1);
                    proof {
                        assert(sub.drop_last() =~= comps@[c as int]@.subrange(0, j as int));
                    }
                    if let Node::System(id) = g.nodes[comps[c][j]] {
                        ids.push(id);
                    }
                    j += 1;
                }
                proof {
                    assert(comps@[c as int]@.subrange(0, j as int) =~= comps@[c as int]@);
                }
                let ghost before = cycles@;
                cycles.push(ids);
                proof {
                    assert(cycle_views(cycles@) =~= cycle_views(before).push(component_systems(g, comps@[c as int]@)));
                }
            }
            c += 1;
        }
        proof {
            assert(comps@.subrange(0, c as int) =~= comps@);
        }
        if cycles.len() > 0 {
            proof {
                let cv = cycle_views(cycles@);
                assert forall|i: int, j1: int, j2: int|
                    0 <= i < cycles@.len() && 0 <= j1 < cycles@[i]@.len() && 0 <= j2 < cycles@[i]@.len() implies #[trigger] reaches(
                    g,
                    Node::System(cycles@[i]@[j1]),
                    Node::System(cycles@[i]@[j2]),
                ) by {
                    assert(cv[i] == cycles@[i]@);
                    lemma_cycles_of_mem(g, comps@, i);
                    let c = choose|c: int| 0 <= c < comps@.len() && (#[trigger] comps@[c]@).len() > 1 && cycles_of(g, comps@)[i]
                        == component_systems(g, comps@[c]@);
                    let s1 = cycles@[i]@[j1];
                    let s2 = cycles@[i]@[j2];
                    assert(cv[i].contains(s1));
                    assert(cv[i].contains(s2));
                    lemma_component_systems_mem(g, comps@[c]@, s1);
                    lemma_component_systems_mem(g, comps@[c]@, s2);
                    let k1 = choose|j: int| 0 <= j < comps@[c]@.len() && g.nodes@[#[trigger] comps@[c]@[j] as int] == Node::System(s1);
                    let k2 = choose|j: int| 0 <= j < comps@[c]@.len() && g.nodes@[#[trigger] comps@[c]@[j] as int] == Node::System(s2);
                    assert(reaches(g, g.nodes@[comps@[c]@[k1] as int], g.nodes@[comps@[c]@[k2] as int]));
                }
                assert forall|s: SystemId| #[trigger] on_cycle(g, s) implies exists|i: int|
                    0 <= i < cycles@.len() && cycles@[i]@.contains(s) by {
                    let x = choose|x: Node| x != Node::System(s) && #[trigger] reaches(g, Node::System(s), x) && reaches(g, x, Node::System(s));
                    let p = choose|p: Seq<Node>| #[trigger] is_path(g, p) && p[0] == Node::System(s) && p.last() == x;
                    let q = choose|q: Seq<Node>| #[trigger] is_path(g, q) && q[0] == x && q.last() == Node::System(s);
                    lemma_path_comp(g, comps@, p);
                    lemma_path_comp(g, comps@, q);
                    let ps = pos_of(g, Node::System(s));
                    let px = pos_of(g, x);
                    assert(in_some_component(comps@, ps));
                    assert(in_some_component(comps@, px));
                    lemma_comp_index(comps@, ps);
                    lemma_comp_index(comps@, px);
                    let c = comp_index(comps@, ps);
                    let js = choose|j: int| 0 <= j < comps@[c]@.len() && #[trigger] comps@[c]@[j] == ps;
                    let jx = choose|j: int| 0 <= j < comps@[c]@.len() && #[trigger] comps@[c]@[j] == px;
                    assert(g.nodes@[ps] == Node::System(s) && g.nodes@[px] == x);
                    assert(js != jx);
                    assert(comps@[c]@.len() > 1);
                    lemma_cycles_of_complete(g, comps@, c);
                    let i = choose|i: int| 0 <= i < cycles_of(g, comps@).len() && #[trigger] cycles_of(g, comps@)[i] == component_systems(g, comps@[c]@);
                    lemma_component_systems_mem(g, comps@[c]@, s);
                    assert(g.nodes@[comps@[c]@[js] as int] == Node::System(s));
                    assert(cv[i] == cycles@[i]@);
                    assert(component_systems(g, comps@[c]@).contains(s));
                    assert(cycles@[i]@.contains(s));
                }
            }
            return Err(SchedulingError::Cycles { named_set: None, cycles });
        }
        // Every component now holds at most one node: its index is the node's rank.

        let n = g.nodes.len();
        let mut rank: Vec<usize> = Vec::new();
        while rank.len() < n
            invariant
                rank@.len() <= n,
                n == g.nodes@.len(),
            decreases n - rank@.len(),
        {
            rank.push(0);
        }
        let mut c: usize = 0;
        while c < comps.len()
            invariant
                0 <= c <= comps@.len(),
                n == g.nodes@.len(),
                rank@.len() == n,
                is_component_order(g, comps@),
                !has_cycle(comps@),
                forall|d: int| 0 <= d < c && comps@[d]@.len() == 1 ==> rank@[#[trigger] comps@[d]@[0] as int] == d,
            decreases comps@.len() - c,
        {
            if comps[c].len() == 1 {
                let v = comps[c][0];
                proof {
                    assert forall|d: int| 0 <= d < c && comps@[d]@.len() == 1 implies comps@[d]@[0] != v by {
                        if comps@[d]@[0] == v {
                            assert(comps@[d]@[0] == comps@[c as int]@[0]);
                        }
                    }
                }
                rank.set(v, c);
            }
            c += 1;
        }
        proof {
            assert(!has_cycle(comps@));
            assert forall|k: int| 0 <= k < g.edges@.len() && (#[trigger] g.edges@[k]).0 != g.edges@[k].1 implies rank@[g.edges@[k].1 as int]
                < rank@[g.edges@[k].0 as int] by {
                let e = g.edges@[k];
                assert(in_some_component(comps@, e.0 as int));
                assert(in_some_component(comps@, e.1 as int));
                let (c1, j1) = choose|c1: int, j1: int| 0 <= c1 < comps@.len() && 0 <= j1 < comps@[c1]@.len() && #[trigger] comps@[c1]@[j1] == e.0 as int;
                let (c2, j2) = choose|c2: int, j2: int| 0 <= c2 < comps@.len() && 0 <= j2 < comps@[c2]@.len() && #[trigger] comps@[c2]@[j2] == e.1 as int;
                assert(comps@[c1]@.len() <= 1);
                assert(comps@[c2]@.len() <= 1);
                assert(c2 <= c1);
                assert(rank@[comps@[c1]@[0] as int] == c1);
                assert(rank@[comps@[c2]@[0] as int] == c2);
            }
        }

        proof {
            assert forall|v: int| 0 <= v < n implies rank@[v] < comps@.len() && comps@[rank@[v] as int]@.len() == 1
                && comps@[rank@[v] as int]@[0] == v by {
                assert(in_some_component(comps@, v));
                let (c1, j1) = choose|c1: int, j1: int| 0 <= c1 < comps@.len() && 0 <= j1 < comps@[c1]@.len() && #[trigger] comps@[c1]@[j1] == v;
                assert(comps@[c1]@.len() <= 1);
                assert(rank@[comps@[c1]@[0] as int] == c1);
            }
        }
        let ghost singles = forall|v: int| 0 <= v < n ==> rank@[v] < comps@.len() && comps@[rank@[v] as int]@.len() == 1
                && comps@[rank@[v] as int]@[0] == v;
        assert(singles);
        // Systems in the reverse order of their components.
        let mut systems: Vec<LoadedSystem> = Vec::new();
        let mut sys_nodes: Vec<usize> = Vec::new();
        let mut c: usize = comps.len();
        while c > 0
            invariant
                0 <= c <= comps@.len(),
                n == g.nodes@.len(),
                g.wf(),
                ranks_descend(g, rank@),
                is_component_order(g, comps@),
                !has_cycle(comps@),
                forall|d: int| 0 <= d < comps@.len() && comps@[d]@.len() == 1 ==> rank@[#[trigger] comps@[d]@[0] as int] == d,
                systems@.len() == sys_nodes@.len(),
                forall|p: int| 0 <= p < systems@.len() ==> {
                    &&& (#[trigger] sys_nodes@[p]) < n
                    &&& g.nodes@[sys_nodes@[p] as int] == Node::System(systems@[p].id)
                    &&& rank@[sys_nodes@[p] as int] >= c
                },
                forall|p: int| 0 <= p < systems@.len() ==> (#[trigger] systems@[p]).topological_order == p
                    && systems@[p].params@.len() == 0,
                forall|p: int, q: int| 0 <= p < q < systems@.len() ==> rank@[#[trigger] sys_nodes@[p] as int] > rank@[#[trigger] sys_nodes@[q] as int],
                forall|v: int| 0 <= v < n && g.nodes@[v] is System && rank@[v] >= c ==> exists|p: int| 0 <= p < sys_nodes@.len() && #[trigger] sys_nodes@[p] == v,
            decreases c,
        {
            c -= 1;
            if comps[c].len() == 1 {
                let v = comps[c][0];
                if let Node::System(id) = g.nodes[v] {
                    let ghost before = sys_nodes@;
                    systems.push(LoadedSystem { id, topological_order: systems.len(), params: Vec::new() });
                    sys_nodes.push(v);
                    proof {
                        assert(rank@[v as int] == c);
                        assert forall|w: int| 0 <= w < n && g.nodes@[w] is System && rank@[w] >= c implies exists|p: int| 0 <= p < sys_nodes@.len() && #[trigger] sys_nodes@[p] == w by {
                            if rank@[w] > c {
                                let p = choose|p: int| 0 <= p < before.len() && #[trigger] before[p] == w;
                                assert(sys_nodes@[p] == w);
                            } else {
                                assert(in_some_component(comps@, w));
                                let (c1, j1) = choose|c1: int, j1: int| 0 <= c1 < comps@.len() && 0 <= j1 < comps@[c1]@.len() && #[trigger] comps@[c1]@[j1] == w;
                                assert(comps@[c1]@.len() <= 1);
                                assert(rank@[comps@[c1]@[0] as int] == c1);
                                assert(comps@[c as int]@[0] == v);
                                assert(sys_nodes@[sys_nodes@.len() - 1] == w);
                            }
                        }
                    }
                } else {
                    proof {
                        assert forall|w: int| 0 <= w < n && g.nodes@[w] is System && rank@[w] >= c implies exists|p: int| 0 <= p < sys_nodes@.len() && #[trigger] sys_nodes@[p] == w by {
                            if rank@[w] == c {
                                assert(in_some_component(comps@, w));
                                let (c1, j1) = choose|c1: int, j1: int| 0 <= c1 < comps@.len() && 0 <= j1 < comps@[c1]@.len() && #[trigger] comps@[c1]@[j1] == w;
                                assert(comps@[c1]@.len() <= 1);
                                assert(rank@[comps@[c1]@[0] as int] == c1);
                                assert(comps@[c as int]@[0] == v);
                            }
                        }
                    }
                }
            } else {
                proof {
                    assert forall|w: int| 0 <= w < n && g.nodes@[w] is System && rank@[w] >= c implies exists|p: int| 0 <= p < sys_nodes@.len() && #[trigger] sys_nodes@[p] == w by {
                        if rank@[w] == c {
                            assert(in_some_component(comps@, w));
                            let (c1, j1) = choose|c1: int, j1: int| 0 <= c1 < comps@.len() && 0 <= j1 < comps@[c1]@.len() && #[trigger] comps@[c1]@[j1] == w;
                            assert(comps@[c1]@.len() <= 1);
                            assert(rank@[comps@[c1]@[0] as int] == c1);
                        }
                    }
                }
            }
        }
        proof {
            assert forall|p: int, q: int| 0 <= p < q < systems@.len() implies systems@[p].id != systems@[q].id by {
                assert(rank@[sys_nodes@[p] as int] > rank@[sys_nodes@[q] as int]);
                assert(sys_nodes@[p] != sys_nodes@[q]);
                if sys_nodes@[p] < sys_nodes@[q] {
                    assert(g.nodes@[sys_nodes@[p] as int] != g.nodes@[sys_nodes@[q] as int]);
                } else {
                    assert(g.nodes@[sys_nodes@[q] as int] != g.nodes@[sys_nodes@[p] as int]);
                }
            }
        }

        proof {
            assert forall|v: int| 0 <= v < n && g.nodes@[v] is System implies exists|p: int| 0 <= p < sys_nodes@.len() && #[trigger] sys_nodes@[p] == v by {
                assert(rank@[v] >= c);
            }
        }
        // Dependencies through marker nodes.
        let mut dependency: Vec<(SystemId, SystemId)> = Vec::new();
        let mut p: usize = 0;
        while p < systems.len()
            invariant
                0 <= p <= systems@.len(),
                n == g.nodes@.len(),
                g.wf(),
                ranks_descend(g, rank@),
                systems@.len() == sys_nodes@.len(),
                forall|p: int| 0 <= p < systems@.len() ==> {
                    &&& (#[trigger] sys_nodes@[p]) < n
                    &&& g.nodes@[sys_nodes@[p] as int] == Node::System(systems@[p].id)
                },
                forall|p: int| 0 <= p < systems@.len() ==> (#[trigger] systems@[p]).topological_order == p
                    && systems@[p].params@.len() == 0,
                forall|p: int, q: int| 0 <= p < q < systems@.len() ==> systems@[p].id != systems@[q].id,
                forall|p: int, q: int| 0 <= p < q < systems@.len() ==> rank@[#[trigger] sys_nodes@[p] as int] > rank@[#[trigger] sys_nodes@[q] as int],
                forall|v: int| 0 <= v < n && g.nodes@[v] is System ==> exists|p: int| 0 <= p < sys_nodes@.len() && #[trigger] sys_nodes@[p] == v,
                deps_ordered(systems@, dependency@),
                forall|i: int| 0 <= i < dependency@.len() ==> flattened(g, (#[trigger] dependency@[i]).0, dependency@[i].1),
                forall|pp: int, q: Seq<Node>|
                    0 <= pp < p && #[trigger] marker_path_from(g, q, Node::System(systems@[pp].id)) ==> dependency@.contains(
                        (systems@[pp].id, end_system(q)),
                    ),
            decreases systems@.len() - p,
        {
            let ghost before = dependency@;
            let v = sys_nodes[p];
            let id = systems[p].id;
            let ghost root = seq![Node::System(id)];
            proof {
                assert(is_path(g, root));
            }
            add_node_dependents_to_flattened(
                g,
                &rank,
                &mut dependency,
                id,
                v,
                Ghost(rank@[v as int] as int),
                Ghost(root),
            );
            proof {
                assert forall|i: int| 0 <= i < dependency@.len() implies flattened(g, (#[trigger] dependency@[i]).0, dependency@[i].1) by {
                    if i < before.len() {
                        assert(dependency@[i] == before[i]);
                    }
                }
                assert forall|pp: int, q: Seq<Node>|
                    0 <= pp < p + 1 && #[trigger] marker_path_from(g, q, Node::System(systems@[pp].id)) implies dependency@.contains(
                        (systems@[pp].id, end_system(q)),
                    ) by {
                    if pp < p {
                        let w = choose|w: int| 0 <= w < before.len() && before[w] == (systems@[pp].id, end_system(q));
                        assert(dependency@[w] == before[w]);
                    } else {
                        assert(g.nodes@[v as int] == Node::System(id));
                    }
                }
                assert forall|k: int| 0 <= k < dependency@.len() implies #[trigger] dep_placed(systems@, dependency@[k]) by {
                    if k < before.len() {
                        assert(dependency@[k] == before[k]);
                    } else {
                        let e = dependency@[k];
                        assert(e.0 == id);
                        if e.1 == id {
                            assert(systems@[p as int].id == e.0);
                        } else {
                            let w = choose|w: int| 0 <= w < g.nodes@.len() && g.nodes@[w] == Node::System(e.1) && rank@[w] < rank@[v as int];
                            let q = choose|q: int| 0 <= q < sys_nodes@.len() && #[trigger] sys_nodes@[q] == w;
                            assert(g.nodes@[sys_nodes@[q] as int] == Node::System(systems@[q].id));
                            if q <= p as int {
                                if q < p as int {
                                    assert(rank@[sys_nodes@[q] as int] > rank@[sys_nodes@[p as int] as int]);
                                }
                            }
                            assert(systems@[p as int].id == e.0);
                            assert(systems@[q].id == e.1);
                        }
                    }
                }
            }
            p += 1;
        }
        let r = LoadedSchedule { systems, dependency };
        proof {
            assert forall|a: SystemId, b: SystemId|
                #[trigger] r.dependency@.contains((a, b)) <==> flattened(g, a, b) by {
                if r.dependency@.contains((a, b)) {
                    let i = choose|i: int| 0 <= i < r.dependency@.len() && r.dependency@[i] == (a, b);
                    assert(flattened(g, r.dependency@[i].0, r.dependency@[i].1));
                }
                if flattened(g, a, b) {
                    let q = choose|q: Seq<Node>| #[trigger] is_marker_path(g, q) && q[0] == Node::System(a) && q.last() == Node::System(b);
                    assert(g.has_edge(q[0], q[1]));
                    lemma_edge_positions(g, q[0], q[1]);
                    assert(g.has_node(Node::System(a)));
                    assert(lists_system(r.systems@, a));
                    let pp = choose|pp: int| 0 <= pp < r.systems@.len() && (#[trigger] r.systems@[pp]).id == a;
                    assert(marker_path_from(g, q, Node::System(r.systems@[pp].id)));
                    assert(end_system(q) == b);
                }
            }
            assert forall|a: SystemId, b: SystemId|
                a != b && #[trigger] reaches(g, Node::System(a), Node::System(b)) implies ordered_before(
                    r.systems@,
                    a,
                    b,
                ) by {
                let path = choose|path: Seq<Node>| #[trigger] is_path(g, path) && path[0] == Node::System(a) && path.last() == Node::System(b);
                lemma_path_rank(g, rank@, path);
                let va = pos_of(g, Node::System(a));
                let vb = pos_of(g, Node::System(b));
                assert(g.nodes@[va] == Node::System(a));
                assert(g.nodes@[vb] == Node::System(b));
                if rank@[va] == rank@[vb] {
                    assert(comps@[rank@[va] as int]@[0] == va);
                    assert(comps@[rank@[vb] as int]@[0] == vb);
                }
                assert(rank@[vb] < rank@[va]);
                assert(g.nodes@[va] is System);
                assert(g.nodes@[vb] is System);
                let pa = choose|p: int| 0 <= p < sys_nodes@.len() && #[trigger] sys_nodes@[p] == va;
                let pb = choose|p: int| 0 <= p < sys_nodes@.len() && #[trigger] sys_nodes@[p] == vb;
                assert(g.nodes@[sys_nodes@[pa] as int] == Node::System(r.systems@[pa].id));
                assert(g.nodes@[sys_nodes@[pb] as int] == Node::System(r.systems@[pb].id));
                if pb <= pa {
                    if pb < pa {
                        assert(rank@[sys_nodes@[pb] as int] > rank@[sys_nodes@[pa] as int]);
                    }
                }
                assert(r.systems@[pa].id == a);
                assert(r.systems@[pb].id == b);
            }
            assert forall|id: SystemId| #[trigger] lists_system(r.systems@, id) <==> g.has_node(Node::System(id)) by {
                if lists_system(r.systems@, id) {
                    let q = choose|q: int| 0 <= q < r.systems@.len() && (#[trigger] r.systems@[q]).id == id;
                    assert(g.nodes@[sys_nodes@[q] as int] == Node::System(id));
                }
                if g.has_node(Node::System(id)) {
                    let w = choose|w: int| 0 <= w < g.nodes@.len() && g.nodes@[w] == Node::System(id);
                    assert(g.nodes@[w] is System);
                    let q = choose|q: int| 0 <= q < sys_nodes@.len() && #[trigger] sys_nodes@[q] == w;
                    assert(g.nodes@[sys_nodes@[q] as int] == Node::System(r.systems@[q].id));
                    assert(r.systems@[q].id == id);
                }
            }
        }
        Ok(r)
    }
}

/// Whether the working graph of the constraints has a cycle: two different
/// nodes that reach each other.
pub open spec fn schedules_cyclic(cs: Seq<Constraint>) -> bool {
    exists|g: WorkingGraph| #[trigger] is_working_graph(cs, g) && graph_has_cycle(&g)
}

/// Whether the working graph of the constraints has a path from system `a`
/// to system `b` through marker nodes only.
pub open spec fn flattened_in(cs: Seq<Constraint>, a: SystemId, b: SystemId) -> bool {
    exists|g: WorkingGraph| #[trigger] is_working_graph(cs, g) && flattened(&g, a, b)
}

/// All graphs with the working graph's edges agree on cycles and on
/// marker paths.
proof fn lemma_working_graphs_agree(cs: Seq<Constraint>, g1: WorkingGraph, g2: WorkingGraph)
    requires
        is_working_graph(cs, g1),
        is_working_graph(cs, g2),
    ensures
        graph_has_cycle(&g1) <==> graph_has_cycle(&g2),
        forall|a: SystemId, b: SystemId| #[trigger] flattened(&g1, a, b) <==> flattened(&g2, a, b),
        forall|a: Node, b: Node| #[trigger] reaches(&g1, a, b) <==> reaches(&g2, a, b),
{
    assert forall|x: Node, y: Node| #[trigger] g1.has_edge(x, y) <==> g2.has_edge(x, y) by {
        assert(g1.has_edge(x, y) <==> sched_edge(cs, x, y));
        assert(g2.has_edge(x, y) <==> sched_edge(cs, x, y));
    }
    lemma_same_paths(&g1, &g2);
    lemma_same_paths(&g2, &g1);
    if graph_has_cycle(&g1) {
        let (x, y) = choose|x: Node, y: Node| x != y && #[trigger] reaches(&g1, x, y) && #[trigger] reaches(&g1, y, x);
        assert(reaches(&g2, x, y) && reaches(&g2, y, x));
    }
    if graph_has_cycle(&g2) {
        let (x, y) = choose|x: Node, y: Node| x != y && #[trigger] reaches(&g2, x, y) && #[trigger] reaches(&g2, y, x);
        assert(reaches(&g1, x, y) && reaches(&g1, y, x));
    }
    assert forall|a: SystemId, b: SystemId| #[trigger] flattened(&g1, a, b) <==> flattened(&g2, a, b) by {
        if flattened(&g1, a, b) {
            let p = choose|p: Seq<Node>| #[trigger] is_marker_path(&g1, p) && p[0] == Node::System(a) && p.last() == Node::System(b);
            assert(is_path(&g2, p));
            assert(is_marker_path(&g2, p));
        }
        if flattened(&g2, a, b) {
            let p = choose|p: Seq<Node>| #[trigger] is_marker_path(&g2, p) && p[0] == Node::System(a) && p.last() == Node::System(b);
            assert(is_path(&g1, p));
            assert(is_marker_path(&g1, p));
        }
    }
}

/// Whether a path leads from `a` to `b` in the working graph of the constraints.
pub open spec fn reaches_in(cs: Seq<Constraint>, a: Node, b: Node) -> bool {
    exists|g: WorkingGraph| #[trigger] is_working_graph(cs, g) && reaches(&g, a, b)
}

/// Whether the system lies on a cycle of the working graph of the constraints.
pub open spec fn on_cycle_in(cs: Seq<Constraint>, s: SystemId) -> bool {
    exists|g: WorkingGraph| #[trigger] is_working_graph(cs, g) && on_cycle(&g, s)
}

/// Whether the graph's edges are exactly those that the first `k`
/// constraints ask for and the membership edges.
#[verifier::opaque]
pub open spec fn edges_so_far(b: Builder, cs: Seq<Constraint>, k: int) -> bool {
    forall|x: Node, y: Node| #[trigger] b.graph.has_edge(x, y) <==> (exists|j: int|
        0 <= j < k && #[trigger] c_edge(b, cs[j], x, y)) || builder_member_edge(b, x, y)
}

/// One more constraint in the loader's loop keeps the graph's edges exactly
/// those of the constraints so far and the membership edges.
proof fn lemma_edges_step(b0: Builder, b1: Builder, cs: Seq<Constraint>, k: int)
    requires
        b0.wf(),
        b1.wf(),
        b1.grows_from(&b0),
        0 <= k < cs.len(),
        forall|j: int| 0 <= j < k ==> constraint_holds(b0, #[trigger] cs[j]),
        edges_so_far(b0, cs, k),
        forall|x: Node, y: Node| #[trigger]
            b1.graph.has_edge(x, y) <==> b0.graph.has_edge(x, y) || c_edge(b1, cs[k], x, y) || builder_member_edge(
                b1,
                x,
                y,
            ),
    ensures
        edges_so_far(b1, cs, k + 1),
{
    reveal(edges_so_far);
    assert forall|x: Node, y: Node| #[trigger] b1.graph.has_edge(x, y) <==> (exists|j: int|
        0 <= j < k + 1 && #[trigger] c_edge(b1, cs[j], x, y)) || builder_member_edge(b1, x, y) by {
        if b0.graph.has_edge(x, y) {
            if builder_member_edge(b0, x, y) {
                lemma_member_edge(b0, b1, x, y);
            } else {
                let j = choose|j: int| 0 <= j < k && #[trigger] c_edge(b0, cs[j], x, y);
                lemma_c_edge_stable(b0, b1, cs[j], x, y);
                assert(c_edge(b1, cs[j], x, y));
            }
        }
        if exists|j: int| 0 <= j < k + 1 && #[trigger] c_edge(b1, cs[j], x, y) {
            let j = choose|j: int| 0 <= j < k + 1 && #[trigger] c_edge(b1, cs[j], x, y);
            if j < k {
                lemma_c_edge_stable(b0, b1, cs[j], x, y);
                assert(c_edge(b0, cs[j], x, y));
                assert(b0.graph.has_edge(x, y));
            }
        }
    }
}

/// The schedules behind a list of references.
pub open spec fn owned(schedules: Seq<&Schedule>) -> Seq<Schedule> {
    schedules.map_values(|x: &Schedule| *x)
}

/// The systems of all schedules, in order, repeats included.
pub open spec fn all_systems(schedules: Seq<Schedule>) -> Seq<System>
    decreases schedules.len(),
{
    if schedules.len() == 0 {
        Seq::empty()
    } else {
        all_systems(schedules.drop_last()) + schedules.last().systems@
    }
}

/// The constraints of all schedules, in order.
pub open spec fn all_constraints(schedules: Seq<Schedule>) -> Seq<Constraint>
    decreases schedules.len(),
{
    if schedules.len() == 0 {
        Seq::empty()
    } else {
        all_constraints(schedules.drop_last()) + schedules.last().constraints@
    }
}

/// The parameters of the last declaration of a system, or none if it is not declared.
pub open spec fn declared_params(decls: Seq<System>, id: SystemId) -> Seq<Param>
    decreases decls.len(),
{
    if decls.len() == 0 {
        Seq::empty()
    } else if decls.last().id == id {
        decls.last().params@
    } else {
        declared_params(decls.drop_last(), id)
    }
}

fn flatten_systems<'a>(schedules: &Vec<&'a Schedule>) -> (r: Vec<&'a System>)
    ensures
        r@.len() == all_systems(owned(schedules@)).len(),
        forall|i: int| 0 <= i < r@.len() ==> *r@[i] == #[trigger] all_systems(owned(schedules@))[i],
{
    let mut out: Vec<&'a System> = Vec::new();
    let mut s: usize = 0;
    while s < schedules.len()
        invariant
            0 <= s <= schedules@.len(),
            out@.len() == all_systems(owned(schedules@).subrange(0, s as int)).len(),
            forall|i: int| 0 <= i < out@.len() ==> *out@[i] == #[trigger] all_systems(owned(schedules@).subrange(0, s as int))[i],
        decreases schedules@.len() - s,
    {
        let list = &schedules[s].systems;
        let ghost done = all_systems(owned(schedules@).subrange(0, s as int));
        let mut k: usize = 0;
        while k < list.len()
            invariant
                0 <= k <= list@.len(),
                out@.len() == done.len() + k,
                forall|i: int| 0 <= i < out@.len() ==> *out@[i] == #[trigger] (done + list@)[i],
            decreases list@.len() - k,
        {
            out.push(&list[k]);
            k += 1;
        }
        proof {
            let next = owned(schedules@).subrange(0, s as int + 1);
            assert(next.drop_last() =~= owned(schedules@).subrange(0, s as int));
            assert(all_systems(next) == done + list@);
        }
        s += 1;
    }
    assert(owned(schedules@).subrange(0, s as int) =~= owned(schedules@));
    out
}

fn flatten_constraints<'a>(schedules: &Vec<&'a Schedule>) -> (r: Vec<&'a Constraint>)
    ensures
        r@.len() == all_constraints(owned(schedules@)).len(),
        forall|i: int| 0 <= i < r@.len() ==> *r@[i] == #[trigger] all_constraints(owned(schedules@))[i],
{
    let mut out: Vec<&'a Constraint> = Vec::new();
    let mut s: usize = 0;
    while s < schedules.len()
        invariant
            0 <= s <= schedules@.len(),
            out@.len() == all_constraints(owned(schedules@).subrange(0, s as int)).len(),
            forall|i: int| 0 <= i < out@.len() ==> *out@[i] == #[trigger] all_constraints(owned(schedules@).subrange(0, s as int))[i],
        decreases schedules@.len() - s,
    {
        let list = &schedules[s].constraints;
        let ghost done = all_constraints(owned(schedules@).subrange(0, s as int));
        let mut k: usize = 0;
        while k < list.len()
            invariant
                0 <= k <= list@.len(),
                out@.len() == done.len() + k,
                forall|i: int| 0 <= i < out@.len() ==> *out@[i] == #[trigger] (done + list@)[i],
            decreases list@.len() - k,
        {
            out.push(&list[k]);
            k += 1;
        }
        proof {
            let next = owned(schedules@).subrange(0, s as int + 1);
            assert(next.drop_last() =~= owned(schedules@).subrange(0, s as int));
            assert(all_constraints(next) == done + list@);
        }
        s += 1;
    }
    assert(owned(schedules@).subrange(0, s as int) =~= owned(schedules@));
    out
}

/// The parameters of the last declaration of the system among `decls`.
fn last_declared_params(decls: &Vec<&System>, id: SystemId) -> (r: Vec<Param>)
    ensures
        r@ == declared_params(decls@.map_values(|s: &System| *s), id),
{
    let ghost all = decls@.map_values(|s: &System| *s);
    let mut i: usize = decls.len();
    assert(all.subrange(0, i as int) =~= all);
    while i > 0
        invariant
            0 <= i <= decls@.len(),
            all == decls@.map_values(|s: &System| *s),
            declared_params(all, id) == declared_params(all.subrange(0, i as int), id),
        decreases i,
    {
        let ghost pre = all.subrange(0, i as int);
        assert(pre.drop_last() =~= all.subrange(0, i as int - 1));
        if decls[i - 1].id == id {
            return duplicate_params(&decls[i - 1].params);
        }
        i -= 1;
    }
    Vec::new()
}

impl LoadedSchedule {
    /// Loads the schedules that share a label into one: builds the working
    /// graph from their systems and constraints, rejects an empty anonymous
    /// set, detects cycles, and orders the systems. Each system carries the
    /// parameters of its last declaration.
    pub fn try_from_schedules(schedules: &Vec<&Schedule>) -> (r: Result<LoadedSchedule, SchedulingError>)
        ensures
            (r is Err && r->Err_0 is EmptyAnonymousSet) <==> exists|i: int|
                0 <= i < all_constraints(owned(schedules@)).len() && names_empty_set(
                    #[trigger] all_constraints(owned(schedules@))[i],
                ),
            r is Err ==> r->Err_0 is EmptyAnonymousSet || (r->Err_0 is Cycles && r->Err_0->cycles@.len() > 0),
            r is Ok <==> (forall|i: int|
                0 <= i < all_constraints(owned(schedules@)).len() ==> !names_empty_set(
                    #[trigger] all_constraints(owned(schedules@))[i],
                )) && !schedules_cyclic(all_constraints(owned(schedules@))),
            (r is Err && r->Err_0 is Cycles) ==> schedules_cyclic(all_constraints(owned(schedules@))),
            (r is Err && r->Err_0 is Cycles) ==> forall|i: int, j1: int, j2: int|
                0 <= i < r->Err_0->cycles@.len() && 0 <= j1 < r->Err_0->cycles@[i]@.len() && 0 <= j2
                    < r->Err_0->cycles@[i]@.len() ==> #[trigger] reaches_in(
                    all_constraints(owned(schedules@)),
                    Node::System(r->Err_0->cycles@[i]@[j1]),
                    Node::System(r->Err_0->cycles@[i]@[j2]),
                ),
            (r is Err && r->Err_0 is Cycles) ==> forall|s: SystemId|
                #[trigger] on_cycle_in(all_constraints(owned(schedules@)), s) ==> exists|i: int|
                    0 <= i < r->Err_0->cycles@.len() && r->Err_0->cycles@[i]@.contains(s),
            r is Ok <==> schedules_load(owned(schedules@)),
            r is Ok ==> loaded_from(r->Ok_0, owned(schedules@)),
            r is Ok ==> forall|id: SystemId|
                #[trigger] lists_system(r->Ok_0.systems@, id) <==> (exists|i: int|
                    0 <= i < all_systems(owned(schedules@)).len() && all_systems(owned(schedules@))[i].id == id) || (
                exists|i: int|
                    0 <= i < all_constraints(owned(schedules@)).len() && #[trigger] mentions(
                        all_constraints(owned(schedules@))[i],
                        id,
                    )),
            r is Ok ==> forall|a: SystemId, b: SystemId|
                #[trigger] r->Ok_0.dependency@.contains((a, b)) <==> flattened_in(all_constraints(owned(schedules@)), a, b),
            r is Ok ==> {
                &&& r->Ok_0.wf()
                &&& forall|i: int|
                    0 <= i < all_systems(owned(schedules@)).len() ==> lists_system(
                        r->Ok_0.systems@,
                        (#[trigger] all_systems(owned(schedules@))[i]).id,
                    )
                &&& forall|p: int|
                    0 <= p < r->Ok_0.systems@.len() ==> (#[trigger] r->Ok_0.systems@[p]).params@
                        == declared_params(all_systems(owned(schedules@)), r->Ok_0.systems@[p].id)
                &&& forall|i: int, a: SystemId, b: SystemId|
                    0 <= i < all_constraints(owned(schedules@)).len() && a != b && #[trigger] orders_members(
                        all_constraints(owned(schedules@))[i],
                        a,
                        b,
                    ) ==> ordered_before(r->Ok_0.systems@, a, b)
                &&& forall|i: int, j: int, a: SystemId, b: SystemId|
                    0 <= i < all_constraints(owned(schedules@)).len() && 0 <= j < all_constraints(owned(schedules@)).len() && a
                        != b && #[trigger] orders_through_inclusion(
                        all_constraints(owned(schedules@))[i],
                        all_constraints(owned(schedules@))[j],
                        a,
                        b,
                    ) ==> ordered_before(r->Ok_0.systems@, a, b)
            },
    {
        let decls = flatten_systems(schedules);
        let constraints = flatten_constraints(schedules);
        let ghost cs = all_constraints(owned(schedules@));
        let mut builder = Builder::new();
        let mut i: usize = 0;
        while i < decls.len()
            invariant
                0 <= i <= decls@.len(),
                builder.wf(),
                builder.graph.edges@.len() == 0,
                builder.sets@.len() == 0,
                forall|id: SystemId| #[trigger] builder.graph.has_node(Node::System(id)) <==> exists|j: int|
                    0 <= j < i && decls@[j].id == id,
                forall|j: int| 0 <= j < i ==> builder.graph.has_node(Node::System((#[trigger] decls@[j]).id)),
            decreases decls@.len() - i,
        {
            let ghost b0 = builder;
            builder.add_system(decls[i].id);
            proof {
                assert forall|id: SystemId| #[trigger] builder.graph.has_node(Node::System(id)) <==> exists|j: int|
                    0 <= j < i + 1 && decls@[j].id == id by {
                    if exists|j: int| 0 <= j < i + 1 && decls@[j].id == id {
                        let j = choose|j: int| 0 <= j < i + 1 && decls@[j].id == id;
                        if j < i {
                            assert(b0.graph.has_node(Node::System(id)));
                        }
                    }
                }
                assert forall|j: int| 0 <= j < i + 1 implies builder.graph.has_node(Node::System((#[trigger] decls@[j]).id)) by {
                    if j < i {
                        lemma_extends_keeps_node(b0.graph, builder.graph, Node::System(decls@[j].id));
                    }
                }
            }
            i += 1;
        }
        proof {
            assert(key_views(builder.sets@) =~= set_keys(cs.subrange(0, 0)));
            reveal(edges_so_far);
            assert forall|x: Node, y: Node| #[trigger] builder.graph.has_edge(x, y) <==> (exists|j: int|
                0 <= j < 0 && #[trigger] c_edge(builder, cs[j], x, y)) || builder_member_edge(builder, x, y) by {
                if builder.graph.has_edge(x, y) {
                    let q = choose|q: int| 0 <= q < builder.graph.edges@.len() && builder.graph.nodes@[(#[trigger] builder.graph.edges@[q]).0 as int] == x
                        && builder.graph.nodes@[builder.graph.edges@[q].1 as int] == y;
                }
            }
        }
        let mut k: usize = 0;
        while k < constraints.len()
            invariant
                0 <= k <= constraints@.len(),
                builder.wf(),
                cs == all_constraints(owned(schedules@)),
                key_views(builder.sets@) == set_keys(cs.subrange(0, k as int)),
                edges_so_far(builder, cs, k as int),
                forall|id: SystemId| #[trigger] builder.graph.has_node(Node::System(id)) <==> (exists|j: int|
                    0 <= j < decls@.len() && decls@[j].id == id) || (exists|j: int| 0 <= j < k && #[trigger] mentions(cs[j], id)),
                forall|j: int| 0 <= j < decls@.len() ==> builder.graph.has_node(Node::System((#[trigger] decls@[j]).id)),
                forall|j: int| 0 <= j < k ==> !names_empty_set(*#[trigger] constraints@[j]),
                forall|j: int| 0 <= j < k ==> constraint_holds(builder, *#[trigger] constraints@[j]),
                constraints@.len() == all_constraints(owned(schedules@)).len(),
                forall|j: int| 0 <= j < constraints@.len() ==> *constraints@[j] == #[trigger] all_constraints(owned(schedules@))[j],
            decreases constraints@.len() - k,
        {
            let ghost b0 = builder;
            match builder.add_constraint(constraints[k]) {
                Ok(()) => {},
                Err(e) => {
                    assert(*constraints@[k as int] == all_constraints(owned(schedules@))[k as int]);
                    return Err(e);
                },
            }
            proof {
                assert forall|j: int| 0 <= j < decls@.len() implies builder.graph.has_node(Node::System((#[trigger] decls@[j]).id)) by {
                    lemma_extends_keeps_node(b0.graph, builder.graph, Node::System(decls@[j].id));
                }
                assert forall|j: int| 0 <= j < k + 1 implies constraint_holds(builder, *#[trigger] constraints@[j]) by {
                    if j < k {
                        lemma_constraint_holds_stable(b0, builder, *constraints@[j]);
                    }
                }
                let pre = cs.subrange(0, k as int + 1);
                assert(pre.drop_last() =~= cs.subrange(0, k as int));
                assert(pre.last() == cs[k as int]);
                assert(*constraints@[k as int] == cs[k as int]);
                assert forall|j: int| 0 <= j < k implies constraint_holds(b0, #[trigger] cs[j]) by {
                    assert(*constraints@[j] == cs[j]);
                }
                lemma_edges_step(b0, builder, cs, k as int);
                assert forall|id: SystemId| #[trigger] builder.graph.has_node(Node::System(id)) <==> (exists|j: int|
                    0 <= j < decls@.len() && decls@[j].id == id) || (exists|j: int| 0 <= j < k + 1 && #[trigger] mentions(cs[j], id)) by {
                    if exists|j: int| 0 <= j < k + 1 && #[trigger] mentions(cs[j], id) {
                        let j = choose|j: int| 0 <= j < k + 1 && #[trigger] mentions(cs[j], id);
                        if j < k {
                            assert(b0.graph.has_node(Node::System(id)));
                        }
                    }
                }
            }
            k += 1;
        }
        proof {
            assert forall|i: int| 0 <= i < all_constraints(owned(schedules@)).len() implies !names_empty_set(
                #[trigger] all_constraints(owned(schedules@))[i],
            ) by {
                assert(*constraints@[i] == all_constraints(owned(schedules@))[i]);
            }
        }
        proof {
            assert(cs.subrange(0, k as int) =~= cs);
            reveal(edges_so_far);
            assert forall|x: Node, y: Node| #[trigger] builder.graph.has_edge(x, y) <==> sched_edge(cs, x, y) by {
                lemma_member_edges_at(builder, x, y);
                if exists|j: int| 0 <= j < k && #[trigger] c_edge(builder, cs[j], x, y) {
                    let j = choose|j: int| 0 <= j < k && #[trigger] c_edge(builder, cs[j], x, y);
                    assert(*constraints@[j] == cs[j]);
                    lemma_edges_at(builder, cs[j], x, y);
                }
                if exists|j: int| 0 <= j < cs.len() && #[trigger] constraint_edge(set_keys(cs), cs[j], x, y) {
                    let j = choose|j: int| 0 <= j < cs.len() && #[trigger] constraint_edge(set_keys(cs), cs[j], x, y);
                    assert(*constraints@[j] == cs[j]);
                    lemma_edges_at(builder, cs[j], x, y);
                }
            }
            assert(is_working_graph(cs, builder.graph));
        }
        let comps = strongly_connected_components(&builder.graph);
        let ordered = match LoadedSchedule::from_components(&builder.graph, &comps) {
            Ok(s) => s,
            Err(e) => {
                proof {
                    assert(is_working_graph(cs, builder.graph));
                    assert(graph_has_cycle(&builder.graph));
                    assert(schedules_cyclic(cs));
                    let cycles = e->Cycles_cycles;
                    assert forall|i: int, j1: int, j2: int|
                        0 <= i < cycles@.len() && 0 <= j1 < cycles@[i]@.len() && 0 <= j2 < cycles@[i]@.len() implies #[trigger] reaches_in(
                        cs,
                        Node::System(cycles@[i]@[j1]),
                        Node::System(cycles@[i]@[j2]),
                    ) by {
                        assert(reaches(&builder.graph, Node::System(cycles@[i]@[j1]), Node::System(cycles@[i]@[j2])));
                    }
                    assert forall|s: SystemId| #[trigger] on_cycle_in(cs, s) implies exists|i: int|
                        0 <= i < cycles@.len() && cycles@[i]@.contains(s) by {
                        let g = choose|g: WorkingGraph| #[trigger] is_working_graph(cs, g) && on_cycle(&g, s);
                        lemma_working_graphs_agree(cs, builder.graph, g);
                        let x = choose|x: Node| x != Node::System(s) && #[trigger] reaches(&g, Node::System(s), x) && reaches(&g, x, Node::System(s));
                        assert(reaches(&builder.graph, Node::System(s), x));
                        assert(on_cycle(&builder.graph, s));
                    }
                }
                return Err(e);
            },
        };
        proof {
            assert(!graph_has_cycle(&builder.graph));
            assert forall|g: WorkingGraph| #[trigger] is_working_graph(cs, g) implies !graph_has_cycle(&g) by {
                lemma_working_graphs_agree(cs, builder.graph, g);
            }
            assert(!schedules_cyclic(cs));
        }
        let mut systems: Vec<LoadedSystem> = Vec::new();
        let mut p: usize = 0;
        while p < ordered.systems.len()
            invariant
                0 <= p <= ordered.systems@.len(),
                systems@.len() == p,
                forall|q: int| 0 <= q < p ==> (#[trigger] systems@[q]).id == ordered.systems@[q].id
                    && systems@[q].topological_order == ordered.systems@[q].topological_order
                    && systems@[q].params@ == declared_params(decls@.map_values(|s: &System| *s), systems@[q].id),
            decreases ordered.systems@.len() - p,
        {
            let id = ordered.systems[p].id;
            let params = last_declared_params(&decls, id);
            systems.push(LoadedSystem { id, topological_order: ordered.systems[p].topological_order, params });
            p += 1;
        }
        let r = LoadedSchedule { systems, dependency: ordered.dependency };
        proof {
            assert(decls@.map_values(|s: &System| *s) =~= all_systems(owned(schedules@)));
            assert forall|q: int| 0 <= q < r.systems@.len() implies (#[trigger] r.systems@[q]).topological_order == q by {
                assert(ordered.systems@[q].topological_order == q);
            }
            assert forall|a: int, b: int| 0 <= a < b < r.systems@.len() implies r.systems@[a].id != r.systems@[b].id by {
                assert(ordered.systems@[a].id != ordered.systems@[b].id);
            }
            lemma_deps_ordered_same_ids(ordered.systems@, r.systems@, r.dependency@);
            assert forall|id: SystemId|
                #[trigger] lists_system(r.systems@, id) <==> (exists|i: int|
                    0 <= i < all_systems(owned(schedules@)).len() && all_systems(owned(schedules@))[i].id == id) || (
                exists|i: int| 0 <= i < cs.len() && #[trigger] mentions(cs[i], id)) by {
                if lists_system(r.systems@, id) {
                    let q = choose|q: int| 0 <= q < r.systems@.len() && (#[trigger] r.systems@[q]).id == id;
                    assert(ordered.systems@[q].id == id);
                    assert(lists_system(ordered.systems@, id));
                    assert(builder.graph.has_node(Node::System(id)));
                    if exists|j: int| 0 <= j < decls@.len() && decls@[j].id == id {
                        let j = choose|j: int| 0 <= j < decls@.len() && decls@[j].id == id;
                        assert(*decls@[j] == all_systems(owned(schedules@))[j]);
                    }
                }
                if exists|i: int| 0 <= i < all_systems(owned(schedules@)).len() && all_systems(owned(schedules@))[i].id == id {
                    let i = choose|i: int| 0 <= i < all_systems(owned(schedules@)).len() && all_systems(owned(schedules@))[i].id == id;
                    assert(*decls@[i] == all_systems(owned(schedules@))[i]);
                }
                if builder.graph.has_node(Node::System(id)) {
                    assert(lists_system(ordered.systems@, id));
                    let q = choose|q: int| 0 <= q < ordered.systems@.len() && (#[trigger] ordered.systems@[q]).id == id;
                    assert(r.systems@[q].id == id);
                }
            }
            assert forall|a: SystemId, b: SystemId|
                #[trigger] r.dependency@.contains((a, b)) <==> flattened_in(cs, a, b) by {
                assert(ordered.dependency@.contains((a, b)) <==> flattened(&builder.graph, a, b));
                if flattened_in(cs, a, b) {
                    let g = choose|g: WorkingGraph| #[trigger] is_working_graph(cs, g) && flattened(&g, a, b);
                    lemma_working_graphs_agree(cs, builder.graph, g);
                }
                if flattened(&builder.graph, a, b) {
                    assert(is_working_graph(cs, builder.graph));
                }
            }
            assert forall|i: int, j: int, a: SystemId, b: SystemId|
                0 <= i < all_constraints(owned(schedules@)).len() && 0 <= j < all_constraints(owned(schedules@)).len() && a
                    != b && #[trigger] orders_through_inclusion(
                    all_constraints(owned(schedules@))[i],
                    all_constraints(owned(schedules@))[j],
                    a,
                    b,
                ) implies ordered_before(r.systems@, a, b) by {
                let c1 = all_constraints(owned(schedules@))[i];
                let c2 = all_constraints(owned(schedules@))[j];
                assert(*constraints@[i] == c1);
                assert(*constraints@[j] == c2);
                lemma_inclusion_reaches(builder, c1, c2, a, b);
                assert(reaches(&builder.graph, Node::System(a), Node::System(b)));
                assert(ordered_before(ordered.systems@, a, b));
                let (p, q) = choose|p: int, q: int|
                    0 <= p < q < ordered.systems@.len() && (#[trigger] ordered.systems@[p]).id == a
                        && (#[trigger] ordered.systems@[q]).id == b;
                assert(r.systems@[p].id == a);
                assert(r.systems@[q].id == b);
            }
            assert forall|i: int, a: SystemId, b: SystemId|
                0 <= i < all_constraints(owned(schedules@)).len() && a != b && #[trigger] orders_members(
                    all_constraints(owned(schedules@))[i],
                    a,
                    b,
                ) implies ordered_before(r.systems@, a, b) by {
                let c = all_constraints(owned(schedules@))[i];
                assert(*constraints@[i] == c);
                assert(constraint_holds(builder, c));
                lemma_constraint_reaches(builder, c, a, b);
                assert(reaches(&builder.graph, Node::System(a), Node::System(b)));
                assert(ordered_before(ordered.systems@, a, b));
                let (p, q) = choose|p: int, q: int|
                    0 <= p < q < ordered.systems@.len() && (#[trigger] ordered.systems@[p]).id == a
                        && (#[trigger] ordered.systems@[q]).id == b;
                assert(r.systems@[p].id == a);
                assert(r.systems@[q].id == b);
            }
            assert forall|j: int| 0 <= j < all_systems(owned(schedules@)).len() implies lists_system(
                r.systems@,
                (#[trigger] all_systems(owned(schedules@))[j]).id,
            ) by {
                let id = decls@[j].id;
                assert(builder.graph.has_node(Node::System(id)));
                assert(lists_system(ordered.systems@, id));
                let q = choose|q: int| 0 <= q < ordered.systems@.len() && (#[trigger] ordered.systems@[q]).id == id;
                assert(r.systems@[q].id == id);
            }
            assert(r.wf());
            assert forall|p: int| 0 <= p < r.systems@.len() implies (#[trigger] r.systems@[p]).params@
                        == declared_params(all_systems(owned(schedules@)), r.systems@[p].id) by {
                assert(r.systems@[p].params@ == declared_params(decls@.map_values(|s: &System| *s), r.systems@[p].id));
            }
        }
        Ok(r)
    }
}

/// The crate that declares the accepted schedule labels.
pub const LABEL_CRATE: &'static str = "common";

/// Whether the identifier names one of the accepted schedule labels,
/// `Start` or `Update`.
pub open spec fn is_schedule_label(id: StableIdView) -> bool {
    id.crate_name == LABEL_CRATE@ && (id.name == "Start"@ || id.name == "Update"@)
}

/// The label of the schedule that runs once at start.
pub fn start_label() -> (r: StableId)
    ensures
        r@.crate_name == LABEL_CRATE@,
        r@.name == "Start"@,
{
    StableId::new(LABEL_CRATE, "Start")
}

/// The label of the schedule that runs every frame.
pub fn update_label() -> (r: StableId)
    ensures
        r@.crate_name == LABEL_CRATE@,
        r@.name == "Update"@,
{
    StableId::new(LABEL_CRATE, "Update")
}

/// The loaded schedules of a feature, one per label that has any.
#[derive(Clone, Debug)]
pub struct LoadedSchedules {
    pub schedules: Vec<(StableId, LoadedSchedule)>,
}

/// Whether some descriptor carries the label.
pub open spec fn has_label(descriptors: Seq<ScheduleDescriptor>, label: StableIdView) -> bool {
    exists|i: int| 0 <= i < descriptors.len() && (#[trigger] descriptors[i]).id@ == label
}

/// Whether schedules load: no constraint names an empty anonymous set, and
/// their working graph has no cycle.
pub open spec fn schedules_load(group: Seq<Schedule>) -> bool {
    &&& forall|i: int|
        0 <= i < all_constraints(group).len() ==> !names_empty_set(#[trigger] all_constraints(group)[i])
    &&& !schedules_cyclic(all_constraints(group))
}

/// Whether a loaded schedule is the one of the schedules: well formed, with
/// the dependencies of their working graph and all their declared systems.
pub open spec fn loaded_from(s: LoadedSchedule, group: Seq<Schedule>) -> bool {
    &&& s.wf()
    &&& forall|a: SystemId, b: SystemId|
        #[trigger] s.dependency@.contains((a, b)) <==> flattened_in(all_constraints(group), a, b)
    &&& forall|i: int|
        0 <= i < all_systems(group).len() ==> lists_system(s.systems@, (#[trigger] all_systems(group)[i]).id)
}

/// The schedules of the descriptors with the label, in order.
pub open spec fn group_of(descs: Seq<ScheduleDescriptor>, label: StableIdView) -> Seq<Schedule>
    decreases descs.len(),
{
    if descs.len() == 0 {
        Seq::empty()
    } else if descs.last().id@ == label {
        group_of(descs.drop_last(), label).push(descs.last().schedule)
    } else {
        group_of(descs.drop_last(), label)
    }
}

/// Whether descriptors load: every label is accepted and each label's
/// schedules load.
pub open spec fn descriptors_load(descs: Seq<ScheduleDescriptor>) -> bool {
    &&& forall|i: int| 0 <= i < descs.len() ==> is_schedule_label((#[trigger] descs[i]).id@)
    &&& forall|label: StableIdView|
        is_schedule_label(label) && #[trigger] has_label(descs, label) ==> schedules_load(group_of(descs, label))
}

/// Whether a schedule with the label was loaded.
pub open spec fn is_loaded(schedules: Seq<(StableId, LoadedSchedule)>, label: StableIdView) -> bool {
    exists|k: int| 0 <= k < schedules.len() && (#[trigger] schedules[k]).0@ == label
}

impl LoadedSchedules {
    /// Groups the descriptors by label and loads each group. A label other
    /// than `Start` or `Update` is rejected with the first such label.
    pub fn try_from_schedule_descriptors(descriptors: &Vec<ScheduleDescriptor>) -> (r: Result<
        LoadedSchedules,
        SchedulingError,
    >)
        ensures
            (r is Err && r->Err_0 is InvalidSchedule) <==> exists|i: int|
                0 <= i < descriptors@.len() && !is_schedule_label((#[trigger] descriptors@[i]).id@),
            (r is Err && r->Err_0 is InvalidSchedule) ==> exists|i: int|
                0 <= i < descriptors@.len() && !is_schedule_label((#[trigger] descriptors@[i]).id@)
                    && r->Err_0->InvalidSchedule_0@ == descriptors@[i].id@ && forall|j: int|
                    0 <= j < i ==> is_schedule_label((#[trigger] descriptors@[j]).id@),
            r is Ok ==> {
                &&& forall|k: int|
                    0 <= k < r->Ok_0.schedules@.len() ==> (#[trigger] r->Ok_0.schedules@[k]).1.wf()
                        && is_schedule_label(r->Ok_0.schedules@[k].0@) && has_label(
                        descriptors@,
                        r->Ok_0.schedules@[k].0@,
                    )
                &&& forall|label: StableIdView|
                    is_schedule_label(label) && #[trigger] has_label(descriptors@, label) ==> is_loaded(
                        r->Ok_0.schedules@,
                        label,
                    )
                &&& forall|k: int|
                    0 <= k < r->Ok_0.schedules@.len() ==> loaded_from(
                        (#[trigger] r->Ok_0.schedules@[k]).1,
                        group_of(descriptors@, r->Ok_0.schedules@[k].0@),
                    )
            },
            r is Ok <==> descriptors_load(descriptors@),
    {
        proof {
            reveal_strlit("Start");
            reveal_strlit("Update");
        }
        let start = start_label();
        let update = update_label();
        assert(start@.name.len() != update@.name.len());
        let mut starts: Vec<&Schedule> = Vec::new();
        let mut updates: Vec<&Schedule> = Vec::new();
        let mut i: usize = 0;
        while i < descriptors.len()
            invariant
                0 <= i <= descriptors@.len(),
                start@.crate_name == LABEL_CRATE@ && start@.name == "Start"@,
                update@.crate_name == LABEL_CRATE@ && update@.name == "Update"@,
                start@ != update@,
                forall|j: int| 0 <= j < i ==> is_schedule_label((#[trigger] descriptors@[j]).id@),
                (starts@.len() > 0) == exists|j: int| 0 <= j < i && (#[trigger] descriptors@[j]).id@ == start@,
                owned(starts@) == group_of(descriptors@.subrange(0, i as int), start@),
                owned(updates@) == group_of(descriptors@.subrange(0, i as int), update@),
                (updates@.len() > 0) == exists|j: int| 0 <= j < i && (#[trigger] descriptors@[j]).id@ == update@,
            decreases descriptors@.len() - i,
        {
            let d = &descriptors[i];
            proof {
                let pre = descriptors@.subrange(0, i as int + 1);
                assert(pre.drop_last() =~= descriptors@.subrange(0, i as int));
                assert(pre.last() == descriptors@[i as int]);
            }
            let ghost s0 = starts@;
            let ghost u0 = updates@;
            if d.id.same_as(&start) {
                starts.push(&d.schedule);
                assert(owned(starts@) =~= owned(s0).push(descriptors@[i as int].schedule));
            } else if d.id.same_as(&update) {
                updates.push(&d.schedule);
                assert(owned(updates@) =~= owned(u0).push(descriptors@[i as int].schedule));
            } else {
                proof {
                    assert(!is_schedule_label(descriptors@[i as int].id@));
                }
                return Err(SchedulingError::InvalidSchedule(d.id.duplicate()));
            }
            i += 1;
        }
        proof {
            assert(descriptors@.subrange(0, i as int) =~= descriptors@);
            if starts@.len() > 0 {
                let j = choose|j: int| 0 <= j < i && (#[trigger] descriptors@[j]).id@ == start@;
                assert(has_label(descriptors@, start@));
            }
            if updates@.len() > 0 {
                let j = choose|j: int| 0 <= j < i && (#[trigger] descriptors@[j]).id@ == update@;
                assert(has_label(descriptors@, update@));
            }
            assert(is_schedule_label(start@));
            assert(is_schedule_label(update@));
        }
        let mut schedules: Vec<(StableId, LoadedSchedule)> = Vec::new();
        if starts.len() > 0 {
            match LoadedSchedule::try_from_schedules(&starts) {
                Ok(s) => {
                    schedules.push((start, s));
                },
                Err(e) => {
                    assert(!schedules_load(group_of(descriptors@, start@)));
                    return Err(e);
                },
            }
        }
        if updates.len() > 0 {
            match LoadedSchedule::try_from_schedules(&updates) {
                Ok(s) => {
                    let ghost before = schedules@;
                    schedules.push((update, s));
                    assert(forall|k: int| 0 <= k < before.len() ==> schedules@[k] == before[k]);
                },
                Err(e) => {
                    assert(!schedules_load(group_of(descriptors@, update@)));
                    return Err(e);
                },
            }
        }
        proof {
            assert forall|label: StableIdView|
                is_schedule_label(label) && #[trigger] has_label(descriptors@, label) implies schedules_load(
                    group_of(descriptors@, label),
                ) by {
                let j = choose|j: int| 0 <= j < descriptors@.len() && (#[trigger] descriptors@[j]).id@ == label;
                if label == start@ {
                    assert(starts@.len() > 0);
                } else {
                    assert(label == update@);
                    assert(updates@.len() > 0);
                }
            }
            assert(descriptors_load(descriptors@));
            assert forall|k: int| 0 <= k < schedules@.len() implies loaded_from(
                (#[trigger] schedules@[k]).1,
                group_of(descriptors@, schedules@[k].0@),
            ) by {
                if starts@.len() > 0 && k == 0 {
                } else {
                    assert(schedules@[k].0@ == update@);
                }
            }
        }
        assert(forall|k: int| 0 <= k < schedules@.len() ==> (schedules@[k].0@ == start@ && starts@.len() > 0
            || schedules@[k].0@ == update@ && updates@.len() > 0) && (#[trigger] schedules@[k]).1.wf());
        proof {
            if starts@.len() > 0 {
                let j = choose|j: int| 0 <= j < i && (#[trigger] descriptors@[j]).id@ == start@;
                assert(has_label(descriptors@, start@));
            }
            if updates@.len() > 0 {
                let j = choose|j: int| 0 <= j < i && (#[trigger] descriptors@[j]).id@ == update@;
                assert(has_label(descriptors@, update@));
            }
            assert forall|label: StableIdView|
                is_schedule_label(label) && #[trigger] has_label(descriptors@, label) implies is_loaded(
                    schedules@,
                    label,
                ) by {
                let j = choose|j: int| 0 <= j < descriptors@.len() && (#[trigger] descriptors@[j]).id@ == label;
                if label == start@ {
                    assert(schedules@[0].0@ == label);
                } else {
                    assert(label == update@);
                    assert(schedules@[schedules@.len() - 1].0@ == label);
                }
            }
        }
        Ok(LoadedSchedules { schedules })
    }
}

} // verus!
