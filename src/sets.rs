use vstd::prelude::*;
use vstd::multiset::Multiset;
use crate::graph::{lemma_edge_positions, lemma_reaches_edge, lemma_reaches_refl, lemma_reaches_trans, reaches, Node, WorkingGraph};
use crate::ids::{StableId, StableIdView, SystemId};
use crate::schedule::{Constraint, SystemSet};

verus! {

broadcast use vstd::seq_lib::group_to_multiset_ensures;

/// Why a schedule could not be loaded.
#[derive(Clone, Debug)]
pub enum SchedulingError {
    /// A schedule label other than the accepted ones.
    InvalidSchedule(StableId),
    /// A constraint names an anonymous set without members.
    EmptyAnonymousSet,
    /// The constraints order some systems in a circle; each cycle lists the
    /// systems that take part in it.
    Cycles { named_set: Option<StableId>, cycles: Vec<Vec<SystemId>> },
}

/// What identifies a system set in the working graph: the multiset of members
/// of an anonymous set, or the identifier of a named one.
pub enum SetKeyView {
    Anonymous(Multiset<SystemId>),
    Named(StableIdView),
}

/// The identity of a system set that owns a pair of marker nodes.
pub enum SetKey {
    Anonymous(Vec<SystemId>),
    Named(StableId),
}

impl View for SetKey {
    type V = SetKeyView;

    open spec fn view(&self) -> SetKeyView {
        match self {
            SetKey::Anonymous(v) => SetKeyView::Anonymous(v@.to_multiset()),
            SetKey::Named(id) => SetKeyView::Named(id@),
        }
    }
}

/// The key under which a set of a constraint is kept.
pub open spec fn key_of(set: SystemSet) -> SetKeyView {
    match set {
        SystemSet::Anonymous(v) => SetKeyView::Anonymous(v@.to_multiset()),
        SystemSet::Named(id) => SetKeyView::Named(id@),
    }
}

/// Whether the set is anonymous and has no members.
pub open spec fn is_empty_anonymous(set: SystemSet) -> bool {
    match set {
        SystemSet::Anonymous(v) => v@.len() == 0,
        SystemSet::Named(_) => false,
    }
}

/// Whether the set is anonymous with exactly one member, which then stands for it.
pub open spec fn is_single(set: SystemSet) -> bool {
    match set {
        SystemSet::Anonymous(v) => v@.len() == 1,
        SystemSet::Named(_) => false,
    }
}

pub open spec fn single_member(set: SystemSet) -> SystemId {
    match set {
        SystemSet::Anonymous(v) => v@[0],
        SystemSet::Named(_) => arbitrary(),
    }
}

/// Whether a constraint names an empty anonymous set.
pub open spec fn names_empty_set(c: Constraint) -> bool {
    match c {
        Constraint::Order { before, after } => is_empty_anonymous(before) || is_empty_anonymous(after),
        Constraint::Condition { set, .. } => is_empty_anonymous(set),
        Constraint::Includes { set, .. } => is_empty_anonymous(set),
    }
}

/// The position of a key among the set keys.
pub open spec fn key_index(sets: Seq<SetKey>, key: SetKeyView) -> int {
    choose|k: int| 0 <= k < sets.len() && sets[k]@ == key
}

/// The node where a set starts: its single member, or its start marker.
pub open spec fn start_node(sets: Seq<SetKey>, set: SystemSet) -> Node {
    if is_single(set) {
        Node::System(single_member(set))
    } else {
        Node::SetStart(key_index(sets, key_of(set)) as usize)
    }
}

/// The node where a set ends: its single member, or its end marker.
pub open spec fn end_node(sets: Seq<SetKey>, set: SystemSet) -> Node {
    if is_single(set) {
        Node::System(single_member(set))
    } else {
        Node::SetEnd(key_index(sets, key_of(set)) as usize)
    }
}

fn count_of(s: &Vec<SystemId>, x: SystemId) -> (c: usize)
    ensures
        c == s@.to_multiset().count(x),
{
    let mut c: usize = 0;
    let mut k: usize = 0;
    while k < s.len()
        invariant
            0 <= k <= s@.len(),
            c <= k,
            c == s@.subrange(0, k as int).to_multiset().count(x),
        decreases s@.len() - k,
    {
        assert(s@.subrange(0, k as int + 1) =~= s@.subrange(0, k as int).push(s@[k as int]));
        if s[k] == x {
            c += 1;
        }
        k += 1;
    }
    assert(s@.subrange(0, k as int) =~= s@);
    c
}

/// Whether every element of `a` occurs as often in `b`.
fn counts_agree(a: &Vec<SystemId>, b: &Vec<SystemId>) -> (r: bool)
    ensures
        r == forall|i: int|
            0 <= i < a@.len() ==> a@.to_multiset().count(a@[i]) == b@.to_multiset().count(#[trigger] a@[i]),
{
    let mut i: usize = 0;
    while i < a.len()
        invariant
            0 <= i <= a@.len(),
            forall|j: int|
                0 <= j < i ==> a@.to_multiset().count(a@[j]) == b@.to_multiset().count(#[trigger] a@[j]),
        decreases a@.len() - i,
    {
        if count_of(a, a[i]) != count_of(b, a[i]) {
            return false;
        }
        i += 1;
    }
    true
}

/// Whether two member lists hold the same members, each as often.
fn same_members(a: &Vec<SystemId>, b: &Vec<SystemId>) -> (r: bool)
    ensures
        r == (a@.to_multiset() == b@.to_multiset()),
{
    let ab = counts_agree(a, b);
    let ba = counts_agree(b, a);
    proof {
        if ab && ba {
            assert forall|x: SystemId| a@.to_multiset().count(x) == b@.to_multiset().count(x) by {
                if a@.contains(x) {
                    let i = choose|i: int| 0 <= i < a@.len() && a@[i] == x;
                    assert(a@.to_multiset().count(a@[i]) == b@.to_multiset().count(a@[i]));
                } else if b@.contains(x) {
                    let i = choose|i: int| 0 <= i < b@.len() && b@[i] == x;
                    assert(b@.to_multiset().count(b@[i]) == a@.to_multiset().count(b@[i]));
                }
            }
            assert(a@.to_multiset() =~= b@.to_multiset());
        }
        if a@.to_multiset() == b@.to_multiset() {
            assert(ab);
            assert(ba);
        }
    }
    ab && ba
}

impl SetKey {
    fn matches(&self, set: &SystemSet) -> (r: bool)
        ensures
            r == (self@ == key_of(*set)),
    {
        match (self, set) {
            (SetKey::Anonymous(a), SystemSet::Anonymous(b)) => same_members(a, b),
            (SetKey::Named(a), SystemSet::Named(b)) => a.same_as(b),
            _ => false,
        }
    }
}

/// The working graph of a schedule, with the sets that own marker nodes.
pub struct Builder {
    pub graph: WorkingGraph,
    pub sets: Vec<SetKey>,
}

impl Builder {
    /// The graph is well formed; set keys are distinct; each kept set has its
    /// markers, and an anonymous one an edge from its start to each member
    /// and from each member to its end.
    pub open spec fn wf(&self) -> bool {
        &&& self.graph.wf()
        &&& forall|i: int, j: int| 0 <= i < j < self.sets@.len() ==> self.sets@[i]@ != self.sets@[j]@
        &&& forall|k: usize|
            k < self.sets@.len() ==> #[trigger] self.graph.has_node(Node::SetStart(k))
                && self.graph.has_node(Node::SetEnd(k))
        &&& forall|k: usize, m: SystemId|
            k < self.sets@.len() && self.sets@[k as int] is Anonymous
                && #[trigger] self.sets@[k as int]->Anonymous_0@.contains(m) ==> self.graph.has_edge(
                Node::SetStart(k),
                Node::System(m),
            ) && self.graph.has_edge(Node::System(m), Node::SetEnd(k))
    }

    /// The builder grew from `old`: the graph extends the old one and the old
    /// set keys keep their positions.
    pub open spec fn grows_from(&self, old: &Builder) -> bool {
        &&& self.graph.extends(&old.graph)
        &&& old.sets@.len() <= self.sets@.len()
        &&& forall|k: int| 0 <= k < old.sets@.len() ==> self.sets@[k] == old.sets@[k]
    }

    pub fn new() -> (r: Builder)
        ensures
            r.wf(),
            r.graph.edges@.len() == 0,
            r.graph.nodes@.len() == 0,
            r.sets@.len() == 0,
    {
        Builder { graph: WorkingGraph::new(), sets: Vec::new() }
    }

    fn find_set(&self, set: &SystemSet) -> (r: Option<usize>)
        requires
            self.wf(),
        ensures
            r is Some ==> r->0 < self.sets@.len() && self.sets@[r->0 as int]@ == key_of(*set),
            r is None ==> forall|k: int| 0 <= k < self.sets@.len() ==> self.sets@[k]@ != key_of(*set),
    {
        let mut k: usize = 0;
        while k < self.sets.len()
            invariant
                0 <= k <= self.sets@.len(),
                forall|j: int| 0 <= j < k ==> self.sets@[j]@ != key_of(*set),
            decreases self.sets@.len() - k,
        {
            if self.sets[k].matches(set) {
                return Some(k);
            }
            k += 1;
        }
        None
    }

    /// Gives the set a pair of marker nodes unless its key already has one,
    /// linking each member of an anonymous set between them.
    fn populate_set_nodes_inner(&mut self, set: &SystemSet) -> (r: (Node, Node))
        requires
            old(self).wf(),
            !is_empty_anonymous(*set),
            !is_single(*set),
        ensures
            final(self).wf(),
            final(self).grows_from(old(self)),
            0 <= key_index(final(self).sets@, key_of(*set)) < final(self).sets@.len(),
            final(self).sets@[key_index(final(self).sets@, key_of(*set))]@ == key_of(*set),
            r.0 == Node::SetStart(key_index(final(self).sets@, key_of(*set)) as usize),
            r.1 == Node::SetEnd(key_index(final(self).sets@, key_of(*set)) as usize),
            final(self).graph.has_node(r.0),
            final(self).graph.has_node(r.1),
            key_views(final(self).sets@) == add_key(key_views(old(self).sets@), *set),
            forall|x: Node, y: Node| #[trigger]
                final(self).graph.has_edge(x, y) ==> old(self).graph.has_edge(x, y) || builder_member_edge(
                    *final(self),
                    x,
                    y,
                ),
            forall|id: SystemId| #[trigger]
                final(self).graph.has_node(Node::System(id)) <==> old(self).graph.has_node(Node::System(id)) || in_set(
                    *set,
                    id,
                ),
    {
        let ghost b0 = *self;
        match self.find_set(set) {
            Some(k) => {
                assert(self.sets@[k as int]@ == key_of(*set));
                assert(self.graph.has_node(Node::SetStart(k)));
                assert(key_views(self.sets@)[k as int] == key_of(*set));
                assert(key_views(self.sets@).contains(key_of(*set)));
                proof {
                    assert forall|id: SystemId| in_set(*set, id) implies #[trigger] self.graph.has_node(Node::System(id)) by {
                        let v = set->Anonymous_0;
                        assert(v@.to_multiset().count(id) > 0);
                        assert(self.sets@[k as int]->Anonymous_0@.to_multiset() == v@.to_multiset());
                        assert(self.sets@[k as int]->Anonymous_0@.contains(id));
                        assert(self.graph.has_edge(Node::SetStart(k), Node::System(id)));
                        lemma_edge_positions(&self.graph, Node::SetStart(k), Node::System(id));
                    }
                }
                (Node::SetStart(k), Node::SetEnd(k))
            },
            None => {
                let k = self.sets.len();
                let start = Node::SetStart(k);
                let end = Node::SetEnd(k);
                let ghost g0 = self.graph;
                self.graph.add_node(start);
                let ghost g01 = self.graph;
                self.graph.add_node(end);
                proof {
                    lemma_push_marker(g0, g01, start);
                    lemma_push_marker(g01, self.graph, end);
                    assert forall|x: Node, y: Node| #[trigger] self.graph.has_edge(x, y) implies b0.graph.has_edge(x, y) by {
                        let q = choose|q: int|
                            0 <= q < self.graph.edges@.len() && self.graph.nodes@[(#[trigger] self.graph.edges@[q]).0 as int] == x
                                && self.graph.nodes@[self.graph.edges@[q].1 as int] == y;
                        assert(b0.graph.edges@[q] == self.graph.edges@[q]);
                        assert(b0.graph.nodes@[b0.graph.edges@[q].0 as int] == x);
                        assert(b0.graph.nodes@[b0.graph.edges@[q].1 as int] == y);
                    }
                }
                let ghost g_nodes = self.graph;
                let key = match set {
                    SystemSet::Anonymous(members) => {
                        let mut i: usize = 0;
                        while i < members.len()
                            invariant
                                self.sets == b0.sets,
                                self.graph.wf(),
                                self.graph.extends(&g0),
                                self.graph.has_node(start),
                                self.graph.has_node(end),
                                0 <= i <= members@.len(),
                                forall|j: int|
                                    0 <= j < i ==> self.graph.has_edge(start, Node::System(#[trigger] members@[j]))
                                        && self.graph.has_edge(Node::System(members@[j]), end),
                                forall|x: Node, y: Node| #[trigger]
                                    g0.has_edge(x, y) ==> self.graph.has_edge(x, y),
                                forall|n: Node| #[trigger] g0.has_node(n) ==> self.graph.has_node(n),
                                forall|id: SystemId| #[trigger] self.graph.has_node(Node::System(id)) <==> b0.graph.has_node(
                                    Node::System(id),
                                ) || exists|j: int| 0 <= j < i && members@[j] == id,
                                forall|x: Node, y: Node| #[trigger]
                                    self.graph.has_edge(x, y) ==> b0.graph.has_edge(x, y) || exists|j: int|
                                        0 <= j < i && ((x == start && y == Node::System(#[trigger] members@[j])) || (
                                        x == Node::System(members@[j]) && y == end)),
                            decreases members@.len() - i,
                        {
                            let m = members[i];
                            let ghost g1 = self.graph;
                            self.graph.add_edge(start, Node::System(m));
                            let ghost g2 = self.graph;
                            self.graph.add_edge(Node::System(m), end);
                            proof {
                                assert forall|x: Node, y: Node| #[trigger] g1.has_edge(x, y) implies self.graph.has_edge(x, y) by {
                                    lemma_extends_keeps_edge(g1, g2, x, y);
                                    lemma_extends_keeps_edge(g2, self.graph, x, y);
                                }
                                assert forall|n: Node| #[trigger] g1.has_node(n) implies self.graph.has_node(n) by {
                                    lemma_extends_keeps_node(g1, g2, n);
                                    lemma_extends_keeps_node(g2, self.graph, n);
                                }
                                lemma_extends_keeps_edge(g2, self.graph, start, Node::System(m));
                                lemma_extends_trans(g0, g1, g2);
                                lemma_extends_trans(g0, g2, self.graph);
                                assert forall|id: SystemId| #[trigger] self.graph.has_node(Node::System(id)) <==> b0.graph.has_node(
                                    Node::System(id),
                                ) || exists|j: int| 0 <= j < i + 1 && members@[j] == id by {
                                    if g1.has_node(Node::System(id)) {
                                        lemma_extends_keeps_node(g1, g2, Node::System(id));
                                        lemma_extends_keeps_node(g2, self.graph, Node::System(id));
                                    }
                                    if exists|j: int| 0 <= j < i + 1 && members@[j] == id {
                                        let j = choose|j: int| 0 <= j < i + 1 && members@[j] == id;
                                        if j == i {
                                            lemma_extends_keeps_node(g2, self.graph, Node::System(m));
                                        } else {
                                            assert(g1.has_node(Node::System(id)));
                                        }
                                    }
                                    if self.graph.has_node(Node::System(id)) && !g1.has_node(Node::System(id)) {
                                        assert(id == m);
                                        assert(members@[i as int] == id);
                                    }
                                }
                                assert forall|x: Node, y: Node| #[trigger] self.graph.has_edge(x, y) implies b0.graph.has_edge(x, y)
                                    || exists|j: int|
                                    0 <= j < i + 1 && ((x == start && y == Node::System(#[trigger] members@[j])) || (
                                    x == Node::System(members@[j]) && y == end)) by {
                                    if !(x == Node::System(m) && y == end) {
                                        assert(g2.has_edge(x, y));
                                        if !(x == start && y == Node::System(m)) {
                                            assert(g1.has_edge(x, y));
                                        } else {
                                            assert(members@[i as int] == m);
                                        }
                                    } else {
                                        assert(members@[i as int] == m);
                                    }
                                }
                            }
                            i += 1;
                        }
                        proof {
                            assert forall|id: SystemId| (exists|j: int| 0 <= j < i && members@[j] == id) <==> members@.contains(id) by {
                                if members@.contains(id) {
                                    let j = choose|j: int| 0 <= j < members@.len() && members@[j] == id;
                                }
                            }
                            assert forall|mm: SystemId| members@.contains(mm) implies self.graph.has_edge(start, Node::System(mm))
                                && self.graph.has_edge(Node::System(mm), end) by {
                                let j = choose|j: int| 0 <= j < members@.len() && members@[j] == mm;
                                assert(self.graph.has_edge(start, Node::System(members@[j])));
                            }
                        }
                        SetKey::Anonymous(members.clone())
                    },
                    SystemSet::Named(id) => SetKey::Named(id.duplicate()),
                };
                let ghost g_end = self.graph;
                proof {
                    if set is Named {
                        assert(self.graph == g_nodes);
                    }
                }
                self.sets.push(key);
                proof {
                    assert(self.sets@[k as int]@ == key_of(*set));
                    assert(!key_views(b0.sets@).contains(key_of(*set))) by {
                        if key_views(b0.sets@).contains(key_of(*set)) {
                            let q = choose|q: int| 0 <= q < key_views(b0.sets@).len() && key_views(b0.sets@)[q] == key_of(*set);
                            assert(b0.sets@[q]@ == key_of(*set));
                        }
                    }
                    assert(key_views(self.sets@) =~= key_views(b0.sets@).push(key_of(*set)));
                    assert forall|x: Node, y: Node| #[trigger] self.graph.has_edge(x, y) implies b0.graph.has_edge(x, y)
                        || builder_member_edge(*self, x, y) by {
                        if !b0.graph.has_edge(x, y) {
                            let members = set->Anonymous_0;
                            let j = choose|j: int|
                                0 <= j < members@.len() && ((x == start && y == Node::System(#[trigger] members@[j])) || (
                                x == Node::System(members@[j]) && y == end));
                            assert(self.sets@[k as int]->Anonymous_0@.contains(members@[j]));
                        }
                    }
                    assert forall|kk: usize, mm: SystemId|
                        kk < self.sets@.len() && self.sets@[kk as int] is Anonymous
                            && #[trigger] self.sets@[kk as int]->Anonymous_0@.contains(mm) implies self.graph.has_edge(
                            Node::SetStart(kk),
                            Node::System(mm),
                        ) && self.graph.has_edge(Node::System(mm), Node::SetEnd(kk)) by {
                        if kk < k {
                            assert(b0.sets@[kk as int] == self.sets@[kk as int]);
                            assert(b0.sets@[kk as int]->Anonymous_0@.contains(mm));
                            assert(b0.wf());
                            assert(b0.graph.has_edge(Node::SetStart(kk), Node::System(mm)));
                            lemma_extends_keeps_edge(b0.graph, g0, Node::SetStart(kk), Node::System(mm));
                            lemma_extends_keeps_edge(b0.graph, g0, Node::System(mm), Node::SetEnd(kk));
                        }
                    }
                    assert forall|kk: usize| kk < self.sets@.len() implies #[trigger] self.graph.has_node(Node::SetStart(kk))
                        && self.graph.has_node(Node::SetEnd(kk)) by {
                        if kk < k {
                            lemma_extends_keeps_node(b0.graph, g0, Node::SetStart(kk));
                            lemma_extends_keeps_node(b0.graph, g0, Node::SetEnd(kk));
                        }
                    }
                    lemma_extends_trans(b0.graph, g0, self.graph);
                }
                (start, end)
            },
        }
    }

    /// Resolves a set of a constraint to the nodes where it starts and ends.
    pub fn populate_set_nodes(&mut self, set: &SystemSet) -> (r: Result<(Node, Node), SchedulingError>)
        requires
            old(self).wf(),
        ensures
            is_empty_anonymous(*set) <==> r is Err,
            r is Err ==> r->Err_0 is EmptyAnonymousSet && *final(self) == *old(self),
            r is Ok ==> {
                &&& final(self).wf()
                &&& final(self).grows_from(old(self))
                &&& r->Ok_0.0 == start_node(final(self).sets@, *set)
                &&& r->Ok_0.1 == end_node(final(self).sets@, *set)
                &&& final(self).graph.has_node(r->Ok_0.0)
                &&& final(self).graph.has_node(r->Ok_0.1)
                &&& !is_single(*set) ==> 0 <= key_index(final(self).sets@, key_of(*set)) < final(self).sets@.len()
                    && final(self).sets@[key_index(final(self).sets@, key_of(*set))]@ == key_of(*set)
                &&& key_views(final(self).sets@) == add_key(key_views(old(self).sets@), *set)
                &&& forall|x: Node, y: Node| #[trigger]
                    final(self).graph.has_edge(x, y) ==> old(self).graph.has_edge(x, y) || builder_member_edge(
                        *final(self),
                        x,
                        y,
                    )
                &&& forall|id: SystemId| #[trigger]
                    final(self).graph.has_node(Node::System(id)) <==> old(self).graph.has_node(Node::System(id))
                        || in_set(*set, id)
            },
    {
        match set {
            SystemSet::Anonymous(systems) => {
                if systems.len() == 0 {
                    Err(SchedulingError::EmptyAnonymousSet)
                } else if systems.len() == 1 {
                    let id = Node::System(systems[0]);
                    let ghost b0 = *self;
                    self.graph.add_node(id);
                    proof {
                        assert forall|k: usize| k < self.sets@.len() implies #[trigger] self.graph.has_node(Node::SetStart(k))
                            && self.graph.has_node(Node::SetEnd(k)) by {
                            lemma_extends_keeps_node(b0.graph, self.graph, Node::SetStart(k));
                            lemma_extends_keeps_node(b0.graph, self.graph, Node::SetEnd(k));
                        }
                        assert forall|k: usize, m: SystemId|
                            k < self.sets@.len() && self.sets@[k as int] is Anonymous
                                && #[trigger] self.sets@[k as int]->Anonymous_0@.contains(m) implies self.graph.has_edge(
                                Node::SetStart(k),
                                Node::System(m),
                            ) && self.graph.has_edge(Node::System(m), Node::SetEnd(k)) by {
                            lemma_extends_keeps_edge(b0.graph, self.graph, Node::SetStart(k), Node::System(m));
                            lemma_extends_keeps_edge(b0.graph, self.graph, Node::System(m), Node::SetEnd(k));
                        }
                        lemma_same_edges_back(b0.graph, self.graph);
                        assert forall|x: SystemId| #[trigger] self.graph.has_node(Node::System(x)) <==> b0.graph.has_node(
                            Node::System(x),
                        ) || in_set(*set, x) by {
                            if in_set(*set, x) {
                                let j = choose|j: int| 0 <= j < systems@.len() && systems@[j] == x;
                                assert(j == 0);
                            }
                            if self.graph.has_node(Node::System(x)) && !b0.graph.has_node(Node::System(x)) {
                                if self.graph.nodes@ == b0.graph.nodes@ {
                                } else {
                                    let i = choose|i: int| 0 <= i < self.graph.nodes@.len() && self.graph.nodes@[i] == Node::System(x);
                                    if i < b0.graph.nodes@.len() {
                                        assert(b0.graph.nodes@[i] == Node::System(x));
                                    }
                                    assert(x == systems@[0]);
                                    assert(systems@.contains(x));
                                }
                            }
                            if b0.graph.has_node(Node::System(x)) {
                                lemma_extends_keeps_node(b0.graph, self.graph, Node::System(x));
                            }
                        }
                    }
                    Ok((id, id))
                } else {
                    Ok(self.populate_set_nodes_inner(set))
                }
            },
            SystemSet::Named(_) => Ok(self.populate_set_nodes_inner(set)),
        }
    }
}

/// An edge between nodes already present adds no node.
pub proof fn lemma_no_new_nodes(bp: WorkingGraph, bn: WorkingGraph, a: Node, b: Node)
    requires
        bn.extends(&bp),
        bp.has_node(a),
        bp.has_node(b),
        forall|n: Node| #[trigger] bn.has_node(n) ==> bp.has_node(n) || n == a || n == b,
    ensures
        forall|n: Node| #[trigger] bn.has_node(n) <==> bp.has_node(n),
{
    assert forall|n: Node| #[trigger] bn.has_node(n) <==> bp.has_node(n) by {
        if bp.has_node(n) {
            lemma_extends_keeps_node(bp, bn, n);
        }
    }
}

/// Adding a marker node adds no system node.
pub proof fn lemma_push_marker(a: WorkingGraph, b: WorkingGraph, n: Node)
    requires
        b.nodes@ == a.nodes@ || b.nodes@ == a.nodes@.push(n),
        !(n is System),
    ensures
        forall|id: SystemId| #[trigger] b.has_node(Node::System(id)) <==> a.has_node(Node::System(id)),
{
    assert forall|id: SystemId| #[trigger] b.has_node(Node::System(id)) <==> a.has_node(Node::System(id)) by {
        if b.nodes@ != a.nodes@ {
            if a.has_node(Node::System(id)) {
                let i = choose|i: int| 0 <= i < a.nodes@.len() && a.nodes@[i] == Node::System(id);
                assert(b.nodes@[i] == Node::System(id));
            }
            if b.has_node(Node::System(id)) {
                let i = choose|i: int| 0 <= i < b.nodes@.len() && b.nodes@[i] == Node::System(id);
                assert(i < a.nodes@.len());
                assert(a.nodes@[i] == Node::System(id));
            }
        }
    }
}

pub proof fn lemma_grows_trans(a: Builder, b: Builder, c: Builder)
    requires
        b.grows_from(&a),
        c.grows_from(&b),
    ensures
        c.grows_from(&a),
{
    lemma_extends_trans(a.graph, b.graph, c.graph);
}

/// Adding nodes alone adds no edge.
pub proof fn lemma_same_edges_back(a: WorkingGraph, b: WorkingGraph)
    requires
        b.extends(&a),
        b.edges@ == a.edges@,
        a.wf(),
    ensures
        forall|x: Node, y: Node| #[trigger] b.has_edge(x, y) ==> a.has_edge(x, y),
{
    assert forall|x: Node, y: Node| #[trigger] b.has_edge(x, y) implies a.has_edge(x, y) by {
        let q = choose|q: int|
            0 <= q < b.edges@.len() && b.nodes@[(#[trigger] b.edges@[q]).0 as int] == x && b.nodes@[b.edges@[q].1 as int]
                == y;
        assert(a.nodes@[a.edges@[q].0 as int] == x);
        assert(a.nodes@[a.edges@[q].1 as int] == y);
    }
}

/// A member edge of a builder stays one in any builder grown from it, and is
/// an edge of the graph.
pub proof fn lemma_member_edge(b1: Builder, b2: Builder, x: Node, y: Node)
    requires
        b2.wf(),
        b2.grows_from(&b1),
        builder_member_edge(b1, x, y),
    ensures
        builder_member_edge(b2, x, y),
        b2.graph.has_edge(x, y),
{
    let (k, m) = choose|k: usize, m: SystemId|
        k < b1.sets@.len() && b1.sets@[k as int] is Anonymous && #[trigger] b1.sets@[k as int]->Anonymous_0@.contains(m)
            && ((x == Node::SetStart(k) && y == Node::System(m)) || (x == Node::System(m) && y == Node::SetEnd(k)));
    assert(b2.sets@[k as int] == b1.sets@[k as int]);
    assert(b2.sets@[k as int]->Anonymous_0@.contains(m));
}

pub proof fn lemma_extends_keeps_node(a: WorkingGraph, b: WorkingGraph, n: Node)
    requires
        b.extends(&a),
        a.has_node(n),
    ensures
        b.has_node(n),
{
    let i = choose|i: int| 0 <= i < a.nodes@.len() && a.nodes@[i] == n;
    assert(b.nodes@[i] == n);
}

pub proof fn lemma_extends_keeps_edge(a: WorkingGraph, b: WorkingGraph, x: Node, y: Node)
    requires
        b.extends(&a),
        a.wf(),
        a.has_edge(x, y),
    ensures
        b.has_edge(x, y),
{
    let k = choose|k: int|
        0 <= k < a.edges@.len() && a.nodes@[(#[trigger] a.edges@[k]).0 as int] == x
            && a.nodes@[a.edges@[k].1 as int] == y;
    assert(b.edges@[k] == a.edges@[k]);
    assert(b.nodes@[(b.edges@[k]).0 as int] == x);
}

pub proof fn lemma_extends_trans(a: WorkingGraph, b: WorkingGraph, c: WorkingGraph)
    requires
        b.extends(&a),
        c.extends(&b),
    ensures
        c.extends(&a),
{
}

} // verus!

verus! {

/// A set key kept in one builder keeps its position in any builder grown from it.
pub proof fn lemma_key_index_stable(b1: Builder, b2: Builder, key: SetKeyView)
    requires
        b2.wf(),
        b2.grows_from(&b1),
        0 <= key_index(b1.sets@, key) < b1.sets@.len(),
        b1.sets@[key_index(b1.sets@, key)]@ == key,
    ensures
        key_index(b2.sets@, key) == key_index(b1.sets@, key),
{
    let i = key_index(b1.sets@, key);
    assert(b2.sets@[i] == b1.sets@[i]);
    let j = key_index(b2.sets@, key);
    assert(b2.sets@[j]@ == key);
    if i != j {
        if i < j {
            assert(b2.sets@[i]@ != b2.sets@[j]@);
        } else {
            assert(b2.sets@[j]@ != b2.sets@[i]@);
        }
    }
}

/// Whether the system is a member of the set, which is anonymous.
pub open spec fn in_set(set: SystemSet, id: SystemId) -> bool {
    set is Anonymous && set->Anonymous_0@.contains(id)
}

/// Whether the constraint names the system: as a member of one of its
/// anonymous sets, or as its condition.
pub open spec fn mentions(c: Constraint, id: SystemId) -> bool {
    match c {
        Constraint::Order { before, after } => in_set(before, id) || in_set(after, id),
        Constraint::Condition { set, condition } => in_set(set, id) || id == condition,
        Constraint::Includes { set, .. } => in_set(set, id),
    }
}

/// An edge between a kept anonymous set's marker and one of its members.
pub open spec fn builder_member_edge(b: Builder, x: Node, y: Node) -> bool {
    exists|k: usize, m: SystemId|
        k < b.sets@.len() && b.sets@[k as int] is Anonymous && #[trigger] b.sets@[k as int]->Anonymous_0@.contains(m)
            && ((x == Node::SetStart(k) && y == Node::System(m)) || (x == Node::System(m) && y == Node::SetEnd(k)))
}

/// The keys of the builder's sets, by views.
pub open spec fn key_views(sets: Seq<SetKey>) -> Seq<SetKeyView> {
    sets.map_values(|k: SetKey| k@)
}

/// The keys after resolving a set: a set that is not a single system gets a
/// key, appended unless it is already there.
pub open spec fn add_key(keys: Seq<SetKeyView>, set: SystemSet) -> Seq<SetKeyView> {
    if is_single(set) || is_empty_anonymous(set) || keys.contains(key_of(set)) {
        keys
    } else {
        keys.push(key_of(set))
    }
}

/// The keys after resolving the sets of a constraint, in the order the
/// loader resolves them.
pub open spec fn constraint_keys(keys: Seq<SetKeyView>, c: Constraint) -> Seq<SetKeyView> {
    match c {
        Constraint::Order { before, after } => add_key(add_key(keys, before), after),
        Constraint::Condition { set, .. } => add_key(keys, set),
        Constraint::Includes { parent_name, set } => add_key(add_key(keys, SystemSet::Named(parent_name)), set),
    }
}

/// The keys of the sets of all constraints, each once, in order of first use.
pub open spec fn set_keys(cs: Seq<Constraint>) -> Seq<SetKeyView>
    decreases cs.len(),
{
    if cs.len() == 0 {
        Seq::empty()
    } else {
        constraint_keys(set_keys(cs.drop_last()), cs.last())
    }
}

/// The edges a constraint asks for, with the builder's set positions.
pub open spec fn c_edge(b: Builder, c: Constraint, x: Node, y: Node) -> bool {
    match c {
        Constraint::Order { before, after } => x == end_node(b.sets@, before) && y == start_node(b.sets@, after),
        Constraint::Condition { set, condition } => x == Node::System(condition) && y == start_node(b.sets@, set),
        Constraint::Includes { parent_name, set } => {
            let parent = SystemSet::Named(parent_name);
            (x == start_node(b.sets@, parent) && y == start_node(b.sets@, set)) || (x == end_node(b.sets@, set)
                && y == end_node(b.sets@, parent))
        },
    }
}

/// Whether the set has its key among the builder's sets, where it needs one.
pub open spec fn resolved(b: Builder, set: SystemSet) -> bool {
    !is_single(set) ==> 0 <= key_index(b.sets@, key_of(set)) < b.sets@.len() && b.sets@[key_index(
        b.sets@,
        key_of(set),
    )]@ == key_of(set)
}

/// Whether the working graph has the edge that the constraint asks for
/// between its sets' end and start nodes (inclusions aside).
pub open spec fn constraint_holds(b: Builder, c: Constraint) -> bool {
    match c {
        Constraint::Order { before, after } => resolved(b, before) && resolved(b, after) && b.graph.has_edge(
            end_node(b.sets@, before),
            start_node(b.sets@, after),
        ),
        Constraint::Condition { set, condition } => resolved(b, set) && b.graph.has_edge(
            Node::System(condition),
            start_node(b.sets@, set),
        ),
        Constraint::Includes { parent_name, set } => {
            let parent = SystemSet::Named(parent_name);
            &&& resolved(b, set)
            &&& resolved(b, parent)
            &&& b.graph.has_edge(start_node(b.sets@, parent), start_node(b.sets@, set))
            &&& b.graph.has_edge(end_node(b.sets@, set), end_node(b.sets@, parent))
        },
    }
}

/// Whether an order on a named set, together with an inclusion of an
/// anonymous set in that named set, orders system `a` before system `b`:
/// a member of the order's other side against a member of the included set.
pub open spec fn orders_through_inclusion(order: Constraint, inclusion: Constraint, a: SystemId, b: SystemId) -> bool {
    match (order, inclusion) {
        (Constraint::Order { before, after }, Constraint::Includes { parent_name, set }) => match set {
            SystemSet::Anonymous(y) => match (before, after) {
                (SystemSet::Anonymous(x), SystemSet::Named(p)) => p@ == parent_name@ && x@.contains(a) && y@.contains(b),
                (SystemSet::Named(p), SystemSet::Anonymous(x)) => p@ == parent_name@ && y@.contains(a) && x@.contains(b),
                _ => false,
            },
            SystemSet::Named(_) => false,
        },
        _ => false,
    }
}

/// Whether the constraint orders system `a` before system `b` through the
/// members of anonymous sets.
pub open spec fn orders_members(c: Constraint, a: SystemId, b: SystemId) -> bool {
    match c {
        Constraint::Order { before, after } => match (before, after) {
            (SystemSet::Anonymous(x), SystemSet::Anonymous(y)) => x@.contains(a) && y@.contains(b),
            _ => false,
        },
        Constraint::Condition { set, condition } => match set {
            SystemSet::Anonymous(y) => a == condition && y@.contains(b),
            SystemSet::Named(_) => false,
        },
        Constraint::Includes { .. } => false,
    }
}

pub proof fn lemma_resolved_stable(b1: Builder, b2: Builder, set: SystemSet)
    requires
        b2.wf(),
        b2.grows_from(&b1),
        resolved(b1, set),
    ensures
        resolved(b2, set),
        start_node(b2.sets@, set) == start_node(b1.sets@, set),
        end_node(b2.sets@, set) == end_node(b1.sets@, set),
{
    lemma_resolution_stable(b1, b2, set);
    if !is_single(set) {
        lemma_key_index_stable(b1, b2, key_of(set));
        assert(b2.sets@[key_index(b1.sets@, key_of(set))] == b1.sets@[key_index(b1.sets@, key_of(set))]);
    }
}

pub proof fn lemma_constraint_holds_stable(b1: Builder, b2: Builder, c: Constraint)
    requires
        b1.wf(),
        b2.wf(),
        b2.grows_from(&b1),
        constraint_holds(b1, c),
    ensures
        constraint_holds(b2, c),
{
    match c {
        Constraint::Order { before, after } => {
            lemma_resolved_stable(b1, b2, before);
            lemma_resolved_stable(b1, b2, after);
            lemma_extends_keeps_edge(b1.graph, b2.graph, end_node(b1.sets@, before), start_node(b1.sets@, after));
        },
        Constraint::Condition { set, condition } => {
            lemma_resolved_stable(b1, b2, set);
            lemma_extends_keeps_edge(b1.graph, b2.graph, Node::System(condition), start_node(b1.sets@, set));
        },
        Constraint::Includes { parent_name, set } => {
            let parent = SystemSet::Named(parent_name);
            lemma_resolved_stable(b1, b2, set);
            lemma_resolved_stable(b1, b2, parent);
            lemma_extends_keeps_edge(b1.graph, b2.graph, start_node(b1.sets@, parent), start_node(b1.sets@, set));
            lemma_extends_keeps_edge(b1.graph, b2.graph, end_node(b1.sets@, set), end_node(b1.sets@, parent));
        },
    }
}

/// An order on a named set and an inclusion in it put a path between the
/// systems they order.
pub proof fn lemma_inclusion_reaches(b: Builder, order: Constraint, inclusion: Constraint, x: SystemId, y: SystemId)
    requires
        b.wf(),
        constraint_holds(b, order),
        constraint_holds(b, inclusion),
        orders_through_inclusion(order, inclusion, x, y),
    ensures
        reaches(&b.graph, Node::System(x), Node::System(y)),
{
    let g = &b.graph;
    match (order, inclusion) {
        (Constraint::Order { before, after }, Constraint::Includes { parent_name, set }) => {
            let parent = SystemSet::Named(parent_name);
            if before is Anonymous {
                assert(key_of(after) == key_of(parent));
                assert(start_node(b.sets@, after) == start_node(b.sets@, parent));
                lemma_member_reaches(b, before, x);
                lemma_member_reaches(b, set, y);
                lemma_reaches_edge(g, end_node(b.sets@, before), start_node(b.sets@, after));
                lemma_reaches_edge(g, start_node(b.sets@, parent), start_node(b.sets@, set));
                lemma_reaches_trans(g, Node::System(x), end_node(b.sets@, before), start_node(b.sets@, after));
                lemma_reaches_trans(g, Node::System(x), start_node(b.sets@, parent), start_node(b.sets@, set));
                lemma_reaches_trans(g, Node::System(x), start_node(b.sets@, set), Node::System(y));
            } else {
                assert(key_of(before) == key_of(parent));
                assert(end_node(b.sets@, before) == end_node(b.sets@, parent));
                lemma_member_reaches(b, set, x);
                lemma_member_reaches(b, after, y);
                lemma_reaches_edge(g, end_node(b.sets@, set), end_node(b.sets@, parent));
                lemma_reaches_edge(g, end_node(b.sets@, before), start_node(b.sets@, after));
                lemma_reaches_trans(g, Node::System(x), end_node(b.sets@, set), end_node(b.sets@, parent));
                lemma_reaches_trans(g, Node::System(x), end_node(b.sets@, before), start_node(b.sets@, after));
                lemma_reaches_trans(g, Node::System(x), start_node(b.sets@, after), Node::System(y));
            }
        },
        _ => {},
    }
}

/// A member of a resolved anonymous set reaches the set's end node, and the
/// set's start node reaches each member.
pub proof fn lemma_member_reaches(b: Builder, set: SystemSet, m: SystemId)
    requires
        b.wf(),
        resolved(b, set),
        set is Anonymous,
        set->Anonymous_0@.contains(m),
    ensures
        reaches(&b.graph, Node::System(m), end_node(b.sets@, set)),
        reaches(&b.graph, start_node(b.sets@, set), Node::System(m)),
{
    let x = set->Anonymous_0@;
    if is_single(set) {
        assert(x[0] == m);
        lemma_reaches_refl(&b.graph, Node::System(m));
    } else {
        let idx = key_index(b.sets@, key_of(set));
        assert(b.sets@[idx]@ == SetKeyView::Anonymous(x.to_multiset()));
        let v = b.sets@[idx]->Anonymous_0;
        assert(v@.to_multiset() == x.to_multiset());
        assert(x.to_multiset().count(m) > 0);
        assert(v@.contains(m));
        assert(b.sets@.len() == b.sets.len());
        let k = idx as usize;
        assert(k as int == idx);
        assert(b.sets@[k as int]->Anonymous_0@.contains(m));
        lemma_reaches_edge(&b.graph, Node::System(m), Node::SetEnd(k));
        lemma_reaches_edge(&b.graph, Node::SetStart(k), Node::System(m));
    }
}

/// A constraint that orders two members puts a path between their nodes.
pub proof fn lemma_constraint_reaches(b: Builder, c: Constraint, x: SystemId, y: SystemId)
    requires
        b.wf(),
        constraint_holds(b, c),
        orders_members(c, x, y),
    ensures
        reaches(&b.graph, Node::System(x), Node::System(y)),
{
    match c {
        Constraint::Order { before, after } => {
            lemma_member_reaches(b, before, x);
            lemma_member_reaches(b, after, y);
            lemma_reaches_edge(&b.graph, end_node(b.sets@, before), start_node(b.sets@, after));
            lemma_reaches_trans(&b.graph, Node::System(x), end_node(b.sets@, before), start_node(b.sets@, after));
            lemma_reaches_trans(&b.graph, Node::System(x), start_node(b.sets@, after), Node::System(y));
        },
        Constraint::Condition { set, condition } => {
            lemma_member_reaches(b, set, y);
            lemma_reaches_edge(&b.graph, Node::System(condition), start_node(b.sets@, set));
            lemma_reaches_trans(&b.graph, Node::System(x), start_node(b.sets@, set), Node::System(y));
        },
        Constraint::Includes { .. } => {},
    }
}

/// A set resolves to the same nodes in any builder grown from one where it was resolved.
pub proof fn lemma_resolution_stable(b1: Builder, b2: Builder, set: SystemSet)
    requires
        b2.wf(),
        b2.grows_from(&b1),
        !is_single(set) ==> 0 <= key_index(b1.sets@, key_of(set)) < b1.sets@.len() && b1.sets@[key_index(
            b1.sets@,
            key_of(set),
        )]@ == key_of(set),
    ensures
        start_node(b2.sets@, set) == start_node(b1.sets@, set),
        end_node(b2.sets@, set) == end_node(b1.sets@, set),
{
    if !is_single(set) {
        lemma_key_index_stable(b1, b2, key_of(set));
    }
}

impl Builder {
    /// Adds an edge to the working graph.
    fn add_edge(&mut self, a: Node, b: Node)
        requires
            old(self).wf(),
        ensures
            final(self).wf(),
            final(self).grows_from(old(self)),
            final(self).sets == old(self).sets,
            final(self).graph.has_edge(a, b),
            final(self).graph.has_node(a),
            final(self).graph.has_node(b),
            forall|x: Node, y: Node| #[trigger]
                final(self).graph.has_edge(x, y) ==> old(self).graph.has_edge(x, y) || (x == a && y == b),
            forall|n: Node| #[trigger] final(self).graph.has_node(n) ==> old(self).graph.has_node(n) || n == a || n == b,
    {
        let ghost b0 = *self;
        self.graph.add_edge(a, b);
        proof {
            assert forall|k: usize| k < self.sets@.len() implies #[trigger] self.graph.has_node(Node::SetStart(k))
                && self.graph.has_node(Node::SetEnd(k)) by {
                lemma_extends_keeps_node(b0.graph, self.graph, Node::SetStart(k));
                lemma_extends_keeps_node(b0.graph, self.graph, Node::SetEnd(k));
            }
            assert forall|k: usize, m: SystemId|
                k < self.sets@.len() && self.sets@[k as int] is Anonymous
                    && #[trigger] self.sets@[k as int]->Anonymous_0@.contains(m) implies self.graph.has_edge(
                    Node::SetStart(k),
                    Node::System(m),
                ) && self.graph.has_edge(Node::System(m), Node::SetEnd(k)) by {
                lemma_extends_keeps_edge(b0.graph, self.graph, Node::SetStart(k), Node::System(m));
                lemma_extends_keeps_edge(b0.graph, self.graph, Node::System(m), Node::SetEnd(k));
            }
        }
    }

    /// Adds the edges that a constraint asks for:
    /// an order links the end of the first set to the start of the second;
    /// a condition links the condition system to the start of the set;
    /// an inclusion nests the set between the start and end of the parent.
    pub fn add_constraint(&mut self, constraint: &Constraint) -> (r: Result<(), SchedulingError>)
        requires
            old(self).wf(),
        ensures
            names_empty_set(*constraint) <==> r is Err,
            r is Err ==> r->Err_0 is EmptyAnonymousSet,
            r is Ok ==> {
                &&& final(self).wf()
                &&& final(self).grows_from(old(self))
                &&& constraint_holds(*final(self), *constraint)
                &&& key_views(final(self).sets@) == constraint_keys(key_views(old(self).sets@), *constraint)
                &&& forall|id: SystemId| #[trigger]
                    final(self).graph.has_node(Node::System(id)) <==> old(self).graph.has_node(Node::System(id))
                        || mentions(*constraint, id)
                &&& forall|x: Node, y: Node| #[trigger]
                    final(self).graph.has_edge(x, y) <==> old(self).graph.has_edge(x, y) || c_edge(
                        *final(self),
                        *constraint,
                        x,
                        y,
                    ) || builder_member_edge(*final(self), x, y)
                &&& match *constraint {
                    Constraint::Order { before, after } => final(self).graph.has_edge(
                        end_node(final(self).sets@, before),
                        start_node(final(self).sets@, after),
                    ),
                    Constraint::Condition { set, condition } => final(self).graph.has_edge(
                        Node::System(condition),
                        start_node(final(self).sets@, set),
                    ),
                    Constraint::Includes { parent_name, set } => {
                        let parent = SystemSet::Named(parent_name);
                        &&& final(self).graph.has_edge(
                            start_node(final(self).sets@, parent),
                            start_node(final(self).sets@, set),
                        )
                        &&& final(self).graph.has_edge(
                            end_node(final(self).sets@, set),
                            end_node(final(self).sets@, parent),
                        )
                    },
                }
            },
    {
        match constraint {
            Constraint::Order { before, after } => {
                let ghost b0 = *self;
                if let SystemSet::Anonymous(v) = after {
                    if v.len() == 0 {
                        return Err(SchedulingError::EmptyAnonymousSet);
                    }
                }
                let (_, end_a) = self.populate_set_nodes(before)?;
                let ghost b1 = *self;
                let (start_b, _) = match self.populate_set_nodes(after) {
                    Ok(p) => p,
                    Err(e) => {
                        return Err(e);
                    },
                };
                let ghost b2 = *self;
                self.add_edge(end_a, start_b);
                proof {
                    lemma_resolved_stable(b1, *self, *before);
                    lemma_resolved_stable(b2, *self, *after);
                    lemma_grows_trans(b0, b1, b2);
                    lemma_grows_trans(b0, b2, *self);
                    lemma_grows_trans(b1, b2, *self);
                    lemma_extends_keeps_node(b1.graph, b2.graph, end_a);
                    lemma_no_new_nodes(b2.graph, self.graph, end_a, start_b);
                    assert forall|id: SystemId| #[trigger] self.graph.has_node(Node::System(id)) <==> b0.graph.has_node(
                        Node::System(id),
                    ) || mentions(*constraint, id) by {
                        assert(self.graph.has_node(Node::System(id)) <==> b2.graph.has_node(Node::System(id)));
                        assert(b2.graph.has_node(Node::System(id)) <==> b1.graph.has_node(Node::System(id)) || in_set(*after, id));
                        assert(b1.graph.has_node(Node::System(id)) <==> b0.graph.has_node(Node::System(id)) || in_set(*before, id));
                    }
                    assert forall|x: Node, y: Node| #[trigger] self.graph.has_edge(x, y) <==> b0.graph.has_edge(x, y)
                        || c_edge(*self, *constraint, x, y) || builder_member_edge(*self, x, y) by {
                        if self.graph.has_edge(x, y) && !(x == end_a && y == start_b) {
                            assert(b2.graph.has_edge(x, y));
                            if !b1.graph.has_edge(x, y) {
                                lemma_member_edge(b2, *self, x, y);
                            } else if !b0.graph.has_edge(x, y) {
                                lemma_member_edge(b1, *self, x, y);
                            }
                        }
                        if b0.graph.has_edge(x, y) {
                            lemma_extends_keeps_edge(b0.graph, self.graph, x, y);
                        }
                        if builder_member_edge(*self, x, y) {
                            lemma_member_edge(*self, *self, x, y);
                        }
                    }
                }
                Ok(())
            },
            Constraint::Condition { set, condition } => {
                let ghost b0 = *self;
                let (start_set, _) = self.populate_set_nodes(set)?;
                let ghost b1 = *self;
                self.add_edge(Node::System(*condition), start_set);
                proof {
                    lemma_resolved_stable(b1, *self, *set);
                    lemma_grows_trans(b0, b1, *self);
                    assert forall|id: SystemId| #[trigger] self.graph.has_node(Node::System(id)) <==> b0.graph.has_node(
                        Node::System(id),
                    ) || mentions(*constraint, id) by {
                        assert(b1.graph.has_node(Node::System(id)) <==> b0.graph.has_node(Node::System(id)) || in_set(*set, id));
                        if b1.graph.has_node(Node::System(id)) {
                            lemma_extends_keeps_node(b1.graph, self.graph, Node::System(id));
                        }
                        if self.graph.has_node(Node::System(id)) && !b1.graph.has_node(Node::System(id)) {
                            assert(Node::System(id) == Node::System(*condition) || Node::System(id) == start_set);
                        }
                    }
                    assert forall|x: Node, y: Node| #[trigger] self.graph.has_edge(x, y) <==> b0.graph.has_edge(x, y)
                        || c_edge(*self, *constraint, x, y) || builder_member_edge(*self, x, y) by {
                        if self.graph.has_edge(x, y) && !(x == Node::System(*condition) && y == start_set) {
                            assert(b1.graph.has_edge(x, y));
                            if !b0.graph.has_edge(x, y) {
                                lemma_member_edge(b1, *self, x, y);
                            }
                        }
                        if b0.graph.has_edge(x, y) {
                            lemma_extends_keeps_edge(b0.graph, self.graph, x, y);
                        }
                        if builder_member_edge(*self, x, y) {
                            lemma_member_edge(*self, *self, x, y);
                        }
                    }
                }
                Ok(())
            },
            Constraint::Includes { parent_name, set } => {
                if let SystemSet::Anonymous(v) = set {
                    if v.len() == 0 {
                        return Err(SchedulingError::EmptyAnonymousSet);
                    }
                }
                let ghost b0 = *self;
                let parent = SystemSet::Named(parent_name.duplicate());
                let (start_parent, end_parent) = self.populate_set_nodes_inner(&parent);
                let ghost b1 = *self;
                let (start_set, end_set) = match self.populate_set_nodes(set) {
                    Ok(p) => p,
                    Err(e) => {
                        return Err(e);
                    },
                };
                let ghost b2 = *self;
                self.add_edge(start_parent, start_set);
                let ghost b3 = *self;
                self.add_edge(end_set, end_parent);
                proof {
                    lemma_resolved_stable(b1, *self, parent);
                    lemma_resolved_stable(b2, *self, *set);
                    lemma_extends_keeps_edge(b3.graph, self.graph, start_parent, start_set);
                    assert(parent == SystemSet::Named(*parent_name));
                    lemma_grows_trans(b0, b1, b2);
                    lemma_grows_trans(b0, b2, b3);
                    lemma_grows_trans(b0, b3, *self);
                    lemma_grows_trans(b1, b2, b3);
                    lemma_grows_trans(b1, b3, *self);
                    lemma_grows_trans(b2, b3, *self);
                    lemma_extends_keeps_node(b1.graph, b2.graph, start_parent);
                    lemma_extends_keeps_node(b1.graph, b2.graph, end_parent);
                    lemma_no_new_nodes(b2.graph, b3.graph, start_parent, start_set);
                    lemma_extends_keeps_node(b2.graph, b3.graph, end_parent);
                    lemma_extends_keeps_node(b2.graph, b3.graph, end_set);
                    lemma_no_new_nodes(b3.graph, self.graph, end_set, end_parent);
                    assert forall|id: SystemId| #[trigger] self.graph.has_node(Node::System(id)) <==> b0.graph.has_node(
                        Node::System(id),
                    ) || mentions(*constraint, id) by {
                        assert(self.graph.has_node(Node::System(id)) <==> b3.graph.has_node(Node::System(id)));
                        assert(b3.graph.has_node(Node::System(id)) <==> b2.graph.has_node(Node::System(id)));
                        assert(b2.graph.has_node(Node::System(id)) <==> b1.graph.has_node(Node::System(id)) || in_set(*set, id));
                        assert(b1.graph.has_node(Node::System(id)) <==> b0.graph.has_node(Node::System(id)) || in_set(parent, id));
                    }
                    assert forall|x: Node, y: Node| #[trigger] self.graph.has_edge(x, y) <==> b0.graph.has_edge(x, y)
                        || c_edge(*self, *constraint, x, y) || builder_member_edge(*self, x, y) by {
                        if self.graph.has_edge(x, y) && !(x == end_set && y == end_parent) && !(x == start_parent
                            && y == start_set) {
                            assert(b3.graph.has_edge(x, y));
                            assert(b2.graph.has_edge(x, y));
                            if !b1.graph.has_edge(x, y) {
                                lemma_member_edge(b2, *self, x, y);
                            } else if !b0.graph.has_edge(x, y) {
                                lemma_member_edge(b1, *self, x, y);
                            }
                        }
                        if b0.graph.has_edge(x, y) {
                            lemma_extends_keeps_edge(b0.graph, self.graph, x, y);
                        }
                        if builder_member_edge(*self, x, y) {
                            lemma_member_edge(*self, *self, x, y);
                        }
                    }
                }
                Ok(())
            },
        }
    }
}

impl Builder {
    /// Adds the node of a declared system.
    pub fn add_system(&mut self, id: SystemId)
        requires
            old(self).wf(),
        ensures
            final(self).wf(),
            final(self).grows_from(old(self)),
            final(self).graph.has_node(Node::System(id)),
            final(self).graph.edges@ == old(self).graph.edges@,
            final(self).sets == old(self).sets,
            forall|x: SystemId| #[trigger]
                final(self).graph.has_node(Node::System(x)) <==> old(self).graph.has_node(Node::System(x)) || x == id,
    {
        let ghost b0 = *self;
        self.graph.add_node(Node::System(id));
        proof {
            assert forall|k: usize| k < self.sets@.len() implies #[trigger] self.graph.has_node(Node::SetStart(k))
                && self.graph.has_node(Node::SetEnd(k)) by {
                lemma_extends_keeps_node(b0.graph, self.graph, Node::SetStart(k));
                lemma_extends_keeps_node(b0.graph, self.graph, Node::SetEnd(k));
            }
            assert forall|k: usize, m: SystemId|
                k < self.sets@.len() && self.sets@[k as int] is Anonymous
                    && #[trigger] self.sets@[k as int]->Anonymous_0@.contains(m) implies self.graph.has_edge(
                    Node::SetStart(k),
                    Node::System(m),
                ) && self.graph.has_edge(Node::System(m), Node::SetEnd(k)) by {
                lemma_extends_keeps_edge(b0.graph, self.graph, Node::SetStart(k), Node::System(m));
                lemma_extends_keeps_edge(b0.graph, self.graph, Node::System(m), Node::SetEnd(k));
            }
        }
    }
}

/// The position of a key among the keys.
pub open spec fn key_pos(keys: Seq<SetKeyView>, key: SetKeyView) -> int {
    choose|k: int| 0 <= k < keys.len() && keys[k] == key
}

/// The node where a set starts, with the given keys.
pub open spec fn start_at(keys: Seq<SetKeyView>, set: SystemSet) -> Node {
    if is_single(set) {
        Node::System(single_member(set))
    } else {
        Node::SetStart(key_pos(keys, key_of(set)) as usize)
    }
}

/// The node where a set ends, with the given keys.
pub open spec fn end_at(keys: Seq<SetKeyView>, set: SystemSet) -> Node {
    if is_single(set) {
        Node::System(single_member(set))
    } else {
        Node::SetEnd(key_pos(keys, key_of(set)) as usize)
    }
}

/// The edges a constraint asks for: the end of the first set of an order to
/// the start of the second; the condition system to the start of its set;
/// for an inclusion, the parent's start to the set's start and the set's end
/// to the parent's end.
pub open spec fn constraint_edge(keys: Seq<SetKeyView>, c: Constraint, x: Node, y: Node) -> bool {
    match c {
        Constraint::Order { before, after } => x == end_at(keys, before) && y == start_at(keys, after),
        Constraint::Condition { set, condition } => x == Node::System(condition) && y == start_at(keys, set),
        Constraint::Includes { parent_name, set } => {
            let parent = SystemSet::Named(parent_name);
            (x == start_at(keys, parent) && y == start_at(keys, set)) || (x == end_at(keys, set) && y == end_at(
                keys,
                parent,
            ))
        },
    }
}

/// The edges that enforce membership: from an anonymous set's start to each
/// member, and from each member to the set's end.
pub open spec fn member_edge(keys: Seq<SetKeyView>, x: Node, y: Node) -> bool {
    exists|k: usize, m: SystemId|
        k < keys.len() && keys[k as int] is Anonymous && #[trigger] keys[k as int]->Anonymous_0.count(m) > 0 && ((x
            == Node::SetStart(k) && y == Node::System(m)) || (x == Node::System(m) && y == Node::SetEnd(k)))
}

/// The edges of the working graph of a sequence of constraints: the edges
/// each constraint asks for and the membership edges of its anonymous sets,
/// with sets numbered in order of first use.
pub open spec fn sched_edge(cs: Seq<Constraint>, x: Node, y: Node) -> bool {
    (exists|i: int| 0 <= i < cs.len() && #[trigger] constraint_edge(set_keys(cs), cs[i], x, y)) || member_edge(
        set_keys(cs),
        x,
        y,
    )
}

/// Whether the graph has exactly the edges of the working graph of the constraints.
pub open spec fn is_working_graph(cs: Seq<Constraint>, g: WorkingGraph) -> bool {
    forall|x: Node, y: Node| #[trigger] g.has_edge(x, y) <==> sched_edge(cs, x, y)
}

proof fn lemma_key_pos(b: Builder, key: SetKeyView)
    requires
        b.wf(),
        0 <= key_index(b.sets@, key) < b.sets@.len(),
        b.sets@[key_index(b.sets@, key)]@ == key,
    ensures
        key_pos(key_views(b.sets@), key) == key_index(b.sets@, key),
{
    let keys = key_views(b.sets@);
    let i = key_index(b.sets@, key);
    assert(keys[i] == key);
    let j = key_pos(keys, key);
    assert(keys[j] == key);
    assert(b.sets@[j]@ == key);
    if i != j {
        if i < j {
            assert(b.sets@[i]@ != b.sets@[j]@);
        } else {
            assert(b.sets@[j]@ != b.sets@[i]@);
        }
    }
}

proof fn lemma_nodes_at(b: Builder, set: SystemSet)
    requires
        b.wf(),
        resolved(b, set),
    ensures
        start_node(b.sets@, set) == start_at(key_views(b.sets@), set),
        end_node(b.sets@, set) == end_at(key_views(b.sets@), set),
{
    if !is_single(set) {
        lemma_key_pos(b, key_of(set));
    }
}

/// With its keys, a builder's constraint edges and membership edges are
/// those of the working graph.
pub proof fn lemma_edges_at(b: Builder, c: Constraint, x: Node, y: Node)
    requires
        b.wf(),
        constraint_holds(b, c),
    ensures
        c_edge(b, c, x, y) <==> constraint_edge(key_views(b.sets@), c, x, y),
{
    match c {
        Constraint::Order { before, after } => {
            lemma_nodes_at(b, before);
            lemma_nodes_at(b, after);
        },
        Constraint::Condition { set, .. } => {
            lemma_nodes_at(b, set);
        },
        Constraint::Includes { parent_name, set } => {
            lemma_nodes_at(b, set);
            lemma_nodes_at(b, SystemSet::Named(parent_name));
        },
    }
}

pub proof fn lemma_member_edges_at(b: Builder, x: Node, y: Node)
    ensures
        builder_member_edge(b, x, y) <==> member_edge(key_views(b.sets@), x, y),
{
    let keys = key_views(b.sets@);
    if builder_member_edge(b, x, y) {
        let (k, m) = choose|k: usize, m: SystemId|
            k < b.sets@.len() && b.sets@[k as int] is Anonymous && #[trigger] b.sets@[k as int]->Anonymous_0@.contains(m)
                && ((x == Node::SetStart(k) && y == Node::System(m)) || (x == Node::System(m) && y == Node::SetEnd(k)));
        assert(keys[k as int] == b.sets@[k as int]@);
        assert(keys[k as int]->Anonymous_0.count(m) > 0);
    }
    if member_edge(keys, x, y) {
        let (k, m) = choose|k: usize, m: SystemId|
            k < keys.len() && keys[k as int] is Anonymous && #[trigger] keys[k as int]->Anonymous_0.count(m) > 0 && ((x
                == Node::SetStart(k) && y == Node::System(m)) || (x == Node::System(m) && y == Node::SetEnd(k)));
        assert(keys[k as int] == b.sets@[k as int]@);
        assert(b.sets@[k as int] is Anonymous);
        assert(b.sets@[k as int]->Anonymous_0@.to_multiset().count(m) > 0);
        assert(b.sets@[k as int]->Anonymous_0@.contains(m));
    }
}

/// The edges a constraint asks for stay the same as the builder grows.
pub proof fn lemma_c_edge_stable(b1: Builder, b2: Builder, c: Constraint, x: Node, y: Node)
    requires
        b1.wf(),
        b2.wf(),
        b2.grows_from(&b1),
        constraint_holds(b1, c),
    ensures
        c_edge(b1, c, x, y) <==> c_edge(b2, c, x, y),
{
    match c {
        Constraint::Order { before, after } => {
            lemma_resolved_stable(b1, b2, before);
            lemma_resolved_stable(b1, b2, after);
        },
        Constraint::Condition { set, .. } => {
            lemma_resolved_stable(b1, b2, set);
        },
        Constraint::Includes { parent_name, set } => {
            lemma_resolved_stable(b1, b2, set);
            lemma_resolved_stable(b1, b2, SystemSet::Named(parent_name));
        },
    }
}

} // verus!
