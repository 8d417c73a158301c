use vstd::prelude::*;
use crate::node::{Node, mix, mix_into, silence, silent_buffer};

verus! {

/// A stable handle of a node, valid for the graph that returned it.
/// Handles are never reused, so a handle of a removed node stays unknown.
#[derive(Clone, Copy, Debug, PartialEq, Eq, Structural)]
pub struct NodeIndex(pub usize);

/// Why a graph operation was refused.
#[derive(Clone, Copy, Debug, PartialEq, Eq, Structural)]
pub enum GraphError {
    /// The handle does not refer to a live node of this graph.
    UnknownNode,
    /// The connection would close a cycle.
    CycleError,
}

/// `s` with every occurrence of `a` taken out, order kept.
pub open spec fn without(s: Seq<usize>, a: usize) -> Seq<usize>
    decreases s.len(),
{
    if s.len() == 0 {
        s
    } else {
        let w = without(s.drop_last(), a);
        if s.last() == a {
            w
        } else {
            w.push(s.last())
        }
    }
}

proof fn lemma_push_contains(d: Seq<usize>, e: usize)
    ensures
        forall|x: usize| #[trigger] d.push(e).contains(x) <==> (d.contains(x) || x == e),
{
    assert forall|x: usize| #[trigger] d.push(e).contains(x) <==> (d.contains(x) || x == e) by {
        if d.push(e).contains(x) {
            let j = choose|j: int| 0 <= j < d.len() + 1 && d.push(e)[j] == x;
            if j < d.len() {
                assert(d[j] == x);
            }
        }
        if d.contains(x) {
            let j = choose|j: int| 0 <= j < d.len() && d[j] == x;
            assert(d.push(e)[j] == x);
        }
        if x == e {
            assert(d.push(e)[d.len() as int] == x);
        }
    }
}

/// Taking `a` out of `s` keeps the other elements and their uniqueness.
pub proof fn lemma_without(s: Seq<usize>, a: usize)
    ensures
        forall|x: usize| #[trigger] without(s, a).contains(x) <==> (s.contains(x) && x != a),
        s.no_duplicates() ==> without(s, a).no_duplicates(),
        !s.contains(a) ==> without(s, a) == s,
    decreases s.len(),
{
    if s.len() > 0 {
        let d = s.drop_last();
        let e = s.last();
        let w = without(d, a);
        lemma_without(d, a);
        assert(s =~= d.push(e));
        lemma_push_contains(d, e);
        lemma_push_contains(w, e);
        if s.no_duplicates() {
            assert(d.no_duplicates());
            if e != a {
                assert(!d.contains(e)) by {
                    if d.contains(e) {
                        let j = choose|j: int| 0 <= j < d.len() && d[j] == e;
                        assert(s[j] == s[s.len() - 1]);
                    }
                }
                assert(!w.contains(e));
                assert(w.push(e).no_duplicates()) by {
                    assert forall|i: int, k: int| 0 <= i < k < w.len() + 1 implies w.push(e)[i] != w.push(e)[k] by {
                        if k == w.len() {
                            assert(w.contains(w[i]));
                        } else {
                            assert(w[i] != w[k]);
                        }
                    }
                }
            }
        }
        if !s.contains(a) {
            assert(!d.contains(a));
        }
    }
}

proof fn lemma_without_len(s: Seq<usize>, a: usize)
    ensures
        without(s, a).len() <= s.len(),
        without(s, a).len() < s.len() <==> s.contains(a),
    decreases s.len(),
{
    if s.len() > 0 {
        let d = s.drop_last();
        lemma_without_len(d, a);
        assert(s =~= d.push(s.last()));
        lemma_push_contains(d, s.last());
    }
}

/// The elements of `src` other than `a`, in order.
fn without_vec(src: &Vec<usize>, a: usize) -> (r: Vec<usize>)
    ensures
        r@ == without(src@, a),
{
    let mut r: Vec<usize> = Vec::new();
    let mut j: usize = 0;
    while j < src.len()
        invariant
            0 <= j <= src@.len(),
            r@ == without(src@.take(j as int), a),
        decreases src@.len() - j,
    {
        proof {
            assert(src@.take(j as int + 1).drop_last() =~= src@.take(j as int));
        }
        if src[j] != a {
            r.push(src[j]);
        }
        j = j + 1;
    }
    proof {
        assert(src@.take(j as int) =~= src@);
    }
    r
}

/// `s` after appending each of `xs` in turn, skipping those already present.
pub open spec fn push_new(s: Seq<usize>, xs: Seq<usize>) -> Seq<usize>
    decreases xs.len(),
{
    if xs.len() == 0 {
        s
    } else {
        let p = push_new(s, xs.drop_last());
        if p.contains(xs.last()) {
            p
        } else {
            p.push(xs.last())
        }
    }
}

proof fn lemma_push_no_dup(w: Seq<usize>, a: usize)
    requires
        w.no_duplicates(),
        !w.contains(a),
    ensures
        w.push(a).no_duplicates(),
{
    assert forall|p: int, q: int| 0 <= p < q < w.len() + 1 implies w.push(a)[p] != w.push(a)[q] by {
        if q == w.len() {
            assert(w.contains(w[p]));
        }
    }
}

/// An audio graph: an arena of nodes, the signal edges between them and an
/// optional master node whose output is rendered.
pub struct Graph {
    nodes: Vec<Option<Node>>,
    inputs: Vec<Vec<usize>>,
    consumers: Vec<Vec<usize>>,
    master: Option<usize>,
    /// Every edge runs from a lower to a higher rank: the witness of acyclicity.
    rank: Ghost<Seq<nat>>,
}

impl Graph {
    /// Number of handles ever given out.
    pub closed spec fn slots(self) -> nat {
        self.nodes@.len()
    }

    /// The node behind handle index `i`, if it is live.
    pub closed spec fn node_at(self, i: int) -> Option<Node> {
        if 0 <= i < self.nodes@.len() {
            self.nodes@[i]
        } else {
            None
        }
    }

    pub open spec fn live(self, i: int) -> bool {
        self.node_at(i) is Some
    }

    /// The direct inputs of node `i`, in the order they were connected.
    pub closed spec fn inputs_of(self, i: int) -> Seq<usize> {
        if 0 <= i < self.inputs@.len() {
            self.inputs@[i]@
        } else {
            Seq::empty()
        }
    }

    /// The nodes that `i` feeds directly, in the order they were connected.
    pub closed spec fn consumers_of(self, i: int) -> Seq<usize> {
        if 0 <= i < self.consumers@.len() {
            self.consumers@[i]@
        } else {
            Seq::empty()
        }
    }

    /// Each edge is recorded at both ends: `a` is an input of `c` exactly
    /// when `c` is a consumer of `a`.
    closed spec fn links_ok(self) -> bool {
        &&& self.consumers@.len() == self.nodes@.len()
        &&& forall|a: int, j: int|
            0 <= a < self.nodes@.len() && 0 <= j < self.consumers@[a]@.len() ==> #[trigger] self.consumers@[a]@[j]
                < self.nodes@.len()
        &&& forall|a: int| 0 <= a < self.nodes@.len() ==> #[trigger] self.consumers@[a]@.no_duplicates()
        &&& forall|a: int, c: int|
            #![trigger self.consumers@[a]@.contains(c as usize)]
            #![trigger self.inputs@[c]@.contains(a as usize)]
            0 <= a < self.nodes@.len() && 0 <= c < self.nodes@.len() ==> (self.consumers@[a]@.contains(c as usize)
                <==> self.inputs@[c]@.contains(a as usize))
    }

    pub closed spec fn master_of(self) -> Option<usize> {
        self.master
    }

    pub closed spec fn rank_of(self, i: int) -> nat {
        self.rank@[i]
    }

    /// `s` holds every input of each of its members.
    pub open spec fn closed_under_inputs(self, s: Set<int>) -> bool {
        forall|x: int, j: int|
            s.contains(x) && 0 <= j < self.inputs_of(x).len() ==> s.contains(
                #[trigger] self.inputs_of(x)[j] as int,
            )
    }

    /// `x` is `y` or feeds `y` through a chain of edges: it lies in every
    /// input-closed set that holds `y`.
    pub open spec fn feeds(self, x: int, y: int) -> bool {
        forall|s: Set<int>| #[trigger] self.closed_under_inputs(s) && s.contains(y) ==> s.contains(x)
    }

    pub closed spec fn wf(self) -> bool {
        &&& self.inputs@.len() == self.nodes@.len()
        &&& self.rank@.len() == self.nodes@.len()
        &&& forall|c: int, j: int|
            0 <= c < self.nodes@.len() && 0 <= j < self.inputs@[c]@.len() ==> {
                let a = #[trigger] self.inputs@[c]@[j];
                &&& a < self.nodes@.len()
                &&& self.nodes@[a as int] is Some
                &&& self.rank@[a as int] < self.rank@[c]
            }
        &&& forall|c: int| 0 <= c < self.nodes@.len() ==> #[trigger] self.inputs@[c]@.no_duplicates()
        &&& forall|c: int|
            0 <= c < self.nodes@.len() && self.nodes@[c] is None ==> #[trigger] self.inputs@[c]@.len() == 0
        &&& self.master is Some ==> {
            let m = self.master->0;
            m < self.nodes@.len() && self.nodes@[m as int] is Some
        }
        &&& self.links_ok()
    }

    /// A live handle lies below `slots()`.
    pub proof fn lemma_live_bounds(self, i: int)
        requires
            self.live(i),
        ensures
            0 <= i < self.slots(),
    {
    }

    /// Both ends of the graph record the same edges.
    pub proof fn lemma_links(self, a: usize, c: usize)
        requires
            self.wf(),
        ensures
            self.consumers_of(a as int).contains(c) <==> self.inputs_of(c as int).contains(a),
    {
        if a < self.slots() && c < self.slots() {
            assert(self.consumers@[a as int]@.contains(((c as int) as usize)) <==> self.inputs@[c as int]@.contains(
                ((a as int) as usize)));
        } else if self.consumers_of(a as int).contains(c) {
            let j = choose|j: int| 0 <= j < self.consumers_of(a as int).len() && self.consumers_of(a as int)[j] == c;
            assert(self.consumers@[a as int]@[j] < self.slots());
        } else if self.inputs_of(c as int).contains(a) {
            let j = choose|j: int| 0 <= j < self.inputs_of(c as int).len() && self.inputs_of(c as int)[j] == a;
            assert(self.inputs@[c as int]@[j] < self.slots());
        }
    }

    /// What `connect(input, consumer)` answers.
    pub open spec fn connect_result(self, input: int, consumer: int) -> Result<(), GraphError> {
        if !self.live(input) || !self.live(consumer) {
            Err(GraphError::UnknownNode)
        } else if self.feeds(consumer, input) {
            Err(GraphError::CycleError)
        } else {
            Ok(())
        }
    }

    /// The output of node `n` within one render of `len` samples: its inputs'
    /// outputs mixed over silence, then processed by `n`.
    pub open spec fn rendered(self, n: int, len: nat) -> Seq<i64>
        decreases self.rank_of(n), self.inputs_of(n).len() + 2,
    {
        self.rendered_over(n, silence(len))
    }

    /// What node `n` writes when its inputs' outputs are mixed into `base`,
    /// in connection order, and `n` then processes the result.
    pub open spec fn rendered_over(self, n: int, base: Seq<i64>) -> Seq<i64>
        decreases self.rank_of(n), self.inputs_of(n).len() + 1,
    {
        match self.node_at(n) {
            Some(node) => node.output(self.mixed_inputs(n, self.inputs_of(n).len() as int, base)),
            None => base,
        }
    }

    /// `base` with the outputs of the first `k` inputs of `n` mixed in.
    pub open spec fn mixed_inputs(self, n: int, k: int, base: Seq<i64>) -> Seq<i64>
        decreases self.rank_of(n), if k < 0 { 0 } else { k as nat },
    {
        if k <= 0 {
            base
        } else {
            let prev = self.mixed_inputs(n, k - 1, base);
            let i = self.inputs_of(n)[k - 1] as int;
            if self.rank_of(i) < self.rank_of(n) {
                mix(prev, self.rendered(i, base.len()))
            } else {
                prev
            }
        }
    }

    /// Every edge joins two live nodes, from a lower to a higher rank.
    pub proof fn lemma_edge(self, c: int, j: int)
        requires
            self.wf(),
            0 <= j < self.inputs_of(c).len(),
        ensures
            self.live(c),
            self.live(self.inputs_of(c)[j] as int),
            self.rank_of(self.inputs_of(c)[j] as int) < self.rank_of(c),
    {
        let a = self.inputs@[c]@[j];
    }

    /// No node feeds any of its own inputs: the graph holds no cycle.
    pub proof fn lemma_acyclic(self, x: int, j: int)
        requires
            self.wf(),
            0 <= j < self.inputs_of(x).len(),
        ensures
            !self.feeds(x, self.inputs_of(x)[j] as int),
    {
        let i = self.inputs_of(x)[j] as int;
        self.lemma_edge(x, j);
        let s = Set::new(|z: int| 0 <= z < self.slots() && self.rank@[z] < self.rank@[x]);
        assert(self.closed_under_inputs(s)) by {
            assert forall|z: int, jj: int|
                s.contains(z) && 0 <= jj < self.inputs_of(z).len() implies s.contains(
                #[trigger] self.inputs_of(z)[jj] as int) by {
                self.lemma_edge(z, jj);
            }
        }
        assert(s.contains(i));
        assert(!s.contains(x));
    }

    /// What feeds an input of `n` feeds `n`.
    pub proof fn lemma_feeds_input(self, x: int, i: int, n: int, j: int)
        requires
            self.feeds(x, i),
            0 <= j < self.inputs_of(n).len(),
            self.inputs_of(n)[j] == i,
        ensures
            self.feeds(x, n),
    {
        assert forall|s: Set<int>| #[trigger] self.closed_under_inputs(s) && s.contains(n) implies s.contains(x) by {
            assert(s.contains(self.inputs_of(n)[j] as int));
        }
    }

    /// Every node feeds itself.
    pub proof fn lemma_feeds_self(self, x: int)
        ensures
            self.feeds(x, x),
    {
    }

    /// An empty graph with no master.
    pub fn new() -> (g: Graph)
        ensures
            g.wf(),
            g.slots() == 0,
            g.master_of() is None,
    {
        Graph {
            nodes: Vec::new(),
            inputs: Vec::new(),
            consumers: Vec::new(),
            master: None,
            rank: Ghost(Seq::empty()),
        }
    }

    /// Adds a node, with no edges; it is reachable only through the handle returned.
    pub fn insert(&mut self, node: Node) -> (id: NodeIndex)
        requires
            old(self).wf(),
            old(self).slots() < usize::MAX,
        ensures
            final(self).wf(),
            id.0 == old(self).slots(),
            final(self).slots() == old(self).slots() + 1,
            final(self).node_at(id.0 as int) == Some(node),
            final(self).inputs_of(id.0 as int).len() == 0,
            final(self).consumers_of(id.0 as int).len() == 0,
            final(self).master_of() == old(self).master_of(),
            forall|i: int|
                0 <= i < old(self).slots() ==> final(self).node_at(i) == old(self).node_at(i)
                    && final(self).inputs_of(i) == old(self).inputs_of(i) && final(self).consumers_of(i)
                    == old(self).consumers_of(i),
    {
        let id = self.nodes.len();
        self.nodes.push(Some(node));
        self.inputs.push(Vec::new());
        self.consumers.push(Vec::new());
        self.rank = Ghost(self.rank@.push(0));
        proof {
            assert forall|c: int, j: int|
                0 <= c < self.nodes@.len() && 0 <= j < self.inputs@[c]@.len() implies {
                    let a = #[trigger] self.inputs@[c]@[j];
                    &&& a < self.nodes@.len()
                    &&& self.nodes@[a as int] is Some
                    &&& self.rank@[a as int] < self.rank@[c]
                } by {
                assert(c < id);
                assert(self.inputs@[c] == old(self).inputs@[c]);
                let a = old(self).inputs@[c]@[j];
                assert(a < id);
            }
            assert forall|c: int| 0 <= c < self.nodes@.len() implies #[trigger] self.inputs@[c]@.no_duplicates() by {
                if c < id {
                    assert(self.inputs@[c] == old(self).inputs@[c]);
                }
            }
            assert(self.links_ok()) by {
                assert forall|a: int, j: int|
                    0 <= a < self.nodes@.len() && 0 <= j < self.consumers@[a]@.len() implies #[trigger] self.consumers@[a]@[j]
                        < self.nodes@.len() by {
                    assert(self.consumers@[a] == old(self).consumers@[a]);
                }
                assert forall|a: int| 0 <= a < self.nodes@.len() implies #[trigger] self.consumers@[a]@.no_duplicates() by {
                    if a < id {
                        assert(self.consumers@[a] == old(self).consumers@[a]);
                    }
                }
                assert forall|a: int, c: int|
                    #![trigger self.consumers@[a]@.contains(c as usize)]
                    #![trigger self.inputs@[c]@.contains(a as usize)]
                    0 <= a < self.nodes@.len() && 0 <= c < self.nodes@.len() implies (self.consumers@[a]@.contains(c as usize)
                        <==> self.inputs@[c]@.contains(a as usize)) by {
                    if a == id && self.inputs@[c]@.contains(a as usize) {
                        let j = choose|j: int| 0 <= j < self.inputs@[c]@.len() && self.inputs@[c]@[j] == a as usize;
                        assert(self.inputs@[c]@[j] < id);
                    }
                    if c == id && self.consumers@[a]@.contains(c as usize) {
                        let j = choose|j: int| 0 <= j < self.consumers@[a]@.len() && self.consumers@[a]@[j] == c as usize;
                        assert(self.consumers@[a] == old(self).consumers@[a]);
                        assert(old(self).consumers@[a]@[j] < id);
                    }
                    if a < id && c < id {
                        assert(self.consumers@[a] == old(self).consumers@[a]);
                        assert(self.inputs@[c] == old(self).inputs@[c]);
                    }
                }
            }
        }
        NodeIndex(id)
    }

    /// The node behind `id`.
    pub fn get(&self, id: NodeIndex) -> (r: Result<Node, GraphError>)
        requires
            self.wf(),
        ensures
            match self.node_at(id.0 as int) {
                Some(n) => r == Ok::<Node, GraphError>(n),
                None => r == Err::<Node, GraphError>(GraphError::UnknownNode),
            },
    {
        if id.0 < self.nodes.len() {
            match self.nodes[id.0] {
                Some(n) => Ok(n),
                None => Err(GraphError::UnknownNode),
            }
        } else {
            Err(GraphError::UnknownNode)
        }
    }

    /// Whether `id` refers to a live node.
    pub fn contains(&self, id: NodeIndex) -> (r: bool)
        requires
            self.wf(),
        ensures
            r == self.live(id.0 as int),
    {
        id.0 < self.nodes.len() && self.nodes[id.0].is_some()
    }

    /// Replaces the node behind `id`, for tuning between renders; returns
    /// the node it replaced.
    pub fn set_node(&mut self, id: NodeIndex, node: Node) -> (r: Result<Node, GraphError>)
        requires
            old(self).wf(),
        ensures
            final(self).wf(),
            final(self).slots() == old(self).slots(),
            final(self).master_of() == old(self).master_of(),
            forall|i: int| #[trigger] final(self).inputs_of(i) == old(self).inputs_of(i),
            match old(self).node_at(id.0 as int) {
                Some(n) => r == Ok::<Node, GraphError>(n) && forall|i: int| #[trigger]
                    final(self).node_at(i) == if i == id.0 { Some(node) } else { old(self).node_at(i) },
                None => r == Err::<Node, GraphError>(GraphError::UnknownNode) && *final(self) == *old(self),
            },
    {
        if id.0 < self.nodes.len() {
            match self.nodes[id.0] {
                Some(n) => {
                    self.nodes.set(id.0, Some(node));
                    Ok(n)
                },
                None => Err(GraphError::UnknownNode),
            }
        } else {
            Err(GraphError::UnknownNode)
        }
    }

    /// The direct inputs of `id`, in connection order.
    pub fn inputs(&self, id: NodeIndex) -> (r: Result<Vec<NodeIndex>, GraphError>)
        requires
            self.wf(),
        ensures
            match r {
                Ok(v) => self.live(id.0 as int) && v@.len() == self.inputs_of(id.0 as int).len()
                    && forall|j: int| 0 <= j < v@.len() ==> #[trigger] v@[j].0 == self.inputs_of(id.0 as int)[j],
                Err(e) => !self.live(id.0 as int) && e == GraphError::UnknownNode,
            },
    {
        if !self.contains(id) {
            return Err(GraphError::UnknownNode);
        }
        let src = &self.inputs[id.0];
        let mut v: Vec<NodeIndex> = Vec::new();
        let mut j: usize = 0;
        while j < src.len()
            invariant
                src@ == self.inputs_of(id.0 as int),
                0 <= j <= src@.len(),
                v@.len() == j,
                forall|k: int| 0 <= k < j ==> #[trigger] v@[k].0 == src@[k],
            decreases src@.len() - j,
        {
            v.push(NodeIndex(src[j]));
            j = j + 1;
        }
        Ok(v)
    }

    /// The master node, if one is set.
    pub fn master(&self) -> (r: Option<NodeIndex>)
        ensures
            match self.master_of() {
                Some(m) => r == Some(NodeIndex(m)),
                None => r is None,
            },
    {
        match self.master {
            Some(m) => Some(NodeIndex(m)),
            None => None,
        }
    }

    /// Makes `id` the node whose output `render` produces.
    pub fn set_master(&mut self, id: NodeIndex) -> (r: Result<(), GraphError>)
        requires
            old(self).wf(),
        ensures
            final(self).wf(),
            final(self).slots() == old(self).slots(),
            forall|i: int| #[trigger] final(self).node_at(i) == old(self).node_at(i),
            forall|i: int| #[trigger] final(self).inputs_of(i) == old(self).inputs_of(i),
            old(self).live(id.0 as int) ==> r is Ok && final(self).master_of() == Some(id.0),
            !old(self).live(id.0 as int) ==> r == Err::<(), GraphError>(GraphError::UnknownNode)
                && final(self).master_of() == old(self).master_of(),
    {
        if self.contains(id) {
            self.master = Some(id.0);
            Ok(())
        } else {
            Err(GraphError::UnknownNode)
        }
    }

    /// Leaves the graph without a master.
    pub fn clear_master(&mut self)
        requires
            old(self).wf(),
        ensures
            final(self).wf(),
            final(self).slots() == old(self).slots(),
            forall|i: int| #[trigger] final(self).node_at(i) == old(self).node_at(i),
            forall|i: int| #[trigger] final(self).inputs_of(i) == old(self).inputs_of(i),
            final(self).master_of() is None,
    {
        self.master = None;
    }

    /// Marks, in `visited`, every node that feeds `v`, searching through inputs.
    fn mark_feeders(&self, v: usize, visited: &mut Vec<bool>)
        requires
            self.wf(),
            v < self.slots(),
            old(visited)@.len() == self.slots(),
            old(visited)@[v as int],
        ensures
            final(visited)@.len() == self.slots(),
            forall|x: int| 0 <= x < self.slots() && old(visited)@[x] ==> #[trigger] final(visited)@[x],
            forall|x: int|
                0 <= x < self.slots() && #[trigger] final(visited)@[x] && !old(visited)@[x] ==> self.feeds(x, v as int),
            forall|x: int, j: int|
                0 <= x < self.slots() && ((final(visited)@[x] && !old(visited)@[x]) || x == v) && 0 <= j
                    < self.inputs_of(x).len() ==> final(visited)@[#[trigger] self.inputs_of(x)[j] as int],
        decreases self.rank_of(v as int),
    {
        let ghost len = self.slots();
        let k = self.inputs[v].len();
        let mut j: usize = 0;
        while j < k
            invariant
                self.wf(),
                v < len,
                len == self.slots(),
                k == self.inputs_of(v as int).len(),
                0 <= j <= k,
                visited@.len() == len,
                forall|x: int| 0 <= x < len && old(visited)@[x] ==> #[trigger] visited@[x],
                forall|x: int| 0 <= x < len && #[trigger] visited@[x] && !old(visited)@[x] ==> self.feeds(x, v as int),
                forall|x: int, jj: int|
                    0 <= x < len && visited@[x] && !old(visited)@[x] && 0 <= jj < self.inputs_of(x).len()
                        ==> visited@[#[trigger] self.inputs_of(x)[jj] as int],
                forall|jj: int| 0 <= jj < j ==> visited@[#[trigger] self.inputs_of(v as int)[jj] as int],
            decreases k - j,
        {
            let i = self.inputs[v][j];
            proof {
                assert(self.inputs_of(v as int)[j as int] == i);
                assert(i < len && self.rank_of(i as int) < self.rank_of(v as int));
            }
            if !visited[i] {
                let ghost before = visited@;
                visited.set(i, true);
                let ghost mid = visited@;
                self.mark_feeders(i, visited);
                proof {
                    assert forall|x: int| 0 <= x < len && #[trigger] visited@[x] && !old(visited)@[x] implies self.feeds(x, v as int) by {
                        if !before[x] {
                            if x == i {
                                self.lemma_feeds_self(x);
                            }
                            self.lemma_feeds_input(x, i as int, v as int, j as int);
                        }
                    }
                    assert forall|x: int, jj: int|
                        0 <= x < len && visited@[x] && !old(visited)@[x] && 0 <= jj < self.inputs_of(x).len()
                        implies visited@[#[trigger] self.inputs_of(x)[jj] as int] by {
                        if before[x] {
                            assert(before[self.inputs_of(x)[jj] as int]);
                            assert(mid[self.inputs_of(x)[jj] as int]);
                        }
                    }
                }
            }
            j = j + 1;
        }
    }

    /// Adds the edge "`input` feeds `consumer`". Refused, with the graph left
    /// unchanged, when either node is unknown or when `consumer` already
    /// feeds `input` (the edge would close a cycle). An edge that is already
    /// present is kept once.
    pub fn connect(&mut self, input: NodeIndex, consumer: NodeIndex) -> (r: Result<(), GraphError>)
        requires
            old(self).wf(),
        ensures
            final(self).wf(),
            r == old(self).connect_result(input.0 as int, consumer.0 as int),
            final(self).slots() == old(self).slots(),
            final(self).master_of() == old(self).master_of(),
            forall|i: int| #[trigger] final(self).node_at(i) == old(self).node_at(i),
            r is Err ==> *final(self) == *old(self),
            r is Ok ==> forall|i: int| #[trigger] final(self).inputs_of(i) == if i == consumer.0
                && !old(self).inputs_of(i).contains(input.0) {
                old(self).inputs_of(i).push(input.0)
            } else {
                old(self).inputs_of(i)
            },
            r is Ok ==> forall|i: int| #[trigger] final(self).consumers_of(i) == if i == input.0
                && !old(self).inputs_of(consumer.0 as int).contains(input.0) {
                old(self).consumers_of(i).push(consumer.0)
            } else {
                old(self).consumers_of(i)
            },
    {
        if !self.contains(input) || !self.contains(consumer) {
            return Err(GraphError::UnknownNode);
        }
        let a = input.0;
        let c = consumer.0;
        let n = self.nodes.len();
        let mut visited: Vec<bool> = Vec::new();
        let mut k: usize = 0;
        while k < n
            invariant
                0 <= k <= n,
                visited@.len() == k,
                forall|x: int| 0 <= x < k ==> !#[trigger] visited@[x],
            decreases n - k,
        {
            visited.push(false);
            k = k + 1;
        }
        visited.set(a, true);
        let ghost start = visited@;
        self.mark_feeders(a, &mut visited);
        let ghost vs = Set::new(|x: int| 0 <= x < n && visited@[x]);
        proof {
            assert(self.closed_under_inputs(vs)) by {
                assert forall|x: int, j: int| vs.contains(x) && 0 <= j < self.inputs_of(x).len() implies vs.contains(
                    #[trigger] self.inputs_of(x)[j] as int) by {
                    let y = self.inputs_of(x)[j];
                    assert(self.inputs@[x]@[j] == y);
                    assert(start[x] ==> x == a);
                }
            }
        }
        if visited[c] {
            proof {
                assert forall|s: Set<int>| #[trigger] self.closed_under_inputs(s) && s.contains(a as int) implies s.contains(c as int) by {
                    if c != a {
                        assert(self.feeds(c as int, a as int));
                    }
                }
            }
            return Err(GraphError::CycleError);
        }
        proof {
            assert(!vs.contains(c as int));
            assert(vs.contains(a as int));
        }
        let present = self.has_input(c, a);
        if present {
            return Ok(());
        }
        let ghost old_rank = self.rank@;
        let ghost shift = old_rank[a as int] + 1;
        let mut list = self.inputs[c].clone();
        proof {
            assert(list@ == self.inputs_of(c as int));
            lemma_push_contains(list@, a);
        }
        list.push(a);
        self.inputs.set(c, list);
        let mut outs = self.consumers[a].clone();
        proof {
            assert(outs@ == old(self).consumers_of(a as int));
            lemma_push_contains(outs@, c);
        }
        outs.push(c);
        self.consumers.set(a, outs);
        self.rank = Ghost(Seq::new(n as nat, |x: int| if visited@[x] { old_rank[x] } else { old_rank[x] + shift }));
        proof {
            assert forall|y: int, jj: int|
                0 <= y < self.nodes@.len() && 0 <= jj < self.inputs@[y]@.len() implies {
                    let u = #[trigger] self.inputs@[y]@[jj];
                    &&& u < self.nodes@.len()
                    &&& self.nodes@[u as int] is Some
                    &&& self.rank@[u as int] < self.rank@[y]
                } by {
                if y == c && jj == old(self).inputs@[y]@.len() {
                } else {
                    let u = old(self).inputs@[y]@[jj];
                    assert(self.inputs@[y]@[jj] == u);
                    assert(old(self).inputs_of(y)[jj] == u);
                    if visited@[y] {
                        assert(vs.contains(y));
                        assert(vs.contains(old(self).inputs_of(y)[jj] as int));
                    }
                }
            }
            assert forall|y: int| 0 <= y < self.nodes@.len() implies #[trigger] self.inputs@[y]@.no_duplicates() by {
                if y == c {
                    assert(!old(self).inputs_of(c as int).contains(a));
                    let w = old(self).inputs_of(c as int);
                    assert forall|p: int, q: int| 0 <= p < q < w.len() + 1 implies w.push(a)[p] != w.push(a)[q] by {
                        if q == w.len() {
                            assert(w.contains(w[p]));
                        } else {
                            assert(old(self).inputs@[c as int]@.no_duplicates());
                        }
                    }
                    assert(self.inputs@[y]@ == w.push(a));
                }
            }
            assert forall|i: int| #[trigger] self.inputs_of(i) == if i == c && !old(self).inputs_of(i).contains(a) {
                old(self).inputs_of(i).push(a)
            } else {
                old(self).inputs_of(i)
            } by {}
            assert(old(self).links_ok());
            assert(!old(self).consumers@[a as int]@.contains(c)) by {
                assert(!old(self).inputs@[c as int]@.contains(a));
                assert(old(self).consumers@[a as int]@.contains(((c as int) as usize)) <==> old(self).inputs@[c as int]@.contains(
                    ((a as int) as usize)));
            }
            assert(self.links_ok()) by {
                assert forall|x: int, jj: int|
                    0 <= x < self.nodes@.len() && 0 <= jj < self.consumers@[x]@.len() implies #[trigger] self.consumers@[x]@[jj]
                        < self.nodes@.len() by {
                    if !(x == a && jj == old(self).consumers@[x]@.len()) {
                        assert(self.consumers@[x]@[jj] == old(self).consumers@[x]@[jj]);
                    }
                }
                assert forall|x: int| 0 <= x < self.nodes@.len() implies #[trigger] self.consumers@[x]@.no_duplicates() by {
                    if x == a {
                        lemma_push_no_dup(old(self).consumers@[x]@, c);
                    }
                }
                assert forall|x: int, y: int|
                    #![trigger self.consumers@[x]@.contains(y as usize)]
                    #![trigger self.inputs@[y]@.contains(x as usize)]
                    0 <= x < self.nodes@.len() && 0 <= y < self.nodes@.len() implies (self.consumers@[x]@.contains(y as usize)
                        <==> self.inputs@[y]@.contains(x as usize)) by {
                    assert(old(self).consumers@[x]@.contains(y as usize) <==> old(self).inputs@[y]@.contains(x as usize));
                    lemma_push_contains(old(self).consumers@[x]@, c);
                    lemma_push_contains(old(self).inputs@[y]@, a);
                }
            }
        }
        Ok(())
    }

    /// Removes the edge "`input` feeds `consumer`" if present, and answers
    /// whether it was. Unknown nodes are refused with the graph unchanged.
    pub fn disconnect(&mut self, input: NodeIndex, consumer: NodeIndex) -> (r: Result<bool, GraphError>)
        requires
            old(self).wf(),
        ensures
            final(self).wf(),
            final(self).slots() == old(self).slots(),
            final(self).master_of() == old(self).master_of(),
            forall|i: int| #[trigger] final(self).node_at(i) == old(self).node_at(i),
            !old(self).live(input.0 as int) || !old(self).live(consumer.0 as int) ==> r == Err::<bool, GraphError>(
                GraphError::UnknownNode) && *final(self) == *old(self),
            old(self).live(input.0 as int) && old(self).live(consumer.0 as int) ==> {
                &&& r == Ok::<bool, GraphError>(old(self).inputs_of(consumer.0 as int).contains(input.0))
                &&& forall|i: int| #[trigger] final(self).inputs_of(i) == if i == consumer.0 {
                    without(old(self).inputs_of(i), input.0)
                } else {
                    old(self).inputs_of(i)
                }
                &&& forall|i: int| #[trigger] final(self).consumers_of(i) == if i == input.0 {
                    without(old(self).consumers_of(i), consumer.0)
                } else {
                    old(self).consumers_of(i)
                }
            },
    {
        if !self.contains(input) || !self.contains(consumer) {
            return Err(GraphError::UnknownNode);
        }
        let c = consumer.0;
        let a = input.0;
        let len = self.nodes.len();
        let list = without_vec(&self.inputs[c], a);
        let outs = without_vec(&self.consumers[a], c);
        let present = list.len() < self.inputs[c].len();
        proof {
            lemma_without_len(self.inputs_of(c as int), a);
        }
        self.inputs.set(c, list);
        self.consumers.set(a, outs);
        proof {
            let o = *old(self);
            assert forall|y: int, jj: int|
                0 <= y < self.nodes@.len() && 0 <= jj < self.inputs@[y]@.len() implies {
                    let u = #[trigger] self.inputs@[y]@[jj];
                    &&& u < self.nodes@.len()
                    &&& self.nodes@[u as int] is Some
                    &&& self.rank@[u as int] < self.rank@[y]
                } by {
                let u = self.inputs@[y]@[jj];
                if y == c {
                    lemma_without(o.inputs@[y]@, a);
                    assert(self.inputs@[y]@.contains(u));
                    let q = choose|q: int| 0 <= q < o.inputs@[y]@.len() && o.inputs@[y]@[q] == u;
                } else {
                    assert(o.inputs@[y]@[jj] == u);
                }
            }
            assert forall|y: int| 0 <= y < self.nodes@.len() implies #[trigger] self.inputs@[y]@.no_duplicates() by {
                lemma_without(o.inputs@[y]@, a);
            }
            assert forall|y: int| 0 <= y < self.nodes@.len() && self.nodes@[y] is None implies #[trigger] self.inputs@[y]@.len() == 0 by {
                lemma_without_len(o.inputs@[y]@, a);
            }
            assert(o.links_ok());
            assert(self.links_ok()) by {
                assert forall|x: int, jj: int|
                    0 <= x < self.nodes@.len() && 0 <= jj < self.consumers@[x]@.len() implies #[trigger] self.consumers@[x]@[jj]
                        < self.nodes@.len() by {
                    let v = self.consumers@[x]@[jj];
                    if x == a {
                        lemma_without(o.consumers@[x]@, c);
                        assert(self.consumers@[x]@.contains(v));
                        let q = choose|q: int| 0 <= q < o.consumers@[x]@.len() && o.consumers@[x]@[q] == v;
                    } else {
                        assert(o.consumers@[x]@[jj] == v);
                    }
                }
                assert forall|x: int| 0 <= x < self.nodes@.len() implies #[trigger] self.consumers@[x]@.no_duplicates() by {
                    lemma_without(o.consumers@[x]@, c);
                }
                assert forall|x: int, y: int|
                    #![trigger self.consumers@[x]@.contains(y as usize)]
                    #![trigger self.inputs@[y]@.contains(x as usize)]
                    0 <= x < self.nodes@.len() && 0 <= y < self.nodes@.len() implies (self.consumers@[x]@.contains(y as usize)
                        <==> self.inputs@[y]@.contains(x as usize)) by {
                    assert(o.consumers@[x]@.contains(y as usize) <==> o.inputs@[y]@.contains(x as usize));
                    lemma_without(o.consumers@[x]@, c);
                    lemma_without(o.inputs@[y]@, a);
                    assert(self.nodes@.len() == len);
                    assert(self.consumers@[x]@ == if x == a { without(o.consumers@[x]@, c) } else { o.consumers@[x]@ });
                    assert(self.inputs@[y]@ == if y == c { without(o.inputs@[y]@, a) } else { o.inputs@[y]@ });
                }
            }
        }
        Ok(present)
    }

    /// Removes node `id` with every edge that touches it, clearing the master
    /// if it was `id`, and hands the node back. Unknown: `None`, nothing changes.
    pub fn remove(&mut self, id: NodeIndex) -> (r: Option<Node>)
        requires
            old(self).wf(),
        ensures
            final(self).wf(),
            final(self).slots() == old(self).slots(),
            r == old(self).node_at(id.0 as int),
            r is None ==> *final(self) == *old(self),
            r is Some ==> {
                &&& forall|i: int| #[trigger] final(self).node_at(i) == if i == id.0 {
                    None
                } else {
                    old(self).node_at(i)
                }
                &&& forall|i: int| #[trigger] final(self).inputs_of(i) == if i == id.0 {
                    Seq::empty()
                } else {
                    without(old(self).inputs_of(i), id.0)
                }
                &&& forall|i: int| #[trigger] final(self).consumers_of(i) == if i == id.0 {
                    Seq::empty()
                } else {
                    without(old(self).consumers_of(i), id.0)
                }
                &&& final(self).master_of() == if old(self).master_of() == Some(id.0) {
                    None
                } else {
                    old(self).master_of()
                }
            },
    {
        if !self.contains(id) {
            return None;
        }
        let n = id.0;
        let len = self.nodes.len();
        let mut c: usize = 0;
        while c < len
            invariant
                len == old(self).nodes@.len(),
                n < len,
                0 <= c <= len,
                self.nodes == old(self).nodes,
                self.rank == old(self).rank,
                self.master == old(self).master,
                self.inputs@.len() == len,
                self.consumers@.len() == len,
                old(self).inputs@.len() == len,
                old(self).consumers@.len() == len,
                forall|i: int| 0 <= i < len ==> #[trigger] self.inputs@[i]@ == if i < c {
                    without(old(self).inputs@[i]@, n)
                } else {
                    old(self).inputs@[i]@
                },
                forall|i: int| 0 <= i < len ==> #[trigger] self.consumers@[i]@ == if i < c {
                    without(old(self).consumers@[i]@, n)
                } else {
                    old(self).consumers@[i]@
                },
            decreases len - c,
        {
            let list = without_vec(&self.inputs[c], n);
            let outs = without_vec(&self.consumers[c], n);
            self.inputs.set(c, list);
            self.consumers.set(c, outs);
            c = c + 1;
        }
        let node = self.nodes[n];
        self.inputs.set(n, Vec::new());
        self.consumers.set(n, Vec::new());
        self.nodes.set(n, None);
        if self.master == Some(n) {
            self.master = None;
        }
        proof {
            let o = *old(self);
            assert(o.links_ok());
            assert forall|i: int| 0 <= i < len implies #[trigger] self.inputs@[i]@ == if i == n {
                Seq::<usize>::empty()
            } else {
                without(o.inputs@[i]@, n)
            } && self.consumers@[i]@ == if i == n {
                Seq::<usize>::empty()
            } else {
                without(o.consumers@[i]@, n)
            } by {
                lemma_without(o.inputs@[i]@, n);
                lemma_without(o.consumers@[i]@, n);
                if i == n {
                    assert(self.inputs@[i]@ =~= Seq::<usize>::empty());
                    assert(self.consumers@[i]@ =~= Seq::<usize>::empty());
                }
            }
            assert forall|y: int, jj: int|
                0 <= y < self.nodes@.len() && 0 <= jj < self.inputs@[y]@.len() implies {
                    let u = #[trigger] self.inputs@[y]@[jj];
                    &&& u < self.nodes@.len()
                    &&& self.nodes@[u as int] is Some
                    &&& self.rank@[u as int] < self.rank@[y]
                } by {
                let u = self.inputs@[y]@[jj];
                assert(y != n);
                lemma_without(o.inputs@[y]@, n);
                assert(self.inputs@[y]@.contains(u));
                let q = choose|q: int| 0 <= q < o.inputs@[y]@.len() && o.inputs@[y]@[q] == u;
            }
            assert forall|y: int| 0 <= y < self.nodes@.len() implies #[trigger] self.inputs@[y]@.no_duplicates() by {
                lemma_without(o.inputs@[y]@, n);
                assert(self.inputs@[y]@ == if y == n { Seq::<usize>::empty() } else { without(o.inputs@[y]@, n) });
            }
            assert forall|y: int| 0 <= y < self.nodes@.len() && self.nodes@[y] is None implies #[trigger] self.inputs@[y]@.len() == 0 by {
                lemma_without_len(o.inputs@[y]@, n);
                assert(self.inputs@[y]@ == if y == n { Seq::<usize>::empty() } else { without(o.inputs@[y]@, n) });
            }
            assert(self.links_ok()) by {
                assert forall|x: int, jj: int|
                    0 <= x < self.nodes@.len() && 0 <= jj < self.consumers@[x]@.len() implies #[trigger] self.consumers@[x]@[jj]
                        < self.nodes@.len() by {
                    let v = self.consumers@[x]@[jj];
                    assert(x != n);
                    lemma_without(o.consumers@[x]@, n);
                    assert(self.consumers@[x]@.contains(v));
                    let q = choose|q: int| 0 <= q < o.consumers@[x]@.len() && o.consumers@[x]@[q] == v;
                }
                assert forall|x: int| 0 <= x < self.nodes@.len() implies #[trigger] self.consumers@[x]@.no_duplicates() by {
                    lemma_without(o.consumers@[x]@, n);
                    assert(self.consumers@[x]@ == if x == n { Seq::<usize>::empty() } else { without(o.consumers@[x]@, n) });
                }
                assert forall|x: int, y: int|
                    #![trigger self.consumers@[x]@.contains(y as usize)]
                    #![trigger self.inputs@[y]@.contains(x as usize)]
                    0 <= x < self.nodes@.len() && 0 <= y < self.nodes@.len() implies (self.consumers@[x]@.contains(y as usize)
                        <==> self.inputs@[y]@.contains(x as usize)) by {
                    assert(o.consumers@[x]@.contains(y as usize) <==> o.inputs@[y]@.contains(x as usize));
                    lemma_without(o.consumers@[x]@, n);
                    lemma_without(o.inputs@[y]@, n);
                    assert(self.consumers@[x]@ == if x == n { Seq::<usize>::empty() } else { without(o.consumers@[x]@, n) });
                    assert(self.inputs@[y]@ == if y == n { Seq::<usize>::empty() } else { without(o.inputs@[y]@, n) });
                }
            }
            assert forall|i: int| #[trigger] self.inputs_of(i) == if i == n {
                Seq::<usize>::empty()
            } else {
                without(o.inputs_of(i), n)
            } by {
                if !(0 <= i < len) {
                    assert(without(Seq::<usize>::empty(), n) == Seq::<usize>::empty());
                }
            }
            assert forall|i: int| #[trigger] self.consumers_of(i) == if i == n {
                Seq::<usize>::empty()
            } else {
                without(o.consumers_of(i), n)
            } by {
                if !(0 <= i < len) {
                    assert(without(Seq::<usize>::empty(), n) == Seq::<usize>::empty());
                }
            }
        }
        node
    }

    /// The state of node `x` after it was processed once.
    pub open spec fn stepped_at(self, x: int) -> Option<Node> {
        match self.node_at(x) {
            Some(nd) => Some(nd.stepped()),
            None => None,
        }
    }

    /// `self` has the topology of `g0`; only node states may differ.
    spec fn same_shape(self, g0: Graph) -> bool {
        &&& self.inputs == g0.inputs
        &&& self.consumers == g0.consumers
        &&& self.rank == g0.rank
        &&& self.master == g0.master
        &&& self.nodes@.len() == g0.nodes@.len()
        &&& forall|x: int| 0 <= x < self.nodes@.len() ==> (#[trigger] self.nodes@[x] is Some <==> g0.nodes@[x] is Some)
    }

    /// `memo` holds, for each node already rendered in this pass, its output;
    /// exactly those nodes have been stepped, and their inputs are rendered too.
    spec fn memo_ok(self, memo: Seq<Option<Vec<i64>>>, g0: Graph, len: nat) -> bool {
        &&& memo.len() == g0.slots()
        &&& forall|x: int| 0 <= x < memo.len() && #[trigger] memo[x] is Some ==> {
            &&& memo[x]->0@ == g0.rendered(x, len)
            &&& memo[x]->0@.len() == len
            &&& forall|j: int| 0 <= j < g0.inputs_of(x).len() ==> memo[#[trigger] g0.inputs_of(x)[j] as int] is Some
        }
        &&& forall|x: int| #[trigger] self.node_at(x) == if 0 <= x < memo.len() && memo[x] is Some {
            g0.stepped_at(x)
        } else {
            g0.node_at(x)
        }
    }

    proof fn lemma_same_shape_wf(self, g0: Graph)
        requires
            g0.wf(),
            self.same_shape(g0),
        ensures
            self.wf(),
            self.slots() == g0.slots(),
            forall|x: int| #[trigger] self.inputs_of(x) == g0.inputs_of(x),
            forall|x: int| #[trigger] self.rank_of(x) == g0.rank_of(x),
            self.master_of() == g0.master_of(),
    {
        assert forall|c: int, j: int|
            0 <= c < self.nodes@.len() && 0 <= j < self.inputs@[c]@.len() implies {
                let a = #[trigger] self.inputs@[c]@[j];
                &&& a < self.nodes@.len()
                &&& self.nodes@[a as int] is Some
                &&& self.rank@[a as int] < self.rank@[c]
            } by {
            let a = g0.inputs@[c]@[j];
            assert(g0.nodes@[a as int] is Some);
        }
        assert forall|c: int| 0 <= c < self.nodes@.len() && self.nodes@[c] is None implies #[trigger] self.inputs@[c]@.len() == 0 by {
            assert(g0.nodes@[c] is None);
        }
    }

    /// Mixes into `buf`, in connection order, the output of each input of
    /// `n`, first rendering those not rendered yet in this pass.
    fn render_inputs_into(
        &mut self,
        n: usize,
        memo: &mut Vec<Option<Vec<i64>>>,
        buf: &mut Vec<i64>,
        sample_rate: u32,
        Ghost(g0): Ghost<Graph>,
    )
        requires
            g0.wf(),
            old(self).same_shape(g0),
            n < g0.slots(),
            g0.live(n as int),
            old(memo)@[n as int] is None,
            old(self).memo_ok(old(memo)@, g0, old(buf)@.len()),
        ensures
            final(buf)@ == g0.mixed_inputs(n as int, g0.inputs_of(n as int).len() as int, old(buf)@),
            final(buf)@.len() == old(buf)@.len(),
            final(self).same_shape(g0),
            final(self).memo_ok(final(memo)@, g0, old(buf)@.len()),
            final(memo)@[n as int] is None,
            forall|j: int|
                0 <= j < g0.inputs_of(n as int).len() ==> final(memo)@[#[trigger] g0.inputs_of(n as int)[j] as int] is Some,
            forall|x: int| 0 <= x < g0.slots() && old(memo)@[x] is Some ==> #[trigger] final(memo)@[x] == old(memo)@[x],
            forall|x: int|
                0 <= x < g0.slots() && #[trigger] final(memo)@[x] is Some && old(memo)@[x] is None ==> g0.feeds(x, n as int)
                    && g0.rank_of(x) < g0.rank_of(n as int),
        decreases g0.rank_of(n as int), 0nat,
    {
        proof {
            self.lemma_same_shape_wf(g0);
        }
        let ghost len = buf@.len();
        let k = self.inputs[n].len();
        let mut j: usize = 0;
        while j < k
            invariant
                g0.wf(),
                self.same_shape(g0),
                n < g0.slots(),
                g0.live(n as int),
                k == g0.inputs_of(n as int).len(),
                0 <= j <= k,
                self.memo_ok(memo@, g0, len),
                memo@[n as int] is None,
                forall|x: int| 0 <= x < g0.slots() && old(memo)@[x] is Some ==> #[trigger] memo@[x] == old(memo)@[x],
                forall|x: int|
                    0 <= x < g0.slots() && #[trigger] memo@[x] is Some && old(memo)@[x] is None ==> g0.feeds(x, n as int)
                        && g0.rank_of(x) < g0.rank_of(n as int),
                forall|jj: int| 0 <= jj < j ==> memo@[#[trigger] g0.inputs_of(n as int)[jj] as int] is Some,
                buf@ == g0.mixed_inputs(n as int, j as int, old(buf)@),
                buf@.len() == len,
                len == old(buf)@.len(),
            decreases k - j,
        {
            proof {
                self.lemma_same_shape_wf(g0);
            }
            let i = self.inputs[n][j];
            proof {
                assert(g0.inputs_of(n as int)[j as int] == i);
                assert(g0.inputs@[n as int]@[j as int] == i);
                assert(i < g0.slots() && g0.nodes@[i as int] is Some);
                assert(g0.rank_of(i as int) < g0.rank_of(n as int));
            }
            if memo[i].is_none() {
                let ghost before = memo@;
                self.render_node(i, memo, buf.len(), sample_rate, Ghost(g0));
                proof {
                    assert forall|x: int|
                        0 <= x < g0.slots() && #[trigger] memo@[x] is Some && old(memo)@[x] is None implies g0.feeds(x, n as int)
                            && g0.rank_of(x) < g0.rank_of(n as int) by {
                        if before[x] is None {
                            g0.lemma_feeds_input(x, i as int, n as int, j as int);
                        }
                    }
                    assert forall|jj: int| 0 <= jj < j + 1 implies memo@[#[trigger] g0.inputs_of(n as int)[jj] as int] is Some by {
                        if jj < j {
                            assert(before[g0.inputs_of(n as int)[jj] as int] is Some);
                        }
                    }
                }
            }
            match &memo[i] {
                Some(out) => {
                    proof {
                        assert(memo@[i as int] is Some);
                    }
                    mix_into(buf, out);
                },
                None => {},
            }
            j = j + 1;
        }
    }

    /// Renders node `n`, not yet rendered in this pass, after every node that
    /// feeds it and is not rendered yet; each node is processed at most once.
    fn render_node(
        &mut self,
        n: usize,
        memo: &mut Vec<Option<Vec<i64>>>,
        len: usize,
        sample_rate: u32,
        Ghost(g0): Ghost<Graph>,
    )
        requires
            g0.wf(),
            old(self).same_shape(g0),
            n < g0.slots(),
            g0.live(n as int),
            old(memo)@[n as int] is None,
            old(self).memo_ok(old(memo)@, g0, len as nat),
        ensures
            final(self).same_shape(g0),
            final(self).memo_ok(final(memo)@, g0, len as nat),
            final(memo)@[n as int] is Some,
            forall|x: int| 0 <= x < g0.slots() && old(memo)@[x] is Some ==> #[trigger] final(memo)@[x] == old(memo)@[x],
            forall|x: int|
                0 <= x < g0.slots() && #[trigger] final(memo)@[x] is Some && old(memo)@[x] is None ==> g0.feeds(x, n as int)
                    && g0.rank_of(x) <= g0.rank_of(n as int),
        decreases g0.rank_of(n as int), 1nat,
    {
        let mut buf = silent_buffer(len);
        self.render_inputs_into(n, memo, &mut buf, sample_rate, Ghost(g0));
        let ghost pre = *self;
        proof {
            self.lemma_same_shape_wf(g0);
            assert(self.node_at(n as int) == g0.node_at(n as int));
        }
        match self.nodes[n] {
            Some(node) => {
                let mut node = node;
                node.process(&mut buf, sample_rate);
                self.nodes.set(n, Some(node));
            },
            None => {},
        }
        memo.set(n, Some(buf));
        proof {
            assert(memo@[n as int]->0@ == g0.rendered(n as int, len as nat));
            assert forall|x: int| #[trigger] self.node_at(x) == if 0 <= x < memo@.len() && memo@[x] is Some {
                g0.stepped_at(x)
            } else {
                g0.node_at(x)
            } by {
                assert(pre.node_at(x) == if 0 <= x < memo@.len() && x != n && memo@[x] is Some {
                    g0.stepped_at(x)
                } else {
                    g0.node_at(x)
                });
            }
            assert forall|x: int| 0 <= x < self.nodes@.len() implies (#[trigger] self.nodes@[x] is Some <==> g0.nodes@[x] is Some) by {
                assert(pre.nodes@[x] is Some <==> g0.nodes@[x] is Some);
            }
            assert forall|x: int| 0 <= x < g0.slots() && #[trigger] memo@[x] is Some && old(memo)@[x] is None implies g0.feeds(x, n as int)
                && g0.rank_of(x) <= g0.rank_of(n as int) by {
                if x == n {
                    g0.lemma_feeds_self(x);
                }
            }
        }
    }

    /// Renders one buffer. With a master set, the outputs of the master's
    /// inputs are mixed into `output` as passed, the master processes the
    /// result, and each node that feeds the master is processed exactly once;
    /// without one, nothing changes.
    pub fn render(&mut self, output: &mut Vec<i64>, sample_rate: u32)
        requires
            old(self).wf(),
        ensures
            final(self).wf(),
            final(self).slots() == old(self).slots(),
            final(self).master_of() == old(self).master_of(),
            forall|i: int| #[trigger] final(self).inputs_of(i) == old(self).inputs_of(i),
            final(output)@.len() == old(output)@.len(),
            old(self).master_of() is None ==> final(output)@ == old(output)@ && *final(self) == *old(self),
            old(self).master_of() is Some ==> {
                let m = old(self).master_of()->0 as int;
                &&& final(output)@ == old(self).rendered_over(m, old(output)@)
                &&& forall|x: int| #[trigger] final(self).node_at(x) == if old(self).feeds(x, m) {
                    old(self).stepped_at(x)
                } else {
                    old(self).node_at(x)
                }
            },
    {
        let m = match self.master {
            Some(m) => m,
            None => {
                return;
            },
        };
        let ghost g0 = *self;
        let n = self.nodes.len();
        let mut memo: Vec<Option<Vec<i64>>> = Vec::new();
        let mut k: usize = 0;
        while k < n
            invariant
                0 <= k <= n,
                memo@.len() == k,
                forall|x: int| 0 <= x < k ==> #[trigger] memo@[x] is None,
            decreases n - k,
        {
            memo.push(None);
            k = k + 1;
        }
        proof {
            assert(self.same_shape(g0));
            assert(self.memo_ok(memo@, g0, output@.len()));
        }
        self.render_inputs_into(m, &mut memo, output, sample_rate, Ghost(g0));
        let ghost pre = *self;
        proof {
            self.lemma_same_shape_wf(g0);
            assert(self.node_at(m as int) == g0.node_at(m as int));
        }
        match self.nodes[m] {
            Some(node) => {
                let mut node = node;
                node.process(output, sample_rate);
                self.nodes.set(m, Some(node));
            },
            None => {},
        }
        proof {
            assert forall|x: int| 0 <= x < self.nodes@.len() implies (#[trigger] self.nodes@[x] is Some <==> g0.nodes@[x] is Some) by {
                assert(pre.nodes@[x] is Some <==> g0.nodes@[x] is Some);
            }
            assert(self.same_shape(g0));
            self.lemma_same_shape_wf(g0);
            let vs = Set::new(|x: int| 0 <= x < n && (memo@[x] is Some || x == m));
            assert(g0.closed_under_inputs(vs));
            assert forall|x: int| #[trigger] self.node_at(x) == if g0.feeds(x, m as int) {
                g0.stepped_at(x)
            } else {
                g0.node_at(x)
            } by {
                assert(pre.node_at(x) == if 0 <= x < n && memo@[x] is Some {
                    g0.stepped_at(x)
                } else {
                    g0.node_at(x)
                });
                if g0.feeds(x, m as int) {
                    assert(vs.contains(x));
                } else if 0 <= x < n && memo@[x] is Some {
                    assert(g0.feeds(x, m as int));
                } else if x == m {
                    g0.lemma_feeds_self(x);
                }
            }
        }
    }

    /// Whether `a` is a direct input of `c`.
    fn has_input(&self, c: usize, a: usize) -> (r: bool)
        requires
            self.wf(),
            c < self.slots(),
        ensures
            r == self.inputs_of(c as int).contains(a),
    {
        let mut present = false;
        let mut j: usize = 0;
        let cl = self.inputs[c].len();
        while j < cl
            invariant
                self.wf(),
                c < self.slots(),
                cl == self.inputs_of(c as int).len(),
                0 <= j <= cl,
                present == self.inputs_of(c as int).take(j as int).contains(a),
            decreases cl - j,
        {
            proof {
                let t = self.inputs_of(c as int).take(j as int + 1);
                assert(t =~= self.inputs_of(c as int).take(j as int).push(self.inputs_of(c as int)[j as int]));
                lemma_push_contains(self.inputs_of(c as int).take(j as int), self.inputs_of(c as int)[j as int]);
            }
            if self.inputs[c][j] == a {
                present = true;
            }
            j = j + 1;
        }
        proof {
            assert(self.inputs_of(c as int).take(cl as int) =~= self.inputs_of(c as int));
        }
        present
    }

    /// The nodes that `id` feeds directly, in the order they were connected.
    pub fn outputs(&self, id: NodeIndex) -> (r: Result<Vec<NodeIndex>, GraphError>)
        requires
            self.wf(),
        ensures
            match r {
                Ok(v) => self.live(id.0 as int) && v@.len() == self.consumers_of(id.0 as int).len()
                    && forall|j: int| 0 <= j < v@.len() ==> #[trigger] v@[j].0 == self.consumers_of(id.0 as int)[j],
                Err(e) => !self.live(id.0 as int) && e == GraphError::UnknownNode,
            },
    {
        if !self.contains(id) {
            return Err(GraphError::UnknownNode);
        }
        let src = &self.consumers[id.0];
        let mut v: Vec<NodeIndex> = Vec::new();
        let mut j: usize = 0;
        while j < src.len()
            invariant
                src@ == self.consumers_of(id.0 as int),
                0 <= j <= src@.len(),
                v@.len() == j,
                forall|k: int| 0 <= k < j ==> #[trigger] v@[k].0 == src@[k],
            decreases src@.len() - j,
        {
            v.push(NodeIndex(src[j]));
            j = j + 1;
        }
        Ok(v)
    }

    /// A node that no node takes as input feeds only itself.
    proof fn lemma_no_consumer(self, x: int, y: int)
        requires
            forall|c: int| !(#[trigger] self.inputs_of(c)).contains(x as usize),
            0 <= x,
            x != y,
        ensures
            !self.feeds(x, y),
    {
        let s = Set::new(|z: int| z != x);
        assert(self.closed_under_inputs(s)) by {
            assert forall|z: int, j: int| s.contains(z) && 0 <= j < self.inputs_of(z).len() implies s.contains(
                #[trigger] self.inputs_of(z)[j] as int) by {
                assert(self.inputs_of(z).contains(self.inputs_of(z)[j]));
            }
        }
    }

    /// Adds a node fed by `inputs` (in that order, each once), all at once:
    /// refused with `UnknownNode`, and nothing added, if any input is unknown.
    pub fn insert_with_inputs(&mut self, node: Node, inputs: &Vec<NodeIndex>) -> (r: Result<NodeIndex, GraphError>)
        requires
            old(self).wf(),
            old(self).slots() < usize::MAX,
        ensures
            final(self).wf(),
            r is Ok <==> forall|k: int| 0 <= k < inputs@.len() ==> old(self).live(#[trigger] inputs@[k].0 as int),
            r is Err ==> r == Err::<NodeIndex, GraphError>(GraphError::UnknownNode) && *final(self) == *old(self),
            r is Ok ==> {
                let id = r->Ok_0.0;
                &&& id == old(self).slots()
                &&& final(self).slots() == old(self).slots() + 1
                &&& final(self).node_at(id as int) == Some(node)
                &&& final(self).inputs_of(id as int) == push_new(Seq::empty(), inputs@.map_values(|x: NodeIndex| x.0))
                &&& final(self).master_of() == old(self).master_of()
                &&& forall|i: int| 0 <= i < old(self).slots() ==> final(self).node_at(i) == old(self).node_at(i)
                    && final(self).inputs_of(i) == old(self).inputs_of(i)
                &&& forall|i: int| 0 <= i < old(self).slots() ==> #[trigger] final(self).consumers_of(i) == if final(self).inputs_of(id as int).contains(
                    i as usize,
                ) {
                    old(self).consumers_of(i).push(id)
                } else {
                    old(self).consumers_of(i)
                }
            },
    {
        let mut k: usize = 0;
        while k < inputs.len()
            invariant
                self.wf(),
                0 <= k <= inputs@.len(),
                forall|q: int| 0 <= q < k ==> self.live(#[trigger] inputs@[q].0 as int),
            decreases inputs@.len() - k,
        {
            if !self.contains(inputs[k]) {
                return Err(GraphError::UnknownNode);
            }
            k = k + 1;
        }
        let ghost ids = inputs@.map_values(|x: NodeIndex| x.0);
        let id = self.insert(node);
        let ghost g1 = *self;
        let mut k: usize = 0;
        while k < inputs.len()
            invariant
                self.wf(),
                ids == inputs@.map_values(|x: NodeIndex| x.0),
                0 <= k <= inputs@.len(),
                id.0 == g1.slots() - 1,
                self.live(id.0 as int),
                forall|q: int| 0 <= q < inputs@.len() ==> (#[trigger] inputs@[q]).0 < id.0,
                self.slots() == g1.slots(),
                self.master_of() == g1.master_of(),
                forall|q: int| 0 <= q < inputs@.len() ==> self.live(#[trigger] inputs@[q].0 as int),
                forall|i: int| #[trigger] self.node_at(i) == g1.node_at(i),
                forall|i: int| i != id.0 ==> #[trigger] self.inputs_of(i) == g1.inputs_of(i),
                forall|i: int| 0 <= i < id.0 ==> #[trigger] self.consumers_of(i) == if self.inputs_of(id.0 as int).contains(
                    i as usize,
                ) {
                    g1.consumers_of(i).push(id.0)
                } else {
                    g1.consumers_of(i)
                },
                self.inputs_of(id.0 as int) == push_new(Seq::empty(), ids.take(k as int)),
                forall|c: int| !(#[trigger] self.inputs_of(c)).contains(id.0),
            decreases inputs@.len() - k,
        {
            let x = inputs[k];
            proof {
                assert(ids.take(k as int + 1).drop_last() =~= ids.take(k as int));
                assert(ids[k as int] == x.0);
                assert(x.0 < id.0);
                self.lemma_no_consumer(id.0 as int, x.0 as int);
            }
            let ghost before = *self;
            let r = self.connect(x, id);
            proof {
                assert(r is Ok);
                assert forall|c: int| !(#[trigger] self.inputs_of(c)).contains(id.0) by {
                    if c == id.0 && !before.inputs_of(c).contains(x.0) {
                        lemma_push_contains(before.inputs_of(c), x.0);
                    }
                }
                lemma_push_contains(before.inputs_of(id.0 as int), x.0);
                assert forall|i: int| 0 <= i < id.0 implies #[trigger] self.consumers_of(i) == if self.inputs_of(
                    id.0 as int,
                ).contains(i as usize) {
                    g1.consumers_of(i).push(id.0)
                } else {
                    g1.consumers_of(i)
                } by {
                    assert(before.consumers_of(i) == if before.inputs_of(id.0 as int).contains(i as usize) {
                        g1.consumers_of(i).push(id.0)
                    } else {
                        g1.consumers_of(i)
                    });
                }
            }
            k = k + 1;
        }
        proof {
            assert(ids.take(inputs@.len() as int) =~= ids);
        }
        Ok(id)
    }
}

} // verus!
