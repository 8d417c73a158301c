use vstd::prelude::*;
use crate::graph::{Graph, GraphError, without};

verus! {

/// Once `a` feeds `b` directly, the edge is seen from both ends, there is no
/// edge from `b` back to `a`, and the reverse connection `connect(b, a)` is
/// refused with `CycleError` (which leaves the graph unchanged).
pub proof fn lemma_reverse_connect_refused(g: Graph, a: usize, b: usize)
    requires
        g.wf(),
        g.inputs_of(b as int).contains(a),
    ensures
        g.connect_result(b as int, a as int) == Err::<(), GraphError>(GraphError::CycleError),
        g.consumers_of(a as int).contains(b),
        !g.inputs_of(a as int).contains(b),
        !g.consumers_of(b as int).contains(a),
{
    let j = choose|j: int| 0 <= j < g.inputs_of(b as int).len() && g.inputs_of(b as int)[j] == a;
    g.lemma_edge(b as int, j);
    g.lemma_feeds_self(a as int);
    g.lemma_feeds_input(a as int, a as int, b as int, j);
    g.lemma_links(a, b);
    g.lemma_links(b, a);
    if g.inputs_of(a as int).contains(b) {
        let k = choose|k: int| 0 <= k < g.inputs_of(a as int).len() && g.inputs_of(a as int)[k] == b;
        g.lemma_edge(a as int, k);
    }
}

/// A node that is not live (for instance one just removed) is refused as
/// `UnknownNode` by every connection that names it, on either end.
pub proof fn lemma_removed_is_unknown(g: Graph, n: int, other: int)
    requires
        !g.live(n),
    ensures
        g.connect_result(n, other) == Err::<(), GraphError>(GraphError::UnknownNode),
        g.connect_result(other, n) == Err::<(), GraphError>(GraphError::UnknownNode),
{
}

proof fn lemma_push_then_without(s: Seq<usize>, a: usize)
    requires
        !s.contains(a),
    ensures
        s.push(a).contains(a),
        without(s.push(a), a) == s,
        !without(s.push(a), a).contains(a),
        without(without(s.push(a), a), a) == s,
{
    let t = s.push(a);
    assert(t[s.len() as int] == a);
    assert(t.drop_last() =~= s);
    crate::graph::lemma_without(s, a);
}

/// Connecting a new edge `a -> c` and then disconnecting it twice: the first
/// disconnect finds the edge, the second does not, and both the inputs of
/// `c` and the consumers of `a` are back to what they were before.
pub proof fn lemma_disconnect_undoes_connect(g: Graph, a: usize, c: usize)
    requires
        g.wf(),
        !g.inputs_of(c as int).contains(a),
    ensures
        g.inputs_of(c as int).push(a).contains(a),
        without(g.inputs_of(c as int).push(a), a) == g.inputs_of(c as int),
        !without(g.inputs_of(c as int).push(a), a).contains(a),
        without(without(g.inputs_of(c as int).push(a), a), a) == g.inputs_of(c as int),
        g.consumers_of(a as int).push(c).contains(c),
        without(g.consumers_of(a as int).push(c), c) == g.consumers_of(a as int),
        without(without(g.consumers_of(a as int).push(c), c), c) == g.consumers_of(a as int),
{
    g.lemma_links(a, c);
    lemma_push_then_without(g.inputs_of(c as int), a);
    lemma_push_then_without(g.consumers_of(a as int), c);
}

} // verus!
