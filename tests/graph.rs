use dsp_chain::{Graph, GraphError, Node, NodeIndex, Query, UserKind, SAMPLE_MAX, SAMPLE_MIN};

fn ids(v: Vec<NodeIndex>) -> Vec<usize> {
    v.into_iter().map(|i| i.0).collect()
}

#[test]
fn connect_never_closes_a_cycle() {
    let mut g = Graph::new();
    let a = g.insert(Node::PassThrough);
    let b = g.insert(Node::PassThrough);
    let c = g.insert(Node::PassThrough);
    let d = g.insert(Node::PassThrough);
    assert_eq!(g.connect(a, b), Ok(()));
    assert_eq!(g.connect(b, c), Ok(()));
    assert_eq!(g.connect(c, d), Ok(()));
    assert_eq!(g.connect(a, d), Ok(()));
    assert_eq!(g.connect(d, a), Err(GraphError::CycleError));
    assert_eq!(g.connect(c, a), Err(GraphError::CycleError));
    assert_eq!(g.connect(d, b), Err(GraphError::CycleError));
    assert_eq!(g.connect(a, a), Err(GraphError::CycleError));
    assert_eq!(ids(g.inputs(a).unwrap()), Vec::<usize>::new());
    assert_eq!(ids(g.inputs(d).unwrap()), vec![c.0, a.0]);
}

#[test]
fn reverse_connect_is_refused() {
    let mut g = Graph::new();
    let a = g.insert(Node::PassThrough);
    let b = g.insert(Node::PassThrough);
    assert_eq!(g.connect(a, b), Ok(()));
    assert_eq!(g.connect(b, a), Err(GraphError::CycleError));
    assert_eq!(ids(g.inputs(b).unwrap()), vec![a.0]);
    assert_eq!(ids(g.inputs(a).unwrap()), Vec::<usize>::new());
    assert_eq!(ids(g.outputs(a).unwrap()), vec![b.0]);
    assert_eq!(ids(g.outputs(b).unwrap()), Vec::<usize>::new());
}

#[test]
fn removed_node_is_unknown() {
    let mut g = Graph::new();
    let a = g.insert(Node::Constant(1));
    let b = g.insert(Node::PassThrough);
    assert_eq!(g.connect(a, b), Ok(()));
    assert_eq!(g.set_master(a), Ok(()));
    assert_eq!(g.remove(a), Some(Node::Constant(1)));
    assert_eq!(g.master(), None);
    assert_eq!(g.get(a), Err(GraphError::UnknownNode));
    assert_eq!(g.connect(a, b), Err(GraphError::UnknownNode));
    assert_eq!(g.connect(b, a), Err(GraphError::UnknownNode));
    assert_eq!(g.disconnect(a, b), Err(GraphError::UnknownNode));
    assert_eq!(g.set_master(a), Err(GraphError::UnknownNode));
    assert_eq!(g.set_node(a, Node::PassThrough), Err(GraphError::UnknownNode));
    assert_eq!(g.inputs(a).map(ids), Err(GraphError::UnknownNode));
    assert_eq!(g.remove(a), None);
    assert_eq!(ids(g.inputs(b).unwrap()), Vec::<usize>::new());
    let c = g.insert(Node::PassThrough);
    assert_ne!(c, a);
    assert!(!g.contains(a));
}

#[test]
fn single_constant_generator_fills_buffer() {
    let mut g = Graph::new();
    let m = g.insert(Node::Constant(5));
    g.set_master(m).unwrap();
    let mut buf = vec![0i64; 8];
    g.render(&mut buf, 44_100);
    assert_eq!(buf, vec![5i64; 8]);
}

#[test]
fn two_generators_are_summed() {
    let mut g = Graph::new();
    let m = g.insert(Node::PassThrough);
    let x = g.insert(Node::Constant(3));
    let y = g.insert(Node::Constant(-10));
    g.connect(x, m).unwrap();
    g.connect(y, m).unwrap();
    g.set_master(m).unwrap();
    let mut buf = vec![0i64; 6];
    g.render(&mut buf, 48_000);
    assert_eq!(buf, vec![-7i64; 6]);
}

#[test]
fn render_without_master_leaves_buffer() {
    let mut g = Graph::new();
    let a = g.insert(Node::Constant(4));
    let b = g.insert(Node::Counter(0));
    g.connect(a, b).unwrap();
    let mut buf = vec![-3i64, 17, 42];
    g.render(&mut buf, 44_100);
    assert_eq!(buf, vec![-3i64, 17, 42]);
    assert_eq!(g.get(b), Ok(Node::Counter(0)));
}

#[test]
fn shared_input_is_processed_once() {
    let mut g = Graph::new();
    let m = g.insert(Node::PassThrough);
    let left = g.insert(Node::PassThrough);
    let right = g.insert(Node::PassThrough);
    let shared = g.insert(Node::Counter(0));
    let src = g.insert(Node::Constant(2));
    g.connect(src, shared).unwrap();
    g.connect(shared, left).unwrap();
    g.connect(shared, right).unwrap();
    g.connect(left, m).unwrap();
    g.connect(right, m).unwrap();
    g.set_master(m).unwrap();
    let mut buf = vec![0i64; 4];
    g.render(&mut buf, 44_100);
    assert_eq!(g.get(shared), Ok(Node::Counter(1)));
    assert_eq!(buf, vec![4i64; 4]);
    let mut buf = vec![0i64; 4];
    g.render(&mut buf, 44_100);
    assert_eq!(g.get(shared), Ok(Node::Counter(2)));
    assert_eq!(buf, vec![4i64; 4]);
}

#[test]
fn counter_outside_master_closure_is_not_processed() {
    let mut g = Graph::new();
    let m = g.insert(Node::Counter(7));
    let other = g.insert(Node::Counter(0));
    g.connect(m, other).unwrap();
    g.set_master(m).unwrap();
    let mut buf = vec![1i64; 2];
    g.render(&mut buf, 8_000);
    assert_eq!(g.get(m), Ok(Node::Counter(8)));
    assert_eq!(g.get(other), Ok(Node::Counter(0)));
    assert_eq!(buf, vec![1i64; 2]);
}

#[test]
fn disconnect_twice_restores_inputs() {
    let mut g = Graph::new();
    let a = g.insert(Node::PassThrough);
    let b = g.insert(Node::PassThrough);
    let c = g.insert(Node::PassThrough);
    g.connect(c, b).unwrap();
    let before = ids(g.inputs(b).unwrap());
    g.connect(a, b).unwrap();
    assert_eq!(g.disconnect(a, b), Ok(true));
    assert_eq!(g.disconnect(a, b), Ok(false));
    assert_eq!(ids(g.inputs(b).unwrap()), before);
    assert_eq!(ids(g.inputs(a).unwrap()), Vec::<usize>::new());
    assert_eq!(ids(g.outputs(a).unwrap()), Vec::<usize>::new());
    assert_eq!(ids(g.outputs(c).unwrap()), vec![b.0]);
}

#[test]
fn duplicate_connect_keeps_one_edge() {
    let mut g = Graph::new();
    let a = g.insert(Node::PassThrough);
    let b = g.insert(Node::PassThrough);
    assert_eq!(g.connect(a, b), Ok(()));
    assert_eq!(g.connect(a, b), Ok(()));
    assert_eq!(ids(g.inputs(b).unwrap()), vec![a.0]);
}

#[test]
fn mixing_saturates() {
    let mut g = Graph::new();
    let m = g.insert(Node::PassThrough);
    let hi = g.insert(Node::Constant(SAMPLE_MAX));
    let one = g.insert(Node::Constant(1));
    g.connect(hi, m).unwrap();
    g.connect(one, m).unwrap();
    g.set_master(m).unwrap();
    let mut buf = vec![0i64; 3];
    g.render(&mut buf, 44_100);
    assert_eq!(buf, vec![SAMPLE_MAX; 3]);

    let mut g = Graph::new();
    let m = g.insert(Node::PassThrough);
    let lo = g.insert(Node::Constant(SAMPLE_MIN));
    let neg = g.insert(Node::Constant(-5));
    g.connect(lo, m).unwrap();
    g.connect(neg, m).unwrap();
    g.set_master(m).unwrap();
    let mut buf = vec![0i64; 2];
    g.render(&mut buf, 44_100);
    assert_eq!(buf, vec![SAMPLE_MIN; 2]);
}

#[test]
fn generator_master_ignores_inputs() {
    let mut g = Graph::new();
    let m = g.insert(Node::Constant(9));
    let x = g.insert(Node::Constant(100));
    g.connect(x, m).unwrap();
    g.set_master(m).unwrap();
    let mut buf = vec![0i64; 5];
    g.render(&mut buf, 44_100);
    assert_eq!(buf, vec![9i64; 5]);
}

#[test]
fn empty_buffer_renders_empty() {
    let mut g = Graph::new();
    let m = g.insert(Node::Counter(0));
    g.set_master(m).unwrap();
    let mut buf: Vec<i64> = Vec::new();
    g.render(&mut buf, 44_100);
    assert!(buf.is_empty());
    assert_eq!(g.get(m), Ok(Node::Counter(1)));
}

#[test]
fn counter_saturates() {
    let mut g = Graph::new();
    let m = g.insert(Node::Counter(u64::MAX));
    g.set_master(m).unwrap();
    let mut buf = vec![0i64; 1];
    g.render(&mut buf, 44_100);
    assert_eq!(g.get(m), Ok(Node::Counter(u64::MAX)));
}

#[test]
fn set_node_retunes_between_renders() {
    let mut g = Graph::new();
    let m = g.insert(Node::Constant(1));
    g.set_master(m).unwrap();
    assert_eq!(g.set_node(m, Node::Constant(6)), Ok(Node::Constant(1)));
    let mut buf = vec![0i64; 2];
    g.render(&mut buf, 44_100);
    assert_eq!(buf, vec![6i64; 2]);
    g.clear_master();
    assert_eq!(g.master(), None);
}

#[test]
fn remove_cleans_both_ends() {
    let mut g = Graph::new();
    let a = g.insert(Node::Constant(1));
    let b = g.insert(Node::PassThrough);
    let c = g.insert(Node::PassThrough);
    g.connect(a, b).unwrap();
    g.connect(b, c).unwrap();
    g.connect(a, c).unwrap();
    assert_eq!(g.remove(b), Some(Node::PassThrough));
    assert_eq!(ids(g.inputs(c).unwrap()), vec![a.0]);
    assert_eq!(ids(g.outputs(a).unwrap()), vec![c.0]);
    assert_eq!(g.connect(c, a), Err(GraphError::CycleError));
}

#[test]
fn users_query_lists_two_users() {
    let users = Query::users();
    assert_eq!(users.len(), 2);
    assert_eq!(users[0].id(), 1);
    assert_eq!(users[0].kind(), UserKind::Admin);
    assert_eq!(users[0].name(), "user1");
    assert_eq!(users[1].id(), 1);
    assert_eq!(users[1].kind(), UserKind::Guest);
    assert_eq!(users[1].name(), "user2");
    assert!(users[0].friends().is_empty());
}

#[test]
fn outputs_list_consumers_in_connection_order() {
    let mut g = Graph::new();
    let a = g.insert(Node::Constant(1));
    let b = g.insert(Node::PassThrough);
    let c = g.insert(Node::PassThrough);
    g.connect(a, c).unwrap();
    g.connect(a, b).unwrap();
    assert_eq!(ids(g.outputs(a).unwrap()), vec![c.0, b.0]);
    assert_eq!(ids(g.outputs(b).unwrap()), Vec::<usize>::new());
    assert_eq!(g.disconnect(a, c), Ok(true));
    assert_eq!(ids(g.outputs(a).unwrap()), vec![b.0]);
    g.remove(a);
    assert_eq!(g.outputs(a).map(ids), Err(GraphError::UnknownNode));
}

#[test]
fn insert_with_inputs_wires_edges() {
    let mut g = Graph::new();
    let x = g.insert(Node::Constant(2));
    let y = g.insert(Node::Constant(3));
    let m = g.insert_with_inputs(Node::PassThrough, &vec![y, x, y]).unwrap();
    assert_eq!(ids(g.inputs(m).unwrap()), vec![y.0, x.0]);
    assert_eq!(ids(g.outputs(y).unwrap()), vec![m.0]);
    assert_eq!(ids(g.outputs(x).unwrap()), vec![m.0]);
    g.set_master(m).unwrap();
    let mut buf = vec![0i64; 3];
    g.render(&mut buf, 44_100);
    assert_eq!(buf, vec![5i64; 3]);
    g.remove(x);
    assert_eq!(g.insert_with_inputs(Node::PassThrough, &vec![y, x]), Err(GraphError::UnknownNode));
    let next = g.insert(Node::PassThrough);
    assert_eq!(next.0, m.0 + 1);
}

#[test]
fn outputs_keep_connection_order_when_indices_run_backwards() {
    let mut g = Graph::new();
    let n0 = g.insert(Node::PassThrough);
    let n1 = g.insert(Node::PassThrough);
    let n2 = g.insert(Node::Constant(1));
    g.connect(n2, n1).unwrap();
    g.connect(n2, n0).unwrap();
    assert_eq!(ids(g.outputs(n2).unwrap()), vec![n1.0, n0.0]);
}

#[test]
fn master_mixes_into_callers_buffer() {
    let mut g = Graph::new();
    let m = g.insert(Node::PassThrough);
    g.set_master(m).unwrap();
    let mut buf = vec![5i64];
    g.render(&mut buf, 44_100);
    assert_eq!(buf, vec![5i64]);

    let x = g.insert(Node::Constant(3));
    g.connect(x, m).unwrap();
    let mut buf = vec![10i64, -1];
    g.render(&mut buf, 44_100);
    assert_eq!(buf, vec![13i64, 2]);
}
