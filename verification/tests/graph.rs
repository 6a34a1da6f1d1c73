use amba::graph::{Graph, Node};
use std::collections::BTreeMap;

fn n(id: u64, from: &[u64], to: &[u64], of: &[u64]) -> Node {
    Node::from_parts(id, from, to, of)
}

fn nodes(v: Vec<(u64, Node)>) -> BTreeMap<u64, Node> {
    v.into_iter().collect()
}

/// Every node pair has matching `to` and `from`.
fn verify(g: &Graph) {
    for (k, v) in g.nodes.iter() {
        for out in v.from.iter() {
            assert!(g.nodes[&out].to.contains(k), "{out}.to contains {k}?");
        }
        for to in v.to.iter() {
            assert!(g.nodes[&to].from.contains(k), "{to}.from contains {k}?");
        }
    }
}

/// Nodes are equal when their ids, edge sets and (ordered) ids they stand
/// for are.
fn node_eq(a: &Node, b: &Node) -> bool {
    a.id == b.id && a.from.same_elements(&b.from) && a.to.same_elements(&b.to) && a.of.to_vec() == b.of.to_vec()
}

fn describe(m: &BTreeMap<u64, Node>) -> String {
    let mut s = String::new();
    for (k, v) in m.iter() {
        let mut f = v.from.iter();
        f.sort();
        let mut t = v.to.iter();
        t.sort();
        s.push_str(&format!("{k}: id {} from {:?} to {:?} of {:?}\n", v.id, f, t, v.of.to_vec()));
    }
    s
}

fn assert_nodes_eq(a: &BTreeMap<u64, Node>, b: &BTreeMap<u64, Node>) {
    let same = a.len() == b.len()
        && a.iter().zip(b.iter()).all(|((ka, na), (kb, nb))| ka == kb && node_eq(na, nb));
    assert!(same, "left:\n{}right:\n{}", describe(a), describe(b));
}

/// A small deterministic generator standing in for random instructions.
struct Lcg(u64);

impl Lcg {
    fn below(&mut self, n: u64) -> u64 {
        self.0 = self.0.wrapping_mul(6364136223846793005).wrapping_add(1442695040888963407);
        (self.0 >> 33) % n
    }
}

fn compare_behaviour_compression(instructions: Vec<(u64, u64)>) {
    let mut fast = Graph::new();
    let mut slow = Graph::new();
    for (from, to) in instructions.into_iter() {
        slow.update(from, to);
        fast.revert_and_update(from, to);
        fast.compress_with_hint(from, to);

        let mut fast_ = fast.clone();
        fast_.apply_merges();

        let mut clone = slow.clone();
        clone.compress();
        clone.apply_merges();

        assert_nodes_eq(&fast_.nodes, &clone.nodes);
    }
}

#[test]
fn compare_10_20_compression() {
    let mut rng = Lcg(0x5eed);
    for _ in 0..10_000 {
        let instructions: Vec<(u64, u64)> = (0..20).map(|_| (rng.below(10), rng.below(10))).collect();
        compare_behaviour_compression(instructions);
    }
}

/// 0 → 1 → 2
#[test]
fn graph_straight_line() {
    let mut graph = Graph::with_nodes(nodes(vec![
            (0, n(0, &[], &[1], &[0])),
            (1, n(1, &[0], &[2], &[1])),
            (2, n(2, &[1], &[], &[2])),
        ]),
    );
    let expected =
        Graph::with_nodes(nodes(vec![(0, n(0, &[], &[], &[0, 1, 2]))]));
    verify(&graph);
    verify(&expected);
    graph.compress();
    graph.apply_merges();
    verify(&graph);
    assert_nodes_eq(&graph.nodes, &expected.nodes);
}

/// 2 → 1 → 0
#[test]
fn graph_straight_line_rev() {
    let mut graph = Graph::with_nodes(nodes(vec![
            (0, n(0, &[1], &[], &[0])),
            (1, n(1, &[2], &[0], &[1])),
            (2, n(2, &[], &[1], &[2])),
        ]),
    );
    let expected =
        Graph::with_nodes(nodes(vec![(0, n(0, &[], &[], &[2, 1, 0]))]));
    verify(&graph);
    verify(&expected);
    graph.compress();
    graph.apply_merges();
    verify(&graph);
    assert_nodes_eq(&graph.nodes, &expected.nodes);
}

/// 0 → 1
#[test]
fn graph_short_line() {
            let mut graph = Graph::with_nodes(nodes(vec![
            (0, n(0, &[], &[1], &[0])),
            (1, n(1, &[0], &[], &[1]))
        ]),
    );
    let expected = Graph::with_nodes(nodes(vec![(0, n(0, &[], &[], &[0, 1]))]));
    verify(&graph);
    verify(&expected);
    graph.compress();
    graph.apply_merges();
    verify(&graph);
    assert_nodes_eq(&graph.nodes, &expected.nodes);
}

/// 1 → 0
#[test]
fn graph_short_line_rev() {
    let mut graph = Graph::with_nodes(nodes(vec![(0, n(0, &[1], &[], &[0])), (1, n(1, &[], &[0], &[1]))]),
    );
    let expected = Graph::with_nodes(nodes(vec![(0, n(0, &[], &[], &[1, 0]))]));
    verify(&graph);
    verify(&expected);
    graph.compress();
    graph.apply_merges();
    verify(&graph);
    assert_nodes_eq(&graph.nodes, &expected.nodes);
}

///   0
///  ↙ ↘
/// 1   2
///  ↘ ↙
///   3
#[test]
fn graph_diamond() {
    let mut graph = Graph::with_nodes(nodes(vec![
            (0, n(0, &[], &[1, 2], &[0])),
            (1, n(1, &[0], &[3], &[1])),
            (2, n(2, &[0], &[3], &[2])),
            (3, n(3, &[1, 2], &[], &[3])),
        ]),
    );
    let expected = graph.clone();
    verify(&graph);
    verify(&expected);
    graph.compress();
    graph.apply_merges();
    verify(&graph);
    assert_nodes_eq(&graph.nodes, &expected.nodes);
}

///   3
///  ↙ ↘
/// 1   2
///  ↘ ↙
///   0
#[test]
fn graph_diamond_rev() {
    let mut graph = Graph::with_nodes(nodes(vec![
            (0, n(0, &[1, 2], &[], &[0])),
            (1, n(1, &[3], &[0], &[1])),
            (2, n(2, &[3], &[0], &[2])),
            (3, n(3, &[], &[1, 2], &[3])),
        ]),
    );
    let expected = graph.clone();
    verify(&graph);
    verify(&expected);
    graph.compress();
    graph.apply_merges();
    verify(&graph);
    assert_nodes_eq(&graph.nodes, &expected.nodes);
}

/// 4 → 0
/// ↑  ↙ ↘
/// 5 1   2
/// ↑  ↘ ↙
/// 6   3
#[test]
fn graph_diamond_on_stick() {
    let mut graph = Graph::with_nodes(nodes(vec![
            (0, n(0, &[4], &[1, 2], &[0])),
            (1, n(1, &[0], &[3], &[1])),
            (2, n(2, &[0], &[3], &[2])),
            (3, n(3, &[1, 2], &[], &[3])),
            (4, n(4, &[5], &[0], &[4])),
            (5, n(5, &[6], &[4], &[5])),
            (6, n(6, &[], &[5], &[6])),
        ]),
    );
    let expected = Graph::with_nodes(nodes(vec![
            (0, n(0, &[], &[1, 2], &[6, 5, 4, 0])),
            (1, n(1, &[0], &[3], &[1])),
            (2, n(2, &[0], &[3], &[2])),
            (3, n(3, &[1, 2], &[], &[3])),
        ]),
    );
    verify(&graph);
    verify(&expected);
    graph.compress();
    graph.apply_merges();
    verify(&graph);
    assert_nodes_eq(&graph.nodes, &expected.nodes);
}

/// 6 → 3
/// ↑  ↙ ↘
/// 5 1   2
/// ↑  ↘ ↙
/// 4   0
#[test]
fn graph_diamond_on_stick_rev() {
    let mut graph = Graph::with_nodes(nodes(vec![
            (0, n(0, &[1, 2], &[], &[0])),
            (1, n(1, &[3], &[0], &[1])),
            (2, n(2, &[3], &[0], &[2])),
            (3, n(3, &[6], &[1, 2], &[3])),
            (4, n(4, &[], &[5], &[4])),
            (5, n(5, &[4], &[6], &[5])),
            (6, n(6, &[5], &[3], &[6])),
        ]),
    );
    let expected = Graph::with_nodes(nodes(vec![
            (0, n(0, &[1, 2], &[], &[0])),
            (1, n(1, &[3], &[0], &[1])),
            (2, n(2, &[3], &[0], &[2])),
            (3, n(3, &[], &[1, 2], &[4, 5, 6, 3])),
        ]),
    );
    verify(&graph);
    verify(&expected);
    graph.compress();
    graph.apply_merges();
    verify(&graph);
    assert_nodes_eq(&graph.nodes, &expected.nodes);
}

/// 0   1
///  ↘ ↙
///   2
///   ↓
///   3
///  ↙ ↘
/// 4   5
#[test]
fn graph_cross() {
    let mut graph = Graph::with_nodes(nodes(vec![
            (0, n(0, &[], &[2], &[0])),
            (1, n(1, &[], &[2], &[1])),
            (2, n(2, &[0, 1], &[3], &[2])),
            (3, n(3, &[2], &[4, 5], &[3])),
            (4, n(4, &[3], &[], &[4])),
            (5, n(5, &[3], &[], &[5])),
        ]),
    );
    let expected = Graph::with_nodes(nodes(vec![
            (0, n(0, &[], &[2], &[0])),
            (1, n(1, &[], &[2], &[1])),
            (2, n(2, &[0, 1], &[4, 5], &[2, 3])),
            (4, n(4, &[2], &[], &[4])),
            (5, n(5, &[2], &[], &[5])),
        ]),
    );
    verify(&graph);
    verify(&expected);
    graph.compress();
    graph.apply_merges();
    verify(&graph);
    assert_nodes_eq(&graph.nodes, &expected.nodes);
}

/// 4   5
///  ↘ ↙
///   3
///   ↓
///   2
///  ↙ ↘
/// 0   1
#[test]
fn graph_cross_rev() {
    let mut graph = Graph::with_nodes(nodes(vec![
            (0, n(0, &[2], &[], &[0])),
            (1, n(1, &[2], &[], &[1])),
            (2, n(2, &[3], &[0, 1], &[2])),
            (3, n(3, &[4, 5], &[2], &[3])),
            (4, n(4, &[], &[3], &[4])),
            (5, n(5, &[], &[3], &[5])),
        ]),
    );
    let expected = Graph::with_nodes(nodes(vec![
            (0, n(0, &[2], &[], &[0])),
            (1, n(1, &[2], &[], &[1])),
            (2, n(2, &[4, 5], &[0, 1], &[3, 2])),
            (4, n(4, &[], &[2], &[4])),
            (5, n(5, &[], &[2], &[5])),
        ]),
    );
    verify(&graph);
    verify(&expected);
    graph.compress();
    graph.apply_merges();
    verify(&graph);
    assert_nodes_eq(&graph.nodes, &expected.nodes);
}

///   0
///  ↙ ↖
/// 1   3
///  ↘ ↗
///   2
#[test]
fn graph_cycle() {
    let mut graph = Graph::with_nodes(nodes(vec![
            (0, n(0, &[3], &[1], &[0])),
            (1, n(1, &[0], &[2], &[1])),
            (2, n(2, &[1], &[3], &[2])),
            (3, n(3, &[2], &[0], &[3])),
        ]),
    );
    let expected = Graph::with_nodes(nodes(vec![(0, n(0, &[0], &[0], &[0, 1, 2, 3]))]),
    );
    verify(&graph);
    verify(&expected);
    graph.compress();
    graph.apply_merges();
    verify(&graph);
    assert_nodes_eq(&graph.nodes, &expected.nodes);
}

///   0
///  ↙ ↖
/// 3   1
///  ↘ ↗
///   2
#[test]
fn graph_cycle_rev() {
    let mut graph = Graph::with_nodes(nodes(vec![
            (0, n(0, &[1], &[3], &[0])),
            (1, n(1, &[2], &[0], &[1])),
            (2, n(2, &[3], &[1], &[2])),
            (3, n(3, &[0], &[2], &[3])),
        ]),
    );
    let expected = Graph::with_nodes(nodes(vec![(0, n(0, &[0], &[0], &[0, 3, 2, 1]))]),
    );
    verify(&graph);
    verify(&expected);
    graph.compress();
    graph.apply_merges();
    verify(&graph);
    assert_nodes_eq(&graph.nodes, &expected.nodes);
}

/// 0   1
/// ↓   ↓
/// 2   3
///  ↘ ↙
///   4
#[test]
fn graph_v() {
    let mut graph = Graph::with_nodes(nodes(vec![
            (0, n(0, &[], &[2], &[0])),
            (1, n(1, &[], &[3], &[1])),
            (2, n(2, &[0], &[4], &[2])),
            (3, n(3, &[1], &[4], &[3])),
            (4, n(4, &[2, 3], &[], &[4])),
        ]),
    );
    let expected = Graph::with_nodes(nodes(vec![
            (0, n(0, &[], &[4], &[0, 2])),
            (1, n(1, &[], &[4], &[1, 3])),
            (4, n(4, &[0, 1], &[], &[4])),
        ]),
    );
    verify(&graph);
    verify(&expected);
    graph.compress();
    graph.apply_merges();
    verify(&graph);
    assert_nodes_eq(&graph.nodes, &expected.nodes);
}

/// 0 → 1 → 2
#[test]
fn graph_straight_line_hint() {
    let mut graph = Graph::with_nodes(nodes(vec![
            (0, n(0, &[], &[1], &[0])),
            (1, n(1, &[0], &[2], &[1])),
            (2, n(2, &[1], &[], &[2])),
        ]),
    );
    let expected =
        Graph::with_nodes(nodes(vec![(0, n(0, &[], &[], &[0, 1, 2]))]));
    verify(&graph);
    verify(&expected);
    graph.compress_with_hint(0, 1);
    graph.apply_merges();
    verify(&graph);
    assert_nodes_eq(&graph.nodes, &expected.nodes);
}

/// 2 → 1 → 0
#[test]
fn graph_straight_line_rev_hint() {
    let mut graph = Graph::with_nodes(nodes(vec![
            (0, n(0, &[1], &[], &[0])),
            (1, n(1, &[2], &[0], &[1])),
            (2, n(2, &[], &[1], &[2])),
        ]),
    );
    let expected =
        Graph::with_nodes(nodes(vec![(0, n(0, &[], &[], &[2, 1, 0]))]));
    verify(&graph);
    verify(&expected);
    graph.compress_with_hint(0, 1);
    graph.apply_merges();
    verify(&graph);
    assert_nodes_eq(&graph.nodes, &expected.nodes);
}

///   0
///  ↙ ↘
/// 1   2
///  ↘ ↙
///   3
#[test]
fn graph_diamond_hint() {
    let mut graph = Graph::with_nodes(nodes(vec![
            (0, n(0, &[], &[1, 2], &[0])),
            (1, n(1, &[0], &[3], &[1])),
            (2, n(2, &[0], &[3], &[2])),
            (3, n(3, &[1, 2], &[], &[3])),
        ]),
    );
    let expected = graph.clone();
    verify(&graph);
    verify(&expected);
    graph.compress_with_hint(0, 1);
    graph.apply_merges();
    verify(&graph);
    assert_nodes_eq(&graph.nodes, &expected.nodes);
}

///   3
///  ↙ ↘
/// 1   2
///  ↘ ↙
///   0
#[test]
fn graph_diamond_rev_hint() {
    let mut graph = Graph::with_nodes(nodes(vec![
            (0, n(0, &[1, 2], &[], &[0])),
            (1, n(1, &[3], &[0], &[1])),
            (2, n(2, &[3], &[0], &[2])),
            (3, n(3, &[], &[1, 2], &[3])),
        ]),
    );
    let expected = graph.clone();
    verify(&graph);
    verify(&expected);
    graph.compress_with_hint(3, 1);
    graph.apply_merges();
    verify(&graph);
    assert_nodes_eq(&graph.nodes, &expected.nodes);
}

/// 4 → 0
/// ↑  ↙ ↘
/// 5 1   2
/// ↑  ↘ ↙
/// 6   3
#[test]
fn graph_diamond_on_stick_hint() {
    let mut graph = Graph::with_nodes(nodes(vec![
            (0, n(0, &[4], &[1, 2], &[0])),
            (1, n(1, &[0], &[3], &[1])),
            (2, n(2, &[0], &[3], &[2])),
            (3, n(3, &[1, 2], &[], &[3])),
            (4, n(4, &[5], &[0], &[4])),
            (5, n(5, &[6], &[4], &[5])),
            (6, n(6, &[], &[5], &[6])),
        ]),
    );
    let expected = Graph::with_nodes(nodes(vec![
            (0, n(0, &[], &[1, 2], &[6, 5, 4, 0])),
            (1, n(1, &[0], &[3], &[1])),
            (2, n(2, &[0], &[3], &[2])),
            (3, n(3, &[1, 2], &[], &[3])),
        ]),
    );
    verify(&graph);
    verify(&expected);
    graph.compress_with_hint(5, 4);
    graph.apply_merges();
    verify(&graph);
    assert_nodes_eq(&graph.nodes, &expected.nodes);
}

/// 6 → 3
/// ↑  ↙ ↘
/// 5 1   2
/// ↑  ↘ ↙
/// 4   0
#[test]
fn graph_diamond_on_stick_rev_hint() {
    let mut graph = Graph::with_nodes(nodes(vec![
            (0, n(0, &[1, 2], &[], &[0])),
            (1, n(1, &[3], &[0], &[1])),
            (2, n(2, &[3], &[0], &[2])),
            (3, n(3, &[6], &[1, 2], &[3])),
            (4, n(4, &[], &[5], &[4])),
            (5, n(5, &[4], &[6], &[5])),
            (6, n(6, &[5], &[3], &[6])),
        ]),
    );
    let expected = Graph::with_nodes(nodes(vec![
            (0, n(0, &[1, 2], &[], &[0])),
            (1, n(1, &[3], &[0], &[1])),
            (2, n(2, &[3], &[0], &[2])),
            (3, n(3, &[], &[1, 2], &[4, 5, 6, 3])),
        ]),
    );
    verify(&graph);
    verify(&expected);
    graph.compress_with_hint(5, 6);
    graph.apply_merges();
    verify(&graph);
    assert_nodes_eq(&graph.nodes, &expected.nodes);
}

/// 0   1
///  ↘ ↙
///   2
///   ↓
///   3
///  ↙ ↘
/// 4   5
#[test]
fn graph_cross_hint() {
    let mut graph = Graph::with_nodes(nodes(vec![
            (0, n(0, &[], &[2], &[0])),
            (1, n(1, &[], &[2], &[1])),
            (2, n(2, &[0, 1], &[3], &[2])),
            (3, n(3, &[2], &[4, 5], &[3])),
            (4, n(4, &[3], &[], &[4])),
            (5, n(5, &[3], &[], &[5])),
        ]),
    );
    let expected = Graph::with_nodes(nodes(vec![
            (0, n(0, &[], &[2], &[0])),
            (1, n(1, &[], &[2], &[1])),
            (2, n(2, &[0, 1], &[4, 5], &[2, 3])),
            (4, n(4, &[2], &[], &[4])),
            (5, n(5, &[2], &[], &[5])),
        ]),
    );
    verify(&graph);
    verify(&expected);
    graph.compress_with_hint(2, 3);
    graph.apply_merges();
    verify(&graph);
    assert_nodes_eq(&graph.nodes, &expected.nodes);
}

/// 4   5
///  ↘ ↙
///   3
///   ↓
///   2
///  ↙ ↘
/// 0   1
#[test]
fn graph_cross_rev_hint() {
    let mut graph = Graph::with_nodes(nodes(vec![
            (0, n(0, &[2], &[], &[0])),
            (1, n(1, &[2], &[], &[1])),
            (2, n(2, &[3], &[0, 1], &[2])),
            (3, n(3, &[4, 5], &[2], &[3])),
            (4, n(4, &[], &[3], &[4])),
            (5, n(5, &[], &[3], &[5])),
        ]),
    );
    let expected = Graph::with_nodes(nodes(vec![
            (0, n(0, &[2], &[], &[0])),
            (1, n(1, &[2], &[], &[1])),
            (2, n(2, &[4, 5], &[0, 1], &[3, 2])),
            (4, n(4, &[], &[2], &[4])),
            (5, n(5, &[], &[2], &[5])),
        ]),
    );
    verify(&graph);
    verify(&expected);
    graph.compress_with_hint(3, 2);
    graph.apply_merges();
    verify(&graph);
    assert_nodes_eq(&graph.nodes, &expected.nodes);
}

///   0
///  ↙ ↖
/// 1   3
///  ↘ ↗
///   2
#[test]
fn graph_cycle_hint() {
    let mut graph = Graph::with_nodes(nodes(vec![
            (0, n(0, &[3], &[1], &[0])),
            (1, n(1, &[0], &[2], &[1])),
            (2, n(2, &[1], &[3], &[2])),
            (3, n(3, &[2], &[0], &[3])),
        ]),
    );
    let expected = Graph::with_nodes(nodes(vec![(0, n(0, &[0], &[0], &[0, 1, 2, 3]))]),
    );
    verify(&graph);
    verify(&expected);
    graph.compress_with_hint(0, 1);
    graph.apply_merges();
    verify(&graph);
    assert_nodes_eq(&graph.nodes, &expected.nodes);
}

///   0
///  ↙ ↖
/// 3   1
///  ↘ ↗
///   2
#[test]
fn graph_cycle_rev_hint() {
    let mut graph = Graph::with_nodes(nodes(vec![
            (0, n(0, &[1], &[3], &[0])),
            (1, n(1, &[2], &[0], &[1])),
            (2, n(2, &[3], &[1], &[2])),
            (3, n(3, &[0], &[2], &[3])),
        ]),
    );
    let expected = Graph::with_nodes(nodes(vec![(0, n(0, &[0], &[0], &[0, 3, 2, 1]))]),
    );
    verify(&graph);
    verify(&expected);
    graph.compress_with_hint(2, 1);
    graph.apply_merges();
    verify(&graph);
    assert_nodes_eq(&graph.nodes, &expected.nodes);
}

/// 0   1
/// ↓   ↓
/// 2   3
///  ↘ ↙
///   4
#[test]
fn graph_v_hint() {
    let mut graph = Graph::with_nodes(nodes(vec![
            (0, n(0, &[], &[2], &[0])),
            (1, n(1, &[], &[3], &[1])),
            (2, n(2, &[0], &[4], &[2])),
            (3, n(3, &[1], &[4], &[3])),
            (4, n(4, &[2, 3], &[], &[4])),
        ]),
    );
    let expected = Graph::with_nodes(nodes(vec![
            (0, n(0, &[], &[4], &[0, 2])),
            (1, n(1, &[], &[3], &[1])),
            (3, n(3, &[1], &[4], &[3])),
            (4, n(4, &[0, 3], &[], &[4])),
        ]),
    );
    verify(&graph);
    verify(&expected);
    graph.compress_with_hint(2, 4);
    graph.apply_merges();
    verify(&graph);
    assert_nodes_eq(&graph.nodes, &expected.nodes);
}

/// 0 → 1 → 2
/// ↓
/// 3
#[test]
fn graph_incremental_l() {
    let mut graph = Graph::with_nodes(nodes(vec![
            (0, n(0, &[], &[1], &[0])),
            (1, n(1, &[0], &[2], &[1])),
            (2, n(2, &[1], &[], &[2])),
        ]),
    );
    let expected_1 =
        Graph::with_nodes(nodes(vec![(0, n(0, &[], &[], &[0, 1, 2]))]));
    let expected_2 = Graph::with_nodes(nodes(vec![
            (0, n(0, &[], &[1, 3], &[0])),
            (1, n(1, &[0], &[], &[1, 2])),
            (3, n(3, &[0], &[], &[3])),
        ]),
    );
    verify(&graph);
    verify(&expected_1);
    verify(&expected_2);

    graph.compress();
    graph.apply_merges();
    assert_nodes_eq(&graph.nodes, &expected_1.nodes);
    graph.revert_and_update(0, 3);
    graph.compress_with_hint(0, 3);
    graph.apply_merges();
    assert_nodes_eq(&graph.nodes, &expected_2.nodes);
}

#[test]
fn incremental_generated_1() {
    let mut slow = Graph::new();
    let mut fast = Graph::new();

    let mut cycle = |from, to| {
        slow.update(from, to);
        fast.revert_and_update(from, to);
        fast.compress_with_hint(from, to);

        let mut fast_ = fast.clone();
        fast_.apply_merges();

        let mut clone = slow.clone();
        clone.compress();
        clone.apply_merges();

        assert_nodes_eq(&fast_.nodes, &clone.nodes);
    };

    cycle(9, 8);
    cycle(0, 9);
    cycle(1, 8);
}

#[test]
fn incremental_generated_2() {
    let mut slow = Graph::new();
    let mut fast = Graph::new();

    let mut cycle = |from, to| {
        slow.update(from, to);
        fast.revert_and_update(from, to);
        fast.compress_with_hint(from, to);

        let mut fast_ = fast.clone();
        fast_.apply_merges();

        let mut clone = slow.clone();
        clone.compress();
        clone.apply_merges();

        assert_nodes_eq(&fast_.nodes, &clone.nodes);
    };

    cycle(0, 0);
    cycle(2, 0);
    cycle(2, 4);
    cycle(1, 3);
    cycle(3, 0);
    cycle(2, 3);
}

#[test]
fn incremental_generated_2_rev() {
    let mut slow = Graph::new();
    let mut fast = Graph::new();

    let mut cycle = |from, to| {
        slow.update(from, to);
        fast.revert_and_update(from, to);
        fast.compress_with_hint(from, to);

        let mut fast_ = fast.clone();
        fast_.apply_merges();

        let mut clone = slow.clone();
        clone.compress();
        clone.apply_merges();

        assert_nodes_eq(&fast_.nodes, &clone.nodes);
    };

    cycle(0, 0);
    cycle(2, 0);
    cycle(2, 4);
    cycle(3, 0);
    cycle(1, 3);
    cycle(2, 3);
}

#[test]
fn incremental_generated_3() {
    let mut slow = Graph::new();
    let mut fast = Graph::new();

    let mut cycle = |from, to| {
        slow.update(from, to);
        fast.revert_and_update(from, to);
        fast.compress_with_hint(from, to);

        let mut fast_ = fast.clone();
        fast_.apply_merges();

        let mut clone = slow.clone();
        clone.compress();
        clone.apply_merges();

        assert_nodes_eq(&fast_.nodes, &clone.nodes);
    };

    cycle(0, 0);
    cycle(0, 4);
    cycle(0, 2);
    cycle(8, 1);
    cycle(8, 0);
}

#[test]
fn incremental_generated_4() {
    let mut slow = Graph::new();
    let mut fast = Graph::new();

    let mut cycle = |from, to| {
        slow.update(from, to);
        fast.revert_and_update(from, to);
        fast.compress_with_hint(from, to);

        let mut fast_ = fast.clone();
        fast_.apply_merges();

        let mut clone = slow.clone();
        clone.compress();
        clone.apply_merges();

        assert_nodes_eq(&fast_.nodes, &clone.nodes);
    };

    cycle(0, 0);
    cycle(0, 2);
    cycle(5, 1);
    cycle(1, 2);
    cycle(5, 2);
}

#[test]
fn incremental_generated_5() {
    let mut slow = Graph::new();
    let mut fast = Graph::new();

    let mut cycle = |from, to| {
        slow.update(from, to);
        fast.revert_and_update(from, to);
        fast.compress_with_hint(from, to);

        let mut fast_ = fast.clone();
        fast_.apply_merges();

        let mut clone = slow.clone();
        clone.compress();
        clone.apply_merges();

        assert_nodes_eq(&fast_.nodes, &clone.nodes);
    };

    cycle(0, 2);
    cycle(0, 0);
    cycle(0, 5);
    cycle(2, 1);
    cycle(3, 2);
    cycle(3, 1);
}

#[test]
fn incremental_generated_6() {
    let mut slow = Graph::new();
    let mut fast = Graph::new();

    let mut cycle = |from, to| {
        slow.update(from, to);
        fast.revert_and_update(from, to);
        fast.compress_with_hint(from, to);

        let mut fast_ = fast.clone();
        fast_.apply_merges();

        let mut clone = slow.clone();
        clone.compress();
        clone.apply_merges();

        assert_nodes_eq(&fast_.nodes, &clone.nodes);
    };

    cycle(0, 0);
    cycle(2, 3);
    cycle(3, 0);
    cycle(0, 4);
    cycle(1, 2);
    cycle(2, 0);
}

#[test]
fn incremental_generated_7() {
    let mut slow = Graph::new();
    let mut fast = Graph::new();

    let mut cycle = |from, to| {
        slow.update(from, to);
        fast.revert_and_update(from, to);
        fast.compress_with_hint(from, to);

        let mut fast_ = fast.clone();
        fast_.apply_merges();

        let mut clone = slow.clone();
        clone.compress();
        clone.apply_merges();

        assert_nodes_eq(&fast_.nodes, &clone.nodes);
    };

    cycle(0, 8);
    cycle(8, 8);
    cycle(0, 0);
}

#[test]
fn incremental_generated_8() {
    let mut slow = Graph::new();
    let mut fast = Graph::new();

    let mut cycle = |from, to| {
        slow.update(from, to);
        fast.revert_and_update(from, to);
        fast.compress_with_hint(from, to);

        let mut fast_ = fast.clone();
        fast_.apply_merges();

        let mut clone = slow.clone();
        clone.compress();
        clone.apply_merges();

        assert_nodes_eq(&fast_.nodes, &clone.nodes);
    };

    cycle(0, 0);
    cycle(0, 7);
    cycle(5, 0);
    cycle(0, 0);
    cycle(8, 3);
    cycle(0, 0);
    cycle(4, 0);
    cycle(3, 7);
    cycle(0, 2);
    cycle(7, 1);
    cycle(0, 3);
    cycle(0, 0);
}

#[test]
fn incremental_generated_9() {
    let mut slow = Graph::new();
    let mut fast = Graph::new();

    let mut cycle = |from, to| {
        slow.update(from, to);
        fast.revert_and_update(from, to);
        fast.compress_with_hint(from, to);

        let mut fast_ = fast.clone();
        fast_.apply_merges();

        let mut clone = slow.clone();
        clone.compress();
        clone.apply_merges();

        assert_nodes_eq(&fast_.nodes, &clone.nodes);
    };

    cycle(0, 0);
    cycle(8, 2);
    cycle(2, 4);
    cycle(4, 2);
    cycle(0, 4);
}

#[test]
fn incremental_generated_10() {
    let mut slow = Graph::new();
    let mut fast = Graph::new();

    let mut cycle = |from, to| {
        slow.update(from, to);
        fast.revert_and_update(from, to);
        fast.compress_with_hint(from, to);

        let mut fast_ = fast.clone();
        fast_.apply_merges();

        let mut clone = slow.clone();
        clone.compress();
        clone.apply_merges();

        assert_nodes_eq(&fast_.nodes, &clone.nodes);
    };

    cycle(9, 6);
    cycle(0, 3);
    cycle(2, 9);
    cycle(3, 3);
    cycle(6, 2);
}

#[test]
fn incremental_generated_11() {
    let mut slow = Graph::new();
    let mut fast = Graph::new();

    let mut cycle = |from, to| {
        slow.update(from, to);
        fast.revert_and_update(from, to);
        fast.compress_with_hint(from, to);

        let mut fast_ = fast.clone();
        fast_.apply_merges();

        let mut clone = slow.clone();
        clone.compress();
        clone.apply_merges();

        assert_nodes_eq(&fast_.nodes, &clone.nodes);
    };

    cycle(1, 0);
    cycle(2, 2);
    cycle(6, 1);
    cycle(0, 1);
    cycle(0, 7);
}

#[test]
fn incremental_generated_12() {
    let mut slow = Graph::new();
    let mut fast = Graph::new();

    let mut cycle = |from, to| {
        slow.update(from, to);
        fast.revert_and_update(from, to);
        fast.compress_with_hint(from, to);

        let mut fast_ = fast.clone();
        fast_.apply_merges();

        let mut clone = slow.clone();
        clone.compress();
        clone.apply_merges();

        assert_nodes_eq(&fast_.nodes, &clone.nodes);
    };

    cycle(0, 5);
    cycle(1, 0);
    cycle(5, 1);
    cycle(5, 5);
    cycle(0, 0);
}

#[test]
fn incremental_generated_13() {
    let mut slow = Graph::new();
    let mut fast = Graph::new();

    let mut cycle = |from, to| {
        slow.update(from, to);
        fast.revert_and_update(from, to);
        fast.compress_with_hint(from, to);

        let mut fast_ = fast.clone();
        fast_.apply_merges();

        let mut clone = slow.clone();
        clone.compress();
        clone.apply_merges();

        assert_nodes_eq(&fast_.nodes, &clone.nodes);
    };

    cycle(4, 8);
    cycle(7, 4);
    cycle(8, 2);
    cycle(9, 7);
    cycle(1, 9);
    cycle(2, 2);
    cycle(2, 0);
    cycle(0, 0);
    slow.update(9, 7);
    fast.revert_and_update(9, 7);
    fast.compress_with_hint(9, 7);

    let mut fast_ = fast.clone();
    fast_.apply_merges();

    let mut clone = slow.clone();
    clone.compress();
    clone.apply_merges();

    assert_nodes_eq(&fast_.nodes, &clone.nodes);

    //cycle(9, 7);
}

// (1, 0), (2, 2), (6, 1), (0, 1), (0, 0)
// (0, 5), (1, 0), (5, 1), (1, 0), (5, 5), (0, 0),

// (4, 8), (7, 4), (8, 2), (9, 7), (1, 9), (2, 2), (2, 0), (2, 0), (2, 0), (0, 0), (9, 7),

// (3, 2), (2, 7), (0, 3), (7, 9), (9, 1), (3, 3), (0, 2), (7, 9),



fn all_ids(g: &Graph) -> Vec<u64> {
    let mut v: Vec<u64> = g.nodes.values().flat_map(|n| n.of.to_vec()).collect();
    v.sort();
    v
}

#[test]
fn update_reports_new_edges_and_keeps_ends_matching() {
    let mut g = Graph::new();
    assert!(g.update(1, 2));
    assert!(!g.update(1, 2));
    assert!(g.update(2, 1));
    assert!(g.update(3, 3));
    verify(&g);
    assert_eq!(g.len(), 3);
    assert_eq!(g.edges(), vec![(1, 2), (2, 1), (3, 3)]);
    assert!(g.is_loop(3));
    assert!(!g.is_loop(1));
}

#[test]
fn edges_renamed_by_position() {
    let mut g = Graph::new();
    g.update(30, 10);
    g.update(10, 20);
    g.update(20, 20);
    assert_eq!(g.edge_list_sequentially_renamed(), vec![(0, 1), (1, 1), (2, 0)]);
}

#[test]
fn merge_nodes_joins_two_nodes() {
    let mut g = Graph::with_nodes(nodes(vec![
        (0, n(0, &[], &[1], &[0])),
        (1, n(1, &[0], &[2], &[1])),
        (2, n(2, &[1], &[], &[2])),
    ]));
    assert_eq!(g.merge_nodes(1, 0), 0);
    assert_eq!(g.len(), 2);
    assert_eq!(g.nodes[&0].of.to_vec(), vec![1, 0]);
    assert_eq!(g.nodes[&0].to.iter(), vec![2]);
    assert!(g.nodes[&0].from.is_empty());
    assert_eq!(g.nodes[&2].from.iter(), vec![0]);
    assert_eq!(g.get(1).map(|n| n.id), Some(0));
    assert_eq!(g.merge_nodes(2, 2), 2);
}

#[test]
fn merging_a_two_cycle_keeps_a_self_edge() {
    let mut g = Graph::new();
    g.update(5, 4);
    g.update(4, 5);
    assert_eq!(g.merge_nodes(4, 5), 4);
    assert_eq!(g.nodes[&4].to.iter(), vec![4]);
    assert_eq!(g.nodes[&4].from.iter(), vec![4]);
    assert_eq!(g.nodes[&4].of.to_vec(), vec![4, 5]);
    assert!(g.is_loop(5));
}

#[test]
fn rotate_of_puts_least_first() {
    let mut g = Graph::with_nodes(nodes(vec![(1, n(1, &[1], &[1], &[3, 1, 2]))]));
    g.rotate_of(1);
    assert_eq!(g.nodes[&1].of.to_vec(), vec![1, 2, 3]);
    g.rotate_of(7);
    assert_eq!(g.len(), 1);
}

#[test]
fn split_before_and_after() {
    let mut g = Graph::with_nodes(nodes(vec![
        (0, n(0, &[], &[], &[0, 1, 2, 3])),
    ]));
    assert_eq!(g.split_before(9, 0), (9, 9));
    assert_eq!(g.split_before(0, 0), (0, 0));
    assert_eq!(g.split_before(2, 0), (0, 2));
    assert_eq!(g.nodes[&0].of.to_vec(), vec![0, 1]);
    assert_eq!(g.nodes[&2].of.to_vec(), vec![2, 3]);
    assert_eq!(g.nodes[&0].to.iter(), vec![2]);
    assert_eq!(g.nodes[&2].from.iter(), vec![0]);
    assert_eq!(g.split_after(2, 2), (2, 3));
    assert_eq!(g.nodes[&3].of.to_vec(), vec![3]);
    assert_eq!(g.split_after(3, 3), (3, 3));
    verify(&g);
    assert_eq!(all_ids(&g), vec![0, 1, 2, 3]);
}

#[test]
fn compression_keeps_every_id() {
    let mut g = Graph::new();
    for (a, b) in [(0, 1), (1, 2), (2, 3), (3, 1), (2, 4), (5, 0), (4, 6)] {
        g.update(a, b);
    }
    let before = all_ids(&g);
    let mut c = g.clone();
    c.compress();
    assert_eq!(all_ids(&c), before);
    c.apply_merges();
    verify(&c);
    assert!(c.len() < g.len());
    let mut h = g.clone();
    h.compress_with_hint(1, 2);
    assert_eq!(all_ids(&h), before);
}

#[test]
fn revert_and_update_on_a_compressed_line() {
    let mut g = Graph::new();
    for (a, b) in [(0, 1), (1, 2), (2, 3)] {
        g.revert_and_update(a, b);
        g.compress_with_hint(a, b);
    }
    let mut c = g.clone();
    c.apply_merges();
    assert_nodes_eq(&c.nodes, &nodes(vec![(0, n(0, &[], &[], &[0, 1, 2, 3]))]));
    g.revert_and_update(1, 3);
    g.compress_with_hint(1, 3);
    let mut c = g.clone();
    c.apply_merges();
    verify(&c);
    assert_eq!(all_ids(&c), vec![0, 1, 2, 3]);
}


/// [Image](https://upload.wikimedia.org/wikipedia/commons/e/e1/Scc-1.svg)
#[test]
fn strongly_connected_graph_small_kosaraju() {
    let graph = Graph::with_nodes(nodes(vec![
            (0, n(0, &[4], &[1], &[0])),
            (1, n(1, &[0], &[2, 4, 5], &[1])),
            (2, n(2, &[1, 3], &[3, 6], &[2])),
            (3, n(3, &[2, 7], &[2, 7], &[3])),
            (4, n(4, &[1], &[0, 5], &[4])),
            (5, n(5, &[1, 4, 6], &[6], &[5])),
            (6, n(6, &[2, 5, 7], &[5], &[6])),
            (7, n(7, &[3], &[3, 6], &[7])),
        ]),
    );
    verify(&graph);

    let expected = Graph::with_nodes(nodes(vec![
            (0, n(0, &[], &[2, 5], &[0, 1, 4])),
            (2, n(2, &[0], &[5], &[2, 3, 7])),
            (5, n(5, &[0, 2], &[], &[5, 6])),
        ]),
    );
    verify(&expected);

    let result = graph.to_strongly_connected_components_kosaraju();
    assert_nodes_eq(&result.nodes, &expected.nodes);
}


/// [Image](https://upload.wikimedia.org/wikipedia/commons/2/20/Graph_Condensation.svg)
#[test]
fn strongly_connected_graph_large_kosaraju() {
    let graph = Graph::with_nodes(nodes(vec![
            (0, n(0, &[1], &[2], &[0])),
            (1, n(1, &[2], &[0, 5], &[1])),
            (2, n(2, &[0, 3], &[1, 4], &[2])),
            (3, n(3, &[4], &[2, 9], &[3])),
            (4, n(4, &[2], &[3, 5, 10], &[4])),
            (5, n(5, &[1, 4], &[6, 8, 13], &[5])),
            (6, n(6, &[5, 8], &[7], &[6])),
            (7, n(7, &[6], &[8, 15], &[7])),
            (8, n(8, &[5, 7], &[6, 15], &[8])),
            (9, n(9, &[3, 11], &[10], &[9])),
            (10, n(10, &[9, 4], &[11, 12], &[10])),
            (11, n(11, &[10, 12], &[9], &[11])),
            (12, n(12, &[10], &[11, 13], &[12])),
            (13, n(13, &[5, 12, 14], &[14, 15], &[13])),
            (14, n(14, &[13], &[13], &[14])),
            (15, n(15, &[7, 8, 13], &[], &[15])),
        ]),
    );
    verify(&graph);

    let expected = Graph::with_nodes(nodes(vec![
            (0, n(0, &[], &[5, 9], &[0, 1, 2, 3, 4])),
            (5, n(5, &[0], &[6, 13], &[5])),
            (6, n(6, &[5], &[15], &[6, 7, 8])),
            (9, n(9, &[0], &[13], &[9, 10, 11, 12])),
            (13, n(13, &[5, 9], &[15], &[13, 14])),
            (15, n(15, &[6, 13], &[], &[15])),
        ]),
    );
    verify(&expected);

    let result = graph.to_strongly_connected_components_kosaraju();
    assert_nodes_eq(&result.nodes, &expected.nodes);
}



/// [Image](https://upload.wikimedia.org/wikipedia/commons/e/e1/Scc-1.svg)
#[test]
fn strongly_connected_graph_small_tarjan() {
    let graph = Graph::with_nodes(nodes(vec![
            (0, n(0, &[4], &[1], &[0])),
            (1, n(1, &[0], &[2, 4, 5], &[1])),
            (2, n(2, &[1, 3], &[3, 6], &[2])),
            (3, n(3, &[2, 7], &[2, 7], &[3])),
            (4, n(4, &[1], &[0, 5], &[4])),
            (5, n(5, &[1, 4, 6], &[6], &[5])),
            (6, n(6, &[2, 5, 7], &[5], &[6])),
            (7, n(7, &[3], &[3, 6], &[7])),
        ]),
    );
    verify(&graph);

    let expected = Graph::with_nodes(nodes(vec![
            (0, n(0, &[], &[2, 5], &[0, 1, 4])),
            (2, n(2, &[0], &[5], &[2, 3, 7])),
            (5, n(5, &[0, 2], &[], &[5, 6])),
        ]),
    );
    verify(&expected);

    let result = graph.to_strongly_connected_components_tarjan();
    assert_nodes_eq(&result.nodes, &expected.nodes);
}


/// [Image](https://upload.wikimedia.org/wikipedia/commons/2/20/Graph_Condensation.svg)
#[test]
fn strongly_connected_graph_large_tarjan() {
    let graph = Graph::with_nodes(nodes(vec![
            (0, n(0, &[1], &[2], &[0])),
            (1, n(1, &[2], &[0, 5], &[1])),
            (2, n(2, &[0, 3], &[1, 4], &[2])),
            (3, n(3, &[4], &[2, 9], &[3])),
            (4, n(4, &[2], &[3, 5, 10], &[4])),
            (5, n(5, &[1, 4], &[6, 8, 13], &[5])),
            (6, n(6, &[5, 8], &[7], &[6])),
            (7, n(7, &[6], &[8, 15], &[7])),
            (8, n(8, &[5, 7], &[6, 15], &[8])),
            (9, n(9, &[3, 11], &[10], &[9])),
            (10, n(10, &[9, 4], &[11, 12], &[10])),
            (11, n(11, &[10, 12], &[9], &[11])),
            (12, n(12, &[10], &[11, 13], &[12])),
            (13, n(13, &[5, 12, 14], &[14, 15], &[13])),
            (14, n(14, &[13], &[13], &[14])),
            (15, n(15, &[7, 8, 13], &[], &[15])),
        ]),
    );
    verify(&graph);

    let expected = Graph::with_nodes(nodes(vec![
            (0, n(0, &[], &[5, 9], &[0, 1, 2, 3, 4])),
            (5, n(5, &[0], &[6, 13], &[5])),
            (6, n(6, &[5], &[15], &[6, 7, 8])),
            (9, n(9, &[0], &[13], &[9, 10, 11, 12])),
            (13, n(13, &[5, 9], &[15], &[13, 14])),
            (15, n(15, &[6, 13], &[], &[15])),
        ]),
    );
    verify(&expected);

    let result = graph.to_strongly_connected_components_tarjan();
    assert_nodes_eq(&result.nodes, &expected.nodes);
}


#[test]
fn tarjan_kosaraju_eq_small() {
    let graph = Graph::with_nodes(nodes(vec![
        (0, n(0, &[4], &[1], &[0])),
        (1, n(1, &[0], &[2, 4, 5], &[1])),
        (2, n(2, &[1, 3], &[3, 6], &[2])),
        (3, n(3, &[2, 7], &[2, 7], &[3])),
        (4, n(4, &[1], &[0, 5], &[4])),
        (5, n(5, &[1, 4, 6], &[6], &[5])),
        (6, n(6, &[2, 5, 7], &[5], &[6])),
        (7, n(7, &[3], &[3, 6], &[7])),
    ]));

    let t = graph.tarjan();
    let k = graph.kosaraju();

    assert_nodes_eq(&t, &k);
}

fn compare_behaviour_scc(instructions: Vec<(u64, u64)>) {
    let mut graph = Graph::new();
    for (from, to) in instructions.into_iter() {
        graph.update(from, to);
    }

    let t = graph.to_strongly_connected_components_tarjan().nodes;
    let k = graph.to_strongly_connected_components_kosaraju().nodes;

    assert_nodes_eq(&t, &k);
}

#[test]
fn compare_10_20_scc() {
    let mut rng = Lcg(0x10_20);
    for _ in 0..10_000 {
        let instructions: Vec<(u64, u64)> = (0..20).map(|_| (rng.below(10), rng.below(10))).collect();
        compare_behaviour_scc(instructions);
    }
}

#[test]
fn compare_100_2000_scc() {
    // The ten thousand cases of this run are split over this test and the
    // next, which continues the same stream of edges.
    let mut rng = Lcg(0x100_2000);
    for _ in 0..5_000 {
        let instructions: Vec<(u64, u64)> = (0..2000).map(|_| (rng.below(100), rng.below(100))).collect();
        compare_behaviour_scc(instructions);
    }
}

#[test]
fn compare_100_2000_scc_continued() {
    let mut rng = Lcg(0x100_2000);
    for _ in 0..5_000 * 4_000 {
        rng.below(100);
    }
    for _ in 0..5_000 {
        let instructions: Vec<(u64, u64)> = (0..2000).map(|_| (rng.below(100), rng.below(100))).collect();
        compare_behaviour_scc(instructions);
    }
}

#[test]
fn inverse_tarjan_names_components() {
    let mut g = Graph::new();
    for (a, b) in [(0, 1), (1, 0), (1, 2), (2, 3), (3, 2), (4, 4)] {
        g.update(a, b);
    }
    let inv = g.inverse_tarjan();
    let got: Vec<(usize, usize)> = inv.into_iter().collect();
    assert_eq!(got, vec![(0, 0), (1, 0), (2, 2), (3, 2), (4, 4)]);
}



#[test]
fn tarjan_splits_an_acyclic_graph_into_single_nodes() {
    let mut g = Graph::new();
    g.update(0, 1);
    g.update(0, 2);
    g.update(2, 1);
    let expected = nodes(vec![
        (0, n(0, &[], &[1, 2], &[0])),
        (1, n(1, &[0, 2], &[], &[1])),
        (2, n(2, &[0], &[1], &[2])),
    ]);
    assert_nodes_eq(&g.tarjan(), &expected);
}

#[test]
fn tarjan_joins_nodes_that_reach_each_other() {
    let mut g = Graph::new();
    g.update(3, 1);
    g.update(1, 2);
    g.update(2, 3);
    g.update(2, 4);
    let parts = g.tarjan();
    let holder = |x: u64| parts.iter().find(|(_, p)| p.of.to_vec().contains(&x)).map(|(k, _)| *k).unwrap();
    assert_eq!(holder(1), holder(2));
    assert_eq!(holder(2), holder(3));
    assert_ne!(holder(3), holder(4));
    let big = &parts[&holder(1)];
    assert_eq!(big.id, 1);
    assert_eq!(big.of.to_vec(), vec![1, 2, 3]);
}
