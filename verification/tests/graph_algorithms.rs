use nll::dominators::{dominators, dominators_by_search};
use nll::iterate::{post_order, post_order_from, post_order_from_to, reverse_post_order};
use nll::loop_tree::loop_tree;
use nll::reachable::reachable;
use nll::transpose::TransposedGraph;
use nll::vec_graph::VecGraph;

#[test]
fn diamond_post_order() {
    let graph = VecGraph::new(0, &[(0, 1), (0, 2), (1, 3), (2, 3)]);

    let result = post_order_from(&graph, 0);
    assert_eq!(result, vec![3, 1, 2, 0]);
}

#[test]
fn test_diamond_post_order() {
    let graph = VecGraph::new(0, &[(0, 1), (0, 2), (1, 3), (2, 3)]);

    let result = post_order(&graph, 0);
    assert_eq!(result, vec![3, 1, 2, 0]);
}

#[test]
fn rev_post_order_inner_loop() {
    // 0 -> 1 ->     2     -> 3 -> 5
    //      ^     ^    v      |
    //      |     6 <- 4      |
    //      +-----------------+
    let graph = VecGraph::new(
        0,
        &[(0, 1), (1, 2), (2, 3), (3, 5), (3, 1), (2, 4), (4, 6), (6, 2)],
    );

    let rev_graph = TransposedGraph::new(&graph);

    let result = post_order_from_to(&rev_graph, 6, Some(2));
    assert_eq!(result, vec![4, 6]);

    let result = post_order_from_to(&rev_graph, 3, Some(1));
    assert_eq!(result, vec![4, 6, 2, 3]);
}

#[test]
fn diamond_reverse_post_order() {
    let graph = VecGraph::new(0, &[(0, 1), (0, 2), (1, 3), (2, 3)]);
    assert_eq!(reverse_post_order(&graph, 0), vec![0, 2, 1, 3]);
}

#[test]
fn post_order_stops_at_its_own_start() {
    let graph = VecGraph::new(0, &[(0, 1), (1, 0)]);
    assert_eq!(post_order_from_to(&graph, 0, Some(0)), Vec::<usize>::new());
}

#[test]
fn test1() {
    // 0 -> 1 -> 2 -> 3
    //      ^    v
    //      6 <- 4 -> 5
    let graph = VecGraph::new(
        0,
        &[(0, 1), (1, 2), (2, 3), (2, 4), (4, 5), (4, 6), (6, 1)],
    );
    let reachable = reachable(&graph);
    assert!((0..6).all(|i| reachable.can_reach(0, i)));
    assert!((1..6).all(|i| reachable.can_reach(1, i)));
    assert!((1..6).all(|i| reachable.can_reach(2, i)));
    assert!((1..6).all(|i| reachable.can_reach(4, i)));
    assert!((1..6).all(|i| reachable.can_reach(6, i)));
    assert!(reachable.can_reach(3, 3));
    assert!(!reachable.can_reach(3, 5));
    assert!(!reachable.can_reach(5, 3));
}

/// use bigger indices to cross between words in the bit set
#[test]
fn test2() {
    // 30 -> 31 -> 32 -> 33
    //       ^      v
    //       36 <- 34 -> 35
    let graph = VecGraph::new(
        30,
        &[
            (30, 31),
            (31, 32),
            (32, 33),
            (32, 34),
            (34, 35),
            (34, 36),
            (36, 31),
        ],
    );
    let reachable = reachable(&graph);
    assert!((30..36).all(|i| reachable.can_reach(30, i)));
    assert!((31..36).all(|i| reachable.can_reach(31, i)));
    assert!((31..36).all(|i| reachable.can_reach(32, i)));
    assert!((31..36).all(|i| reachable.can_reach(34, i)));
    assert!((31..36).all(|i| reachable.can_reach(36, i)));
    assert!(reachable.can_reach(33, 33));
    assert!(!reachable.can_reach(33, 35));
    assert!(!reachable.can_reach(35, 33));
}

#[test]
fn unreached_nodes_reach_nothing() {
    let graph = VecGraph::new(1, &[(0, 1), (1, 2)]);
    let reachable = reachable(&graph);
    assert!(reachable.can_reach(1, 2));
    assert!(reachable.can_reach(0, 1));
    assert!(reachable.can_reach(0, 2));
    assert!(!reachable.can_reach(0, 0));
    assert!(!reachable.can_reach(2, 1));
}

#[test]
fn diamond() {
    let graph = VecGraph::new(0, &[(0, 1), (0, 2), (1, 3), (2, 3)]);

    let dominators = dominators(&graph);
    assert_eq!(
        &dominators.all_immediate_dominators().vec[..],
        &[Some(0), Some(0), Some(0), Some(0)]
    );
}

#[test]
fn paper() {
    // example from the paper:
    let graph = VecGraph::new(
        6,
        &[
            (6, 5),
            (6, 4),
            (5, 1),
            (4, 2),
            (4, 3),
            (1, 2),
            (2, 3),
            (3, 2),
            (2, 1),
        ],
    );

    let dominators = dominators(&graph);
    assert_eq!(
        &dominators.all_immediate_dominators().vec[..],
        &[
            None, // <-- note that 0 is not in graph
            Some(6),
            Some(6),
            Some(6),
            Some(6),
            Some(6),
            Some(6)
        ]
    );
}

#[test]
fn dominator_chain_ends_at_the_start() {
    // 0 -> 1 -> 2 -> 3, with 1 -> 3 as a short cut
    let graph = VecGraph::new(0, &[(0, 1), (1, 2), (2, 3), (1, 3)]);
    let dominators = dominators(&graph);
    assert!(dominators.is_settled());
    assert_eq!(dominators.immediate_dominator(3), 1);
    let mut chain = vec![];
    let mut it = dominators.dominators(3);
    while let Some(n) = it.next() {
        chain.push(n);
    }
    assert_eq!(chain, vec![3, 1, 0]);
    for node in 0..4 {
        assert!(dominators.is_reachable(node));
        assert!(dominators.is_dominated_by(node, 0));
        assert!(dominators.is_dominated_by(node, node));
    }
    assert!(!dominators.is_dominated_by(3, 2));
    assert_eq!(dominators.mutual_dominator(2, 3), 1);
    let tree = dominators.dominator_tree();
    assert_eq!(tree.root(), 0);
    assert_eq!(tree.children(0), &vec![1]);
    assert_eq!(tree.children(1), &vec![2, 3]);
}

#[test]
fn test_test1() {
    // 0 -> 1 -> 2 -> 3
    //      ^    v
    //      6 <- 4 -> 5
    let graph = VecGraph::new(
        0,
        &[(0, 1), (1, 2), (2, 3), (2, 4), (4, 5), (4, 6), (6, 1)],
    );
    let loop_tree = loop_tree(&graph).unwrap();
    assert_eq!(loop_tree.loop_head_of_node(0), None);
    assert_eq!(loop_tree.loop_head_of_node(1), Some(1));
    assert_eq!(loop_tree.loop_head_of_node(2), Some(1));
    assert_eq!(loop_tree.loop_head_of_node(3), None);
    assert_eq!(loop_tree.loop_head_of_node(4), Some(1));
    assert_eq!(loop_tree.loop_head_of_node(5), None);
    assert_eq!(loop_tree.loop_head_of_node(6), Some(1));

    let loop_id = loop_tree.loop_id(1).unwrap();
    assert_eq!(loop_tree.loop_id(2), Some(loop_id));
    assert_eq!(loop_tree.parent(loop_id), None);
    assert_eq!(loop_tree.loop_exits(loop_id), &[3, 5]);
}

#[test]
fn nested_loop() {
    // 0 -> 1 ->     2     -> 3 -> 5
    //      ^     ^    v      |
    //      |     6 <- 4      |
    //      +-----------------+
    let graph = VecGraph::new(
        0,
        &[(0, 1), (1, 2), (2, 3), (3, 5), (3, 1), (2, 4), (4, 6), (6, 2)],
    );
    let loop_tree = loop_tree(&graph).unwrap();
    assert_eq!(loop_tree.loop_head_of_node(0), None);
    assert_eq!(loop_tree.loop_head_of_node(1), Some(1));
    assert_eq!(loop_tree.loop_head_of_node(2), Some(2));
    assert_eq!(loop_tree.loop_head_of_node(3), Some(1));
    assert_eq!(loop_tree.loop_head_of_node(4), Some(2));
    assert_eq!(loop_tree.loop_head_of_node(5), None);
    assert_eq!(loop_tree.loop_head_of_node(6), Some(2));

    let outer_loop_id = loop_tree.loop_id(1).unwrap();
    let inner_loop_id = loop_tree.loop_id(2).unwrap();
    assert_eq!(loop_tree.parent(outer_loop_id), None);
    assert_eq!(loop_tree.parent(inner_loop_id), Some(outer_loop_id));

    assert_eq!(loop_tree.loop_exits(outer_loop_id), &[5]);
    assert_eq!(loop_tree.loop_exits(inner_loop_id), &[3]);
}

#[test]
fn if_else_break_nested_loop() {
    // 0 -> 1 ->     2     -> 3 -> 5
    //      ^     ^    v      |    ^
    //      |     6 <- 4      |    |
    //      |          |      |    |
    //      |     7 <--+      |    |
    //      +-----|-----------+    |
    //            +----------------+
    let graph = VecGraph::new(
        0,
        &[
            (0, 1),
            (1, 2),
            (2, 3),
            (3, 5),
            (3, 1),
            (2, 4),
            (4, 6),
            (4, 7),
            (6, 2),
            (7, 5),
        ],
    );
    let loop_tree = loop_tree(&graph).unwrap();
    assert_eq!(loop_tree.loop_head_of_node(0), None);
    assert_eq!(loop_tree.loop_head_of_node(1), Some(1));
    assert_eq!(loop_tree.loop_head_of_node(2), Some(2));
    assert_eq!(loop_tree.loop_head_of_node(3), Some(1));
    assert_eq!(loop_tree.loop_head_of_node(4), Some(2));
    assert_eq!(loop_tree.loop_head_of_node(5), None);
    assert_eq!(loop_tree.loop_head_of_node(6), Some(2));
    assert_eq!(loop_tree.loop_head_of_node(7), None);

    let outer_loop_id = loop_tree.loop_id(1).unwrap();
    let inner_loop_id = loop_tree.loop_id(2).unwrap();
    assert_eq!(loop_tree.parent(outer_loop_id), None);
    assert_eq!(loop_tree.parent(inner_loop_id), Some(outer_loop_id));

    assert_eq!(loop_tree.loop_exits(outer_loop_id), &[7, 5]);
    assert_eq!(loop_tree.loop_exits(inner_loop_id), &[3, 7]);
}

#[test]
fn irreducible_graph_has_no_loop_tree() {
    // 3 closes a cycle through 1 and one through 2; both cycles can be
    // entered from 0, so neither 1 nor 2 dominates the other
    let graph = VecGraph::new(0, &[(0, 1), (1, 2), (2, 3), (0, 2), (3, 1), (3, 2)]);
    let doms = dominators(&graph);
    assert_eq!(doms.immediate_dominator(1), 0);
    assert_eq!(doms.immediate_dominator(2), 0);
    assert!(loop_tree(&graph).is_none());
}

#[test]
fn cycle_with_two_entries_and_one_back_edge_has_a_loop_tree() {
    // 0 -> 1 <-> 2 <- 0: the walk closes the cycle at 1 alone
    let graph = VecGraph::new(0, &[(0, 1), (0, 2), (1, 2), (2, 1)]);
    let tree = loop_tree(&graph).unwrap();
    let id = tree.loop_id(2).unwrap();
    assert_eq!(tree.loop_head(id), 1);
    assert_eq!(tree.loop_id(1), Some(id));
    assert_eq!(tree.loop_id(0), None);
    assert_eq!(tree.parent(id), None);
}

#[test]
fn search_finds_the_dominators_that_the_passes_find() {
    let graphs = [
        VecGraph::new(0, &[(0, 1), (0, 2), (1, 3), (2, 3)]),
        VecGraph::new(6, &[(6, 5), (6, 4), (5, 1), (4, 2), (4, 3), (1, 2), (2, 3), (3, 2), (2, 1)]),
        VecGraph::new(0, &[(0, 1), (1, 2), (2, 3), (3, 5), (3, 1), (2, 4), (4, 6), (6, 2)]),
    ];
    for graph in &graphs {
        let by_passes = dominators(graph);
        let by_search = dominators_by_search(graph);
        assert!(by_passes.is_settled());
        assert_eq!(
            by_passes.all_immediate_dominators().vec,
            by_search.all_immediate_dominators().vec
        );
    }
    let paper = dominators_by_search(&graphs[1]);
    assert_eq!(
        paper.all_immediate_dominators().vec,
        vec![None, Some(6), Some(6), Some(6), Some(6), Some(6), Some(6)]
    );
}
