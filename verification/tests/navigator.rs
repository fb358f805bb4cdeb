use dialogue_graph::{
    ChoiceId, DialogueChoice, DialogueContent, DialogueGraph, DialogueGraphNavigator,
    DialogueNext, DialogueNode, NodeId, ValidationError,
};

fn node(id: u64, next: DialogueNext) -> DialogueNode {
    DialogueNode {
        id: NodeId(id),
        content: DialogueContent { text: format!("node {}", id), speaker: None },
        next,
    }
}

fn single(id: u64, target: u64) -> DialogueNode {
    node(id, DialogueNext::Single(Some(NodeId(target))))
}

fn terminal(id: u64) -> DialogueNode {
    node(id, DialogueNext::Single(None))
}

fn choice(cid: u64, text: &str, target: u64) -> DialogueChoice {
    DialogueChoice { id: ChoiceId(cid), text: text.to_string(), next_node: NodeId(target) }
}

#[test]
fn empty_graph_validates_clean() {
    let nav = DialogueGraphNavigator::new();
    assert!(!nav.has_cycles());
    assert!(nav.find_leaf_nodes().is_empty());
    assert!(nav.find_unreachable_nodes(NodeId(0)).is_empty());
    assert_eq!(nav.validate(NodeId(0)), Ok(()));
}

#[test]
fn default_navigator_is_empty() {
    let nav = DialogueGraphNavigator::default();
    assert!(nav.find_leaf_nodes().is_empty());
    assert_eq!(nav.validate(NodeId(3)), Ok(()));
}

#[test]
fn chain_has_no_cycle_one_leaf_all_reachable() {
    let mut nav = DialogueGraphNavigator::new();
    // Insert in reverse so every edge target is already registered.
    nav.add_node(&terminal(2));
    nav.add_node(&single(1, 2));
    nav.add_node(&single(0, 1));
    assert!(!nav.has_cycles());
    assert_eq!(nav.find_leaf_nodes(), vec![NodeId(2)]);
    assert_eq!(nav.find_unreachable_nodes(NodeId(0)), Vec::<NodeId>::new());
}

#[test]
fn self_loop_back_edge_is_a_cycle() {
    let mut nav = DialogueGraphNavigator::new();
    // A node whose successor is itself: the target is registered by the
    // time the edge is wired, so the back-edge materializes.
    nav.add_node(&single(0, 0));
    assert!(nav.has_cycles());
}

#[test]
fn chain_with_back_edge_is_a_cycle() {
    let mut nav = DialogueGraphNavigator::new();
    // Single-pass construction can only close a loop at a node that
    // references itself, since both endpoints of an edge must already be
    // registered: a chain whose head offers a choice back to itself.
    nav.add_node(&terminal(2));
    nav.add_node(&single(1, 2));
    nav.add_node(&node(
        0,
        DialogueNext::Choices(vec![choice(0, "on", 1), choice(1, "again", 0)]),
    ));
    assert!(nav.has_cycles());
}

#[test]
fn edge_to_uninserted_target_is_dropped() {
    let mut nav = DialogueGraphNavigator::new();
    // Node 0 refers to node 1, which is never inserted: the edge is
    // silently skipped and never retried.
    nav.add_node(&single(0, 1));
    assert_eq!(nav.get_next_nodes(NodeId(0)), Vec::<NodeId>::new());
    // Even inserting node 1 afterwards does not revive the lost edge.
    nav.add_node(&terminal(1));
    assert_eq!(nav.get_next_nodes(NodeId(0)), Vec::<NodeId>::new());
}

#[test]
fn forward_edge_appears_when_target_inserted_first() {
    let mut nav = DialogueGraphNavigator::new();
    nav.add_node(&terminal(1));
    nav.add_node(&single(0, 1));
    assert_eq!(nav.get_next_nodes(NodeId(0)), vec![NodeId(1)]);
}

#[test]
fn isolated_node_is_reported_unreachable() {
    let mut nav = DialogueGraphNavigator::new();
    // Component one: 0 -> 1. Component two: the isolated node 2.
    nav.add_node(&terminal(1));
    nav.add_node(&single(0, 1));
    nav.add_node(&terminal(2));
    assert_eq!(nav.find_unreachable_nodes(NodeId(0)), vec![NodeId(2)]);
}

#[test]
fn empty_choice_list_is_a_leaf() {
    let mut nav = DialogueGraphNavigator::new();
    nav.add_node(&node(0, DialogueNext::Choices(Vec::new())));
    assert_eq!(nav.find_leaf_nodes(), vec![NodeId(0)]);
}

#[test]
fn get_next_nodes_reproduces_declared_choices() {
    let mut nav = DialogueGraphNavigator::new();
    nav.add_node(&terminal(1));
    nav.add_node(&terminal(2));
    nav.add_node(&node(
        0,
        DialogueNext::Choices(vec![choice(0, "left", 1), choice(1, "right", 2)]),
    ));
    // Edges come back most recently added first: the reverse of the
    // declaration order.
    assert_eq!(nav.get_next_nodes(NodeId(0)), vec![NodeId(2), NodeId(1)]);
}

#[test]
fn two_choices_may_share_a_target() {
    let mut nav = DialogueGraphNavigator::new();
    nav.add_node(&terminal(1));
    nav.add_node(&node(
        0,
        DialogueNext::Choices(vec![choice(0, "a", 1), choice(1, "b", 1)]),
    ));
    assert_eq!(nav.get_next_nodes(NodeId(0)), vec![NodeId(1), NodeId(1)]);
}

#[test]
fn get_next_nodes_of_unknown_id_is_empty() {
    let mut nav = DialogueGraphNavigator::new();
    nav.add_node(&terminal(0));
    assert_eq!(nav.get_next_nodes(NodeId(9)), Vec::<NodeId>::new());
}

#[test]
fn unreachable_check_with_unknown_start_is_empty() {
    let mut nav = DialogueGraphNavigator::new();
    nav.add_node(&terminal(0));
    assert_eq!(nav.find_unreachable_nodes(NodeId(9)), Vec::<NodeId>::new());
}

#[test]
fn leaves_are_listed_in_vertex_order() {
    let mut nav = DialogueGraphNavigator::new();
    nav.add_node(&terminal(5));
    nav.add_node(&terminal(3));
    nav.add_node(&single(0, 3));
    assert_eq!(nav.find_leaf_nodes(), vec![NodeId(5), NodeId(3)]);
    assert_eq!(nav.find_unreachable_nodes(NodeId(0)), vec![NodeId(5)]);
}

#[test]
fn re_added_node_answers_from_its_newest_vertex() {
    let mut nav = DialogueGraphNavigator::new();
    nav.add_node(&terminal(1));
    nav.add_node(&single(0, 1));
    assert_eq!(nav.get_next_nodes(NodeId(0)), vec![NodeId(1)]);
    // Re-adding id 0 registers a fresh vertex and points the id at it;
    // queries about id 0 now see the replacement's (empty) relation.
    nav.add_node(&terminal(0));
    assert_eq!(nav.get_next_nodes(NodeId(0)), Vec::<NodeId>::new());
}

#[test]
fn validate_reports_every_defect_at_once() {
    let mut nav = DialogueGraphNavigator::new();
    // Start node 1 loops on itself; node 2 is an isolated dead end.
    nav.add_node(&single(1, 1));
    nav.add_node(&terminal(2));
    let errors = nav.validate(NodeId(1)).unwrap_err();
    assert_eq!(
        errors,
        vec![
            ValidationError::ContainsCycles,
            ValidationError::UnreachableNodes(vec![NodeId(2)]),
            ValidationError::UnfinishedPaths(vec![NodeId(2)]),
        ]
    );
}

#[test]
fn validate_flags_leaves_of_a_clean_chain() {
    let mut nav = DialogueGraphNavigator::new();
    nav.add_node(&terminal(1));
    nav.add_node(&single(0, 1));
    let errors = nav.validate(NodeId(0)).unwrap_err();
    assert_eq!(errors, vec![ValidationError::UnfinishedPaths(vec![NodeId(1)])]);
}

#[test]
fn store_lookup_and_overwrite() {
    let mut g = DialogueGraph::new(NodeId(0));
    assert_eq!(g.start_node, NodeId(0));
    assert!(g.get_node(NodeId(0)).is_none());
    g.add_node(node(0, DialogueNext::Single(None)));
    assert_eq!(g.get_node(NodeId(0)).unwrap().content.text, "node 0");
    // Re-adding the same id replaces the prior content.
    let mut replacement = node(0, DialogueNext::Single(None));
    replacement.content.text = "rewritten".to_string();
    g.add_node(replacement);
    assert_eq!(g.get_node(NodeId(0)).unwrap().content.text, "rewritten");
    assert!(g.get_node(NodeId(5)).is_none());
}

#[test]
fn store_feeds_navigator_round_trip() {
    let mut g = DialogueGraph::new(NodeId(0));
    g.add_node(terminal(2));
    g.add_node(node(
        1,
        DialogueNext::Choices(vec![choice(0, "go", 2)]),
    ));
    g.add_node(single(0, 1));
    // Walk the store's ids from the deepest up so every edge materializes.
    let mut nav = DialogueGraphNavigator::new();
    for id in [2u64, 1, 0] {
        let n = g.get_node(NodeId(id)).unwrap().clone();
        nav.add_node(&n);
    }
    assert_eq!(nav.get_next_nodes(NodeId(0)), vec![NodeId(1)]);
    assert_eq!(nav.get_next_nodes(NodeId(1)), vec![NodeId(2)]);
    assert_eq!(nav.get_next_nodes(NodeId(2)), Vec::<NodeId>::new());
    assert!(!nav.has_cycles());
    assert_eq!(nav.find_leaf_nodes(), vec![NodeId(2)]);
    assert_eq!(nav.find_unreachable_nodes(NodeId(0)), Vec::<NodeId>::new());
}
