use gamebot::geometry::Rect;
use gamebot::node::{Clickable, Id, Node, NodeSelector, Nodeshot, Text, Visible};

fn node(id: &str, parent_idx: usize, children_idx: Vec<usize>) -> Node {
    Node { id: id.to_string(), parent_idx, children_idx, ..Default::default() }
}

// root 0 -> 1, 2; 1 -> 3, 4; 2 -> 5
fn tree() -> Nodeshot {
    let mut nodes = vec![
        node("root", 0, vec![1, 2]),
        node("a", 0, vec![3, 4]),
        node("x", 0, vec![5]),
        node("x", 1, vec![]),
        node("c", 1, vec![]),
        node("x", 2, vec![]),
    ];
    nodes[2].clickable = true;
    nodes[4].clickable = true;
    nodes[5].text = "ok".to_string();
    Nodeshot::new(nodes, 42).unwrap()
}

fn clickable_x() -> NodeSelector {
    NodeSelector::and(
        NodeSelector::Clickable(Clickable(true)),
        NodeSelector::Id(Id("x".to_string())),
    )
}

#[test]
fn selector_finds_the_single_match() {
    let shot = tree();
    let sel = clickable_x();
    assert_eq!(shot.find_selector(&sel), Some(2));
    assert_eq!(shot.find_all_selector(&sel), vec![2]);
    assert_eq!(sel.find(&shot), Some(2));
    assert_eq!(sel.find_all(&shot), vec![2]);
    assert_eq!(sel.find_all(&shot), sel.find_all(&shot));
    assert!(shot.match_selector(&sel));
}

#[test]
fn predicate_finds_the_single_match() {
    let shot = tree();
    let pred = |n: &Node| n.clickable && n.id == "x";
    assert_eq!(shot.find_by(&pred), Some(2));
    assert_eq!(shot.find_all_by(&pred), vec![2]);
    let xs = |n: &Node| n.id.starts_with('x');
    assert_eq!(shot.find_all_by(&xs), vec![2, 3, 5]);
    assert_eq!(shot.find_all_by(&xs), shot.find_all_by(&xs));
    assert_eq!(shot.find_by(&|n: &Node| n.text.contains("nothing")), None);
}

#[test]
fn selector_search_is_repeatable() {
    let shot = tree();
    let sel = NodeSelector::Id(Id("x".to_string()));
    let first = shot.find_all_selector(&sel);
    let second = shot.find_all_selector(&sel);
    assert_eq!(first, vec![2, 3, 5]);
    assert_eq!(first, second);
}

#[test]
fn subtree_search_is_breadth_first_and_keeps_descending() {
    let shot = tree();
    let any = NodeSelector::Any;
    assert_eq!(shot.find_all(0, &any), vec![0, 1, 2, 3, 4, 5]);
    assert_eq!(shot.find_all(1, &any), vec![1, 3, 4]);
    let xs = NodeSelector::Id(Id("x".to_string()));
    assert_eq!(shot.find_all(0, &xs), vec![2, 3, 5]);
    assert_eq!(shot.find(0, &xs), Some(2));
    assert_eq!(shot.find(1, &xs), Some(3));
    let none = NodeSelector::Text(Text("missing".to_string()));
    assert_eq!(shot.find(0, &none), None);
    assert!(!shot.match_selector(&none));
}

#[test]
fn links_resolve_both_ways() {
    let shot = tree();
    assert_eq!(shot.len(), 6);
    assert_eq!(shot.parent(0), None);
    for i in 1..shot.len() {
        let p = shot.parent(i).unwrap();
        let siblings = shot.children(p);
        assert_eq!(siblings.iter().filter(|&&c| c == i).count(), 1);
    }
    assert_eq!(shot.children(1), vec![3, 4]);
    assert_eq!(shot.timestamp, 42);
}

#[test]
fn invalid_indices_are_refused() {
    assert!(Nodeshot::new(vec![], 0).is_none());
    assert!(Nodeshot::new(vec![node("r", 0, vec![1])], 0).is_none());
    assert!(Nodeshot::new(vec![node("r", 0, vec![1]), node("a", 3, vec![])], 0).is_none());
    assert!(Nodeshot::new(vec![node("r", 0, vec![1]), node("a", 0, vec![])], 0).is_some());
}

#[test]
fn combinators_and_flags() {
    let shot = tree();
    let not_clickable = NodeSelector::not(NodeSelector::Clickable(Clickable(true)));
    assert_eq!(shot.find_all_selector(&not_clickable), vec![0, 1, 3, 5]);
    let either = NodeSelector::or(
        NodeSelector::Text(Text("ok".to_string())),
        NodeSelector::Id(Id("a".to_string())),
    );
    assert_eq!(shot.find_all_selector(&either), vec![1, 5]);
    assert!(shot.find_all_selector(&NodeSelector::Visible(Visible(true))).is_empty());
    let inside = NodeSelector::Within(Rect { left: 0, top: 0, width: 1, height: 1 });
    assert_eq!(shot.find_all_selector(&inside).len(), 6);
}

#[test]
fn walk_visits_every_node_once_whatever_the_capture_order() {
    // root 0 -> 2 -> 1: the child is captured before its parent
    let shot = Nodeshot::new(vec![node("r", 0, vec![2]), node("leaf", 2, vec![]), node("mid", 0, vec![1])], 0)
        .unwrap();
    assert_eq!(shot.find_all(0, &NodeSelector::Any), vec![0, 2, 1]);
    assert_eq!(shot.find(2, &NodeSelector::Id(Id("leaf".to_string()))), Some(1));
}
