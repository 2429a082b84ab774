use learngraph::graph::{Graph, Node};
use std::cmp::Ordering;

fn chain_abc() -> Graph<char> {
    // a -> b -> c
    let mut a = Node::new(0, 'a');
    let mut b = Node::new(1, 'b');
    let mut c = Node::new(2, 'c');
    a.set_children(vec![1]);
    b.set_parents(vec![0]);
    b.set_children(vec![2]);
    c.set_parents(vec![1]);
    Graph::new(vec![a, b, c])
}

fn fan_in_xyz() -> Graph<char> {
    // x -> z <- y
    let mut x = Node::new(0, 'x');
    let mut y = Node::new(1, 'y');
    let mut z = Node::new(2, 'z');
    x.set_children(vec![2]);
    y.set_children(vec![2]);
    z.set_parents(vec![0, 1]);
    Graph::new(vec![x, y, z])
}

fn diamond() -> Graph<char> {
    // r -> {a, b} -> c
    let mut r = Node::new(0, 'r');
    let mut a = Node::new(1, 'a');
    let mut b = Node::new(2, 'b');
    let mut c = Node::new(3, 'c');
    r.set_children(vec![1, 2]);
    a.set_parents(vec![0]);
    a.set_children(vec![3]);
    b.set_parents(vec![0]);
    b.set_children(vec![3]);
    c.set_parents(vec![1, 2]);
    Graph::new(vec![r, a, b, c])
}

fn visit_vals(g: &Graph<char>) -> Vec<char> {
    g.nodes().iter().map(|n| *n.borrow().val()).collect()
}

#[test]
fn linear_chain_visits_in_dependency_order() {
    let mut g = chain_abc();
    g.sort_by(|p: &Node<char>, q: &Node<char>| p.val().cmp(q.val()));
    assert_eq!(visit_vals(&g), vec!['a', 'b', 'c']);
}

#[test]
fn two_root_fan_in_visits_both_roots_first() {
    let mut g = fan_in_xyz();
    // ranks x before y; z becomes eligible only after both are visited
    g.sort_by(|p: &Node<char>, q: &Node<char>| p.val().cmp(q.val()));
    assert_eq!(visit_vals(&g), vec!['x', 'y', 'z']);
}

#[test]
fn two_root_fan_in_respects_reversed_priority() {
    let mut g = fan_in_xyz();
    // ranks y before x
    g.sort_by(|p: &Node<char>, q: &Node<char>| q.val().cmp(p.val()));
    assert_eq!(visit_vals(&g), vec!['y', 'x', 'z']);
}

#[test]
fn ties_resolved_toward_comparator_first_choice() {
    let mut g = diamond();
    // after r is visited, a and b become eligible together; rank b first
    g.sort_by(|p: &Node<char>, q: &Node<char>| {
        let rank = |ch: char| match ch {
            'r' => 0,
            'b' => 1,
            'a' => 2,
            _ => 3,
        };
        rank(*p.val()).cmp(&rank(*q.val()))
    });
    assert_eq!(visit_vals(&g), vec!['r', 'b', 'a', 'c']);
}

#[test]
fn repeated_runs_under_total_comparator_agree() {
    let mut first = diamond();
    let mut second = diamond();
    let by_char = |p: &Node<char>, q: &Node<char>| p.val().cmp(q.val());
    first.sort_by(by_char);
    second.sort_by(by_char);
    assert_eq!(visit_vals(&first), visit_vals(&second));
}

#[test]
fn comparator_may_read_external_scores() {
    let mut g = diamond();
    let mut scores = std::collections::HashMap::new();
    scores.insert('r', 0usize);
    scores.insert('a', 9);
    scores.insert('b', 4);
    scores.insert('c', 7);
    // higher score first, mirroring a popularity-driven ranking
    g.sort_by(|p: &Node<char>, q: &Node<char>| {
        let ps = scores.get(p.val()).copied().unwrap_or(0);
        let qs = scores.get(q.val()).copied().unwrap_or(0);
        qs.cmp(&ps)
    });
    assert_eq!(visit_vals(&g), vec!['r', 'a', 'b', 'c']);
}

#[test]
fn empty_graph_orders_trivially() {
    let mut g: Graph<char> = Graph::new(vec![]);
    g.sort_by(|p: &Node<char>, q: &Node<char>| p.val().cmp(q.val()));
    assert_eq!(visit_vals(&g), Vec::<char>::new());
}

#[test]
fn singleton_graph_orders_trivially() {
    let mut g = Graph::new(vec![Node::new(0, 'q')]);
    g.sort_by(|p: &Node<char>, q: &Node<char>| p.val().cmp(q.val()));
    assert_eq!(visit_vals(&g), vec!['q']);
}

#[test]
fn every_node_appears_exactly_once_after_ordering() {
    let mut g = diamond();
    g.sort_by(|_: &Node<char>, _: &Node<char>| Ordering::Equal);
    let mut vals = visit_vals(&g);
    assert_eq!(vals.len(), 4);
    vals.sort();
    assert_eq!(vals, vec!['a', 'b', 'c', 'r']);
}

#[test]
fn parents_always_precede_children() {
    let mut g = diamond();
    g.sort_by(|p: &Node<char>, q: &Node<char>| q.val().cmp(p.val()));
    let vals = visit_vals(&g);
    let pos = |ch: char| vals.iter().position(|v| *v == ch).unwrap();
    assert!(pos('r') < pos('a'));
    assert!(pos('r') < pos('b'));
    assert!(pos('a') < pos('c'));
    assert!(pos('b') < pos('c'));
}

#[test]
fn initial_sequence_is_the_root_set() {
    let g = fan_in_xyz();
    assert_eq!(visit_vals(&g), vec!['x', 'y']);
}
