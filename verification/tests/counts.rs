use learngraph::graph::{Graph, Node};

fn diamond_graph() -> Graph<char> {
    // r -> {a, b} -> c
    let mut r = Node::new(0, 'r');
    let mut a = Node::new(1, 'a');
    let mut b = Node::new(2, 'b');
    let mut c = Node::new(3, 'c');
    r.set_children(vec![1, 2]);
    a.set_parents(vec![0]);
    a.set_children(vec![3]);
    b.set_parents(vec![0]);
    b.set_children(vec![3]);
    c.set_parents(vec![1, 2]);
    Graph::new(vec![r, a, b, c])
}

fn val_of(g: &Graph<char>, pos: usize) -> char {
    *g.nodes()[pos].borrow().val()
}

#[test]
fn diamond_descendant_counts_count_paths_not_nodes() {
    let g = diamond_graph();
    let views = g.nodes();
    assert_eq!(views.len(), 1);
    let r = views[0].borrow();
    assert_eq!(*r.val(), 'r');
    // c is counted once per path: 2 children + count(a) + count(b) = 4
    assert_eq!(r.descendent_count(&g), 4);
}

#[test]
fn diamond_inner_and_leaf_descendant_counts() {
    let mut g = diamond_graph();
    g.sort_by(|p: &Node<char>, q: &Node<char>| p.val().cmp(q.val()));
    let views = g.nodes();
    for view in &views {
        let node = view.borrow();
        let expected: usize = match *node.val() {
            'r' => 4,
            'a' | 'b' => 1,
            'c' => 0,
            _ => unreachable!(),
        };
        assert_eq!(node.descendent_count(&g), expected);
        assert_eq!(node.descendent_len(&g), expected);
    }
}

#[test]
fn diamond_ancestor_counts_are_the_upward_mirror() {
    let mut g = diamond_graph();
    g.sort_by(|p: &Node<char>, q: &Node<char>| p.val().cmp(q.val()));
    let views = g.nodes();
    for view in &views {
        let node = view.borrow();
        let expected: usize = match *node.val() {
            'r' => 0,
            'a' | 'b' => 1,
            'c' => 4,
            _ => unreachable!(),
        };
        assert_eq!(node.ancestor_count(&g), expected);
        assert_eq!(node.ancestor_len(&g), expected);
    }
}

#[test]
fn chain_counts_match_depths() {
    // a -> b -> c
    let mut a = Node::new(0, 'a');
    let mut b = Node::new(1, 'b');
    let mut c = Node::new(2, 'c');
    a.set_children(vec![1]);
    b.set_parents(vec![0]);
    b.set_children(vec![2]);
    c.set_parents(vec![1]);
    let g = Graph::new(vec![a, b, c]);
    let views = g.nodes();
    let head = views[0].borrow();
    assert_eq!(*head.val(), 'a');
    assert_eq!(head.descendent_count(&g), 2);
    assert_eq!(head.ancestor_count(&g), 0);
}

#[test]
fn read_accessors_are_idempotent() {
    let g = diamond_graph();
    let views = g.nodes();
    let r = views[0].borrow();
    assert_eq!(r.val(), r.val());
    assert_eq!(r.parents(), r.parents());
    assert_eq!(r.children(), r.children());
    assert_eq!(r.children(), &vec![1usize, 2usize]);
    assert_eq!(r.parents(), &Vec::<usize>::new());
    assert_eq!(val_of(&g, 0), val_of(&g, 0));
}

#[test]
fn accessors_survive_ordering_unchanged() {
    let mut g = diamond_graph();
    g.sort_by(|p: &Node<char>, q: &Node<char>| p.val().cmp(q.val()));
    let views = g.nodes();
    for view in &views {
        let node = view.borrow();
        if *node.val() == 'c' {
            assert_eq!(node.parents(), &vec![1usize, 2usize]);
            assert_eq!(node.children(), &Vec::<usize>::new());
        }
    }
}
