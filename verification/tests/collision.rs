use fractory::actions::Node;
use fractory::path::TilePos;
use fractory::tile::SubTile::{self, C, L, R, U};

fn free() -> Node {
    Node::Free
}

fn bad() -> Node {
    Node::Bad
}

fn leaf(x: usize) -> Node {
    Node::Leaf(x)
}

fn branch(c: Node, u: Node, r: Node, l: Node) -> Node {
    Node::Branch(Box::new(c), Box::new(u), Box::new(r), Box::new(l))
}

/// `{ { . { . . { . . . x } . } . . } . . . }`: the item at C, U, R, L.
fn at_curl(x: Node) -> Node {
    branch(branch(free(), branch(free(), free(), branch(free(), free(), free(), x), free()), free(), free()), free(), free(), free())
}

/// Places items in turn, checking which items each placement drops and the
/// tree after it.
fn mock_node_set(sequence: Vec<(&[SubTile], Vec<usize>, Node)>) {
    let mut node = Node::Free;
    for (i, (path, expected_deletions, expected_tree)) in sequence.into_iter().enumerate() {
        let mut dropped = vec![];
        node.set(TilePos::from_inward_path(path), i, &mut dropped);
        assert_eq!(dropped, expected_deletions);
        assert_eq!(node, expected_tree);
    }
}

#[test]
fn test_create_at_root() {
    let tree = Node::create_at(TilePos::unit(), 1);
    assert_eq!(tree, leaf(1));
}

#[test]
fn test_create_at() {
    let path = TilePos::from_inward_path(&[C, U, R, L]);
    let tree = Node::create_at(path, 4);
    assert_eq!(tree, at_curl(leaf(4)));
}

#[test]
fn test_node_set() {
    mock_node_set(vec![
        (&[C, U, R, L], vec![], at_curl(leaf(0))),
        (
            &[C, U, R, C],
            vec![],
            branch(
                branch(free(), branch(free(), free(), branch(leaf(1), free(), free(), leaf(0)), free()), free(), free()),
                free(),
                free(),
                free(),
            ),
        ),
        (
            &[C, R, U],
            vec![],
            branch(
                branch(
                    free(),
                    branch(free(), free(), branch(leaf(1), free(), free(), leaf(0)), free()),
                    branch(free(), leaf(2), free(), free()),
                    free(),
                ),
                free(),
                free(),
                free(),
            ),
        ),
    ]);
}

#[test]
fn test_node_set_same_leaf() {
    mock_node_set(vec![
        (&[C, U, R, L], vec![], at_curl(leaf(0))),
        (&[C, U, R, L], vec![1, 0], at_curl(bad())),
    ]);
}

#[test]
fn test_node_set_pass_leaf() {
    mock_node_set(vec![
        (&[C, U, R, L], vec![], at_curl(leaf(0))),
        (&[C, U, R, L, C], vec![1, 0], at_curl(bad())),
    ]);
}

#[test]
fn test_node_set_hit_branch() {
    mock_node_set(vec![
        (&[C, U, R, L, C], vec![], at_curl(branch(leaf(0), free(), free(), free()))),
        (&[C, U, R, L, U], vec![], at_curl(branch(leaf(0), leaf(1), free(), free()))),
        (&[C, U, R, L, R], vec![], at_curl(branch(leaf(0), leaf(1), leaf(2), free()))),
        (&[C, U, R, L, L], vec![], at_curl(branch(leaf(0), leaf(1), leaf(2), leaf(3)))),
        (&[C, U, R, L], vec![4, 0, 1, 2, 3], at_curl(bad())),
    ]);
}

#[test]
fn tests_test_create_at_root() {
    let tree = Node::create_at(TilePos::unit(), 1);
    assert_eq!(tree, leaf(1));
}

#[test]
fn tests_test_create_at() {
    let path = TilePos::from_inward_path(&[C, U, R, L]);
    let tree = Node::create_at(path, 4);
    assert_eq!(tree, at_curl(leaf(4)));
}

#[test]
fn tests_test_node_set() {
    let paths: &[&[SubTile]] = &[&[C, U, R, L], &[C, U, R, C], &[C, R, U]];
    let mut node = Node::Free;
    for (i, path) in paths.iter().enumerate() {
        let mut dropped = vec![];
        node.set(TilePos::from_inward_path(path), i, &mut dropped);
        assert!(dropped.is_empty());
    }
    assert_eq!(
        node,
        branch(
            branch(
                free(),
                branch(free(), free(), branch(leaf(1), free(), free(), leaf(0)), free()),
                branch(free(), leaf(2), free(), free()),
                free(),
            ),
            free(),
            free(),
            free(),
        ),
    );
}

#[test]
fn test_node_set_overlapping() {
    let mut node = Node::Free;
    let path_a = TilePos::from_inward_path(&[C, U, R, L]);
    let path_b = TilePos::from_inward_path(&[C, U, R, L]);
    let mut dropped = vec![];
    node.set(path_a, 0, &mut dropped);
    assert!(dropped.is_empty());
    node.set(path_b, 0, &mut dropped);
    assert!(!dropped.is_empty());
    assert_eq!(node, at_curl(bad()));
}

#[test]
fn colliding_with_a_bad_node_drops_only_the_new_item() {
    let mut node = at_curl(bad());
    let mut dropped = vec![];
    node.set(TilePos::from_inward_path(&[C, U, R, L, U]), 7, &mut dropped);
    assert_eq!(dropped, vec![7]);
    assert_eq!(node, at_curl(bad()));
}

#[test]
fn a_tree_is_written_with_braces() {
    let tree = branch(Node::Leaf(1), free(), Node::Bad, branch(free(), Node::Leaf(22), free(), free()));
    assert_eq!(tree.to_string(), "{ 1 . X { . 22 . . } }");
    assert_eq!(free().to_string(), ".");
}
