use lca::tree::find_lca;
use lca::tree::find_path;
use lca::tree::Node;
use lca::tree::Tree;
use lca::tree::tree_lca;

fn sample_tree() -> Tree {
    let mut t = Tree::new();
    t.insert(3);
    t.insert(1);
    t.insert(2);
    t.insert(4);
    t.insert(5);
    t.insert(6);
    t
}

/// The binary-search-tree scenario: inserting 3, 1, 2, 4, 5, 6 in that
/// order, an ancestor absorbs its descendants.
#[test]
fn tree_scenario() {
    let t = sample_tree();
    assert_eq!(Some(4), tree_lca(&t, 4, 6));
    assert_eq!(Some(4), tree_lca(&t, 4, 5));
}

/// The last entry of the longest common prefix: for 2 and 1 the paths are
/// [3, 1, 2] and [3, 1], so their lowest common ancestor is 1, whichever
/// way round the pair is queried.
#[test]
fn tree_common_prefix() {
    let t = sample_tree();
    assert_eq!(Some(1), tree_lca(&t, 2, 1));
    assert_eq!(Some(1), tree_lca(&t, 1, 2));
    assert_eq!(Some(3), tree_lca(&t, 2, 4));
}

/// A value present in the tree is its own lowest common ancestor.
#[test]
fn tree_self() {
    let t = sample_tree();
    assert_eq!(Some(2), tree_lca(&t, 2, 2));
    assert_eq!(Some(3), tree_lca(&t, 3, 3));
    assert_eq!(Some(6), tree_lca(&t, 6, 6));
}

/// Swapping the queried pair never changes the answer.
#[test]
fn tree_symmetry() {
    let t = sample_tree();
    for a in [1, 2, 3, 4, 5, 6] {
        for b in [1, 2, 3, 4, 5, 6] {
            assert_eq!(tree_lca(&t, a, b), tree_lca(&t, b, a));
        }
    }
}

/// Values under different children of the root meet at the root.
#[test]
fn tree_root_dominance() {
    let t = sample_tree();
    assert_eq!(Some(3), tree_lca(&t, 1, 4));
    assert_eq!(Some(3), tree_lca(&t, 2, 6));
}

/// A value missing from the tree, or an empty tree, gives an absent
/// answer.
#[test]
fn tree_missing_value() {
    let t = sample_tree();
    assert_eq!(None, tree_lca(&t, 9, 1));
    assert_eq!(None, tree_lca(&t, 1, 9));
    assert_eq!(None, tree_lca(&t, 9, 9));
    let empty = Tree::new();
    assert_eq!(None, tree_lca(&empty, 1, 1));
}

/// Repeated insertion of one value hangs the duplicate on the left, and
/// the value stays its own ancestor.
#[test]
fn tree_duplicates() {
    let mut t = Tree::new();
    t.insert(2);
    t.insert(2);
    t.insert(7);
    assert_eq!(Some(2), tree_lca(&t, 2, 2));
    assert_eq!(Some(2), tree_lca(&t, 2, 7));
}

/// Insertion wires the expected shape: 3 at the root, 1 to its left, 2 to
/// the right of 1, and the chain 4, 5, 6 to the right of the root.
#[test]
fn tree_insert_shape() {
    let t = sample_tree();
    let root = t.root.as_ref().expect("nonempty");
    assert_eq!(3, root.value);
    let l = root.left.as_ref().expect("left child");
    assert_eq!(1, l.value);
    assert_eq!(2, l.right.as_ref().expect("right of 1").value);
    let r = root.right.as_ref().expect("right child");
    assert_eq!(4, r.value);
    let rr = r.right.as_ref().expect("right of 4");
    assert_eq!(5, rr.value);
    assert_eq!(6, rr.right.as_ref().expect("right of 5").value);
}

/// The path tracer appends the whole root-to-value path in preorder and
/// leaves the buffer alone on a miss.
#[test]
fn tree_find_path() {
    let t = sample_tree();
    let root = t.root.as_ref().expect("nonempty");
    let mut path = Vec::new();
    assert!(find_path(root, &mut path, 6));
    assert_eq!(vec![3, 4, 5, 6], path);
    let mut missing = vec![42];
    assert!(!find_path(root, &mut missing, 9));
    assert_eq!(vec![42], missing);
}

/// The node-level ancestor query agrees with the tree-level one.
#[test]
fn tree_find_lca_node_level() {
    let t = sample_tree();
    let root = t.root.as_ref().expect("nonempty");
    assert_eq!(Some(4), find_lca(root, 4, 6));
    assert_eq!(None, find_lca(root, 9, 1));
    let single = Node::new(5);
    assert_eq!(Some(5), find_lca(&single, 5, 5));
}
