//! The binary search tree: insertion keyed on the value (small or equal
//! values to the left, larger ones to the right), value-to-path tracing in
//! preorder, and lowest common ancestor as the last entry of the longest
//! common prefix of two root-to-value paths.

use vstd::prelude::*;
use crate::prefix::lcp_len;
use crate::prefix::lemma_lcp_char;
use crate::prefix::lemma_lcp_props;

verus! {

/// An owned tree node: a value and two optional owned subtrees.
#[derive(Debug)]
pub struct Node {
    pub value: i32,
    pub left: Option<Box<Node>>,
    pub right: Option<Box<Node>>,
}

/// An owned binary search tree; empty when the root is absent.
#[derive(Debug)]
pub struct Tree {
    pub root: Option<Box<Node>>,
}

/// The tree that insertion leaves behind: descend left on a value at most
/// the node's own, right otherwise, and attach a fresh leaf in the first
/// empty slot on the way.
pub open spec fn spec_insert(n: Node, v: i32) -> Node
    decreases n,
{
    if v <= n.value {
        match n.left {
            None => Node {
                left: Some(Box::new(Node { value: v, left: None, right: None })),
                ..n
            },
            Some(l) => Node { left: Some(Box::new(spec_insert(*l, v))), ..n },
        }
    } else {
        match n.right {
            None => Node {
                right: Some(Box::new(Node { value: v, left: None, right: None })),
                ..n
            },
            Some(r) => Node { right: Some(Box::new(spec_insert(*r, v))), ..n },
        }
    }
}

/// Insertion into an optional subtree: an absent subtree becomes a leaf.
pub open spec fn spec_insert_opt(o: Option<Box<Node>>, v: i32) -> Node {
    match o {
        None => Node { value: v, left: None, right: None },
        Some(n) => spec_insert(*n, v),
    }
}

/// The preorder path from `n` to the first node holding `v`: the node
/// itself, then the left subtree, then the right subtree.
pub open spec fn tree_path(n: Node, v: i32) -> Option<Seq<i32>>
    decreases n,
{
    if n.value == v {
        Some(seq![n.value])
    } else {
        let lp = match n.left {
            Some(l) => tree_path(*l, v),
            None => None,
        };
        match lp {
            Some(p) => Some(seq![n.value] + p),
            None => match n.right {
                Some(r) => match tree_path(*r, v) {
                    Some(p) => Some(seq![n.value] + p),
                    None => None,
                },
                None => None,
            },
        }
    }
}

/// Every found path is nonempty, starts at the node's own value and ends
/// at the value sought.
pub proof fn lemma_tree_path_props(n: Node, v: i32)
    requires
        tree_path(n, v) is Some,
    ensures
        tree_path(n, v)->Some_0.len() >= 1,
        tree_path(n, v)->Some_0.first() == n.value,
        tree_path(n, v)->Some_0.last() == v,
    decreases n,
{
    if n.value == v {
    } else {
        let lp = match n.left {
            Some(l) => tree_path(*l, v),
            None => None,
        };
        if lp is Some {
            let l = n.left->Some_0;
            lemma_tree_path_props(*l, v);
        } else {
            let r = n.right->Some_0;
            lemma_tree_path_props(*r, v);
        }
    }
}

/// Lowest common ancestor below a node: the last entry of the longest
/// common prefix of the two value paths, absent when either value is
/// missing (and, defensively, when the paths agree nowhere).
pub open spec fn node_lca_spec(n: Node, v1: i32, v2: i32) -> Option<i32> {
    match (tree_path(n, v1), tree_path(n, v2)) {
        (Some(p1), Some(p2)) => {
            let k = lcp_len(p1, p2);
            if k == 0 {
                None
            } else {
                Some(p1[k - 1])
            }
        },
        _ => None,
    }
}

/// Lowest common ancestor in a tree; absent on the empty tree.
pub open spec fn tree_lca_spec(t: Tree, v1: i32, v2: i32) -> Option<i32> {
    match t.root {
        None => None,
        Some(n) => node_lca_spec(*n, v1, v2),
    }
}

/// All values of the node's subtree lie between `lo` and `hi`, values on
/// the left never exceed their parent, and values on the right always
/// exceed it.
pub open spec fn bst_in(n: Node, lo: int, hi: int) -> bool
    decreases n,
{
    &&& lo <= n.value as int <= hi
    &&& match n.left {
        Some(l) => bst_in(*l, lo, n.value as int),
        None => true,
    }
    &&& match n.right {
        Some(r) => bst_in(*r, n.value as int + 1, hi),
        None => true,
    }
}

/// The binary-search-tree ordering invariant.
pub open spec fn is_bst(n: Node) -> bool {
    bst_in(n, i32::MIN as int, i32::MAX as int)
}

/// The tree's ordering invariant; the empty tree is well formed.
pub open spec fn tree_is_bst(t: Tree) -> bool {
    match t.root {
        None => true,
        Some(n) => is_bst(*n),
    }
}

/// Insertion keeps the ordering invariant.
pub proof fn lemma_insert_bst(n: Node, v: i32, lo: int, hi: int)
    requires
        bst_in(n, lo, hi),
        lo <= v as int <= hi,
    ensures
        bst_in(spec_insert(n, v), lo, hi),
    decreases n,
{
    if v <= n.value {
        match n.left {
            None => {
                assert(bst_in(Node { value: v, left: None, right: None }, lo, n.value as int));
            },
            Some(l) => {
                lemma_insert_bst(*l, v, lo, n.value as int);
                assert(bst_in(spec_insert(*l, v), lo, n.value as int));
            },
        }
    } else {
        match n.right {
            None => {
                assert(bst_in(Node { value: v, left: None, right: None }, n.value as int + 1, hi));
            },
            Some(r) => {
                lemma_insert_bst(*r, v, n.value as int + 1, hi);
                assert(bst_in(spec_insert(*r, v), n.value as int + 1, hi));
            },
        }
    }
}

impl Node {
    /// A leaf holding `value`.
    pub fn new(value: i32) -> (n: Node)
        ensures
            n == (Node { value, left: None, right: None }),
    {
        Node { value, left: None, right: None }
    }

    /// Inserts `value` below this node, as `spec_insert` describes.
    pub fn insert(&mut self, value: i32)
        ensures
            *final(self) == spec_insert(*old(self), value),
        decreases *old(self),
    {
        if value <= self.value {
            Self::insert_into_optional(&mut self.left, value);
        } else {
            Self::insert_into_optional(&mut self.right, value);
        }
    }

    /// Inserts `value` into an optional subtree, attaching a fresh leaf
    /// when the slot is empty.
    fn insert_into_optional(node: &mut Option<Box<Node>>, value: i32)
        ensures
            *final(node) == Some(Box::new(spec_insert_opt(*old(node), value))),
        decreases *old(node),
    {
        match node.take() {
            None => {
                *node = Some(Box::new(Node { value, left: None, right: None }));
            },
            Some(mut boxed) => {
                (&mut *boxed).insert(value);
                *node = Some(boxed);
            },
        }
    }
}

impl Tree {
    /// The empty tree.
    pub fn new() -> (t: Tree)
        ensures
            t.root is None,
    {
        Tree { root: None }
    }

    /// Inserts `value`: an empty tree gains it as the root, else it goes
    /// below the root as `spec_insert` describes. The search ordering is
    /// kept.
    pub fn insert(&mut self, value: i32)
        ensures
            final(self).root == Some(Box::new(spec_insert_opt(old(self).root, value))),
            tree_is_bst(*old(self)) ==> tree_is_bst(*final(self)),
    {
        proof {
            if tree_is_bst(*old(self)) {
                match old(self).root {
                    None => {
                        assert(bst_in(
                            spec_insert_opt(None, value),
                            i32::MIN as int,
                            i32::MAX as int,
                        ));
                    },
                    Some(n) => {
                        lemma_insert_bst(*n, value, i32::MIN as int, i32::MAX as int);
                    },
                }
            }
        }
        Node::insert_into_optional(&mut self.root, value);
    }
}

/// Traces the preorder path from `root` to the first node holding
/// `value`, appending it to `path`; on failure `path` is handed back
/// unchanged.
pub fn find_path(root: &Node, path: &mut Vec<i32>, value: i32) -> (found: bool)
    ensures
        found == (tree_path(*root, value) is Some),
        found ==> final(path)@ == old(path)@ + tree_path(*root, value)->Some_0,
        !found ==> final(path)@ == old(path)@,
    decreases *root,
{
    path.push(root.value);
    if root.value == value {
        proof {
            assert(final(path)@ =~= old(path)@ + seq![root.value]);
        }
        return true;
    }
    if let Some(l) = &root.left {
        let found_left = find_path(&**l, path, value);
        if found_left {
            proof {
                assert(final(path)@ =~= old(path)@ + (seq![root.value] + tree_path(
                    **l,
                    value,
                )->Some_0));
            }
            return true;
        }
    }
    if let Some(r) = &root.right {
        let found_right = find_path(&**r, path, value);
        if found_right {
            proof {
                assert(final(path)@ =~= old(path)@ + (seq![root.value] + tree_path(
                    **r,
                    value,
                )->Some_0));
            }
            return true;
        }
    }
    let _ = path.pop();
    proof {
        assert(final(path)@ =~= old(path)@);
    }
    false
}

/// Lowest common ancestor of the values `value1` and `value2` below
/// `root`: trace both paths and keep the last entry on which they agree.
pub fn find_lca(root: &Node, value1: i32, value2: i32) -> (r: Option<i32>)
    ensures
        r == node_lca_spec(*root, value1, value2),
{
    let mut path1: Vec<i32> = Vec::new();
    if !find_path(root, &mut path1, value1) {
        return None;
    }
    let mut path2: Vec<i32> = Vec::new();
    if !find_path(root, &mut path2, value2) {
        return None;
    }
    proof {
        assert(path1@ =~= tree_path(*root, value1)->Some_0);
        assert(path2@ =~= tree_path(*root, value2)->Some_0);
    }
    let mut i: usize = 0;
    while i < path1.len() && i < path2.len() && path1[i] == path2[i]
        invariant
            i <= path1@.len(),
            i <= path2@.len(),
            forall|j: int| 0 <= j < i ==> path1@[j] == #[trigger] path2@[j],
        decreases path1@.len() - i,
    {
        i += 1;
    }
    proof {
        lemma_lcp_char(path1@, path2@, i as nat);
    }
    if i == 0 {
        None
    } else {
        Some(path1[i - 1])
    }
}

/// Lowest common ancestor of two values in the tree.
pub fn tree_lca(tree: &Tree, value1: i32, value2: i32) -> (r: Option<i32>)
    ensures
        r == tree_lca_spec(*tree, value1, value2),
{
    match &tree.root {
        None => None,
        Some(n) => find_lca(&**n, value1, value2),
    }
}

/// A value present in the tree is its own lowest common ancestor.
pub proof fn lemma_tree_lca_self(t: Tree, v: i32)
    requires
        t.root is Some,
        tree_path(*t.root->Some_0, v) is Some,
    ensures
        tree_lca_spec(t, v, v) == Some(v),
{
    let n = *t.root->Some_0;
    let p = tree_path(n, v)->Some_0;
    lemma_tree_path_props(n, v);
    lemma_lcp_char(p, p, p.len());
}

/// The lowest common ancestor does not depend on the order of the two
/// queried values.
pub proof fn lemma_tree_lca_symmetric(t: Tree, a: i32, b: i32)
    ensures
        tree_lca_spec(t, a, b) == tree_lca_spec(t, b, a),
{
    if t.root is Some {
        let n = *t.root->Some_0;
        if tree_path(n, a) is Some && tree_path(n, b) is Some {
            let pa = tree_path(n, a)->Some_0;
            let pb = tree_path(n, b)->Some_0;
            lemma_lcp_props(pa, pb);
            let k = lcp_len(pa, pb);
            if k > 0 {
                assert(pa[k - 1] == pb[k - 1]);
            }
        }
    }
}

/// When the two values sit in different child subtrees of the root of a
/// well-ordered tree, their lowest common ancestor is the root itself.
pub proof fn lemma_tree_root_dominance(t: Tree, a: i32, b: i32)
    requires
        tree_is_bst(t),
        t.root is Some,
        a != t.root->Some_0.value,
        b != t.root->Some_0.value,
        t.root->Some_0.left is Some,
        t.root->Some_0.right is Some,
        tree_path(*t.root->Some_0.left->Some_0, a) is Some,
        !(tree_path(*t.root->Some_0.left->Some_0, b) is Some),
        tree_path(*t.root->Some_0.right->Some_0, b) is Some,
    ensures
        tree_lca_spec(t, a, b) == Some(t.root->Some_0.value),
{
    let n = *t.root->Some_0;
    let l = *n.left->Some_0;
    let r = *n.right->Some_0;
    let pl = tree_path(l, a)->Some_0;
    let pr = tree_path(r, b)->Some_0;
    lemma_tree_path_props(l, a);
    lemma_tree_path_props(r, b);
    let p1 = tree_path(n, a)->Some_0;
    let p2 = tree_path(n, b)->Some_0;
    assert(p1 == seq![n.value] + pl);
    assert(p2 == seq![n.value] + pr);
    assert(p1[1] == pl[0] && p2[1] == pr[0]);
    assert(bst_in(n, i32::MIN as int, i32::MAX as int));
    assert(bst_in(l, i32::MIN as int, n.value as int));
    assert(bst_in(r, n.value as int + 1, i32::MAX as int));
    assert(l.value <= n.value < r.value);
    lemma_lcp_char(p1, p2, 1);
    assert(p1[0] == n.value);
}

/// When the whole path to one value is a prefix of the path to another,
/// the first value is an ancestor of the second and is the pair's lowest
/// common ancestor.
pub proof fn lemma_tree_ancestor_absorption(t: Tree, a: i32, b: i32)
    requires
        t.root is Some,
        tree_path(*t.root->Some_0, a) is Some,
        tree_path(*t.root->Some_0, b) is Some,
        tree_path(*t.root->Some_0, a)->Some_0.len() <= tree_path(*t.root->Some_0, b)->Some_0.len(),
        tree_path(*t.root->Some_0, a)->Some_0 == tree_path(*t.root->Some_0, b)->Some_0.subrange(
            0,
            tree_path(*t.root->Some_0, a)->Some_0.len() as int,
        ),
    ensures
        tree_lca_spec(t, a, b) == Some(a),
{
    let n = *t.root->Some_0;
    let pa = tree_path(n, a)->Some_0;
    let pb = tree_path(n, b)->Some_0;
    lemma_tree_path_props(n, a);
    assert forall|j: int| 0 <= j < pa.len() implies pa[j] == pb[j] by {
        assert(pa[j] == pb.subrange(0, pa.len() as int)[j]);
    }
    lemma_lcp_char(pa, pb, pa.len());
}

} // verus!
