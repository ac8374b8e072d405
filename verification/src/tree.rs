//! The splay tree proper: the arena of nodes, the link mutators, the two
//! rotations, and the splay loop.

use vstd::prelude::*;

use crate::shape::Node;
use crate::shape::Shape;
use crate::shape::depth_in;
use crate::shape::in_shape;
use crate::shape::inorder;
use crate::shape::left_of;
use crate::shape::no_dup;
use crate::shape::replace_at;
use crate::shape::right_of;
use crate::shape::root_label;
use crate::shape::rotated_left;
use crate::shape::rotated_right;
use crate::shape::shape_wf;
use crate::shape::sub_at;
use crate::shape::spine;
use crate::shape::spine_record;
use crate::shape::lemma_decompose;
use crate::shape::lemma_depth_bound;
use crate::shape::lemma_in_bound;
use crate::shape::lemma_inorder_mem;
use crate::shape::lemma_spine;
use crate::shape::parent_in;
use crate::shape::splayed;
use crate::shape::splayed_within;
use crate::shape::step_shape;
use crate::shape::lemma_link_sym;
use crate::shape::lemma_parent_in;
use crate::shape::lemma_replace_shape;
use crate::shape::lemma_replace_wf;
use crate::shape::lemma_rotate_left_arena;
use crate::shape::lemma_rotate_right_arena;
use crate::shape::lemma_rotated_left;
use crate::shape::lemma_rotated_right;
use crate::shape::lemma_sub_pure;
use crate::shape::lemma_sub_wf;

verus! {

/// Why an operation was refused: an index outside the arena, or a state in
/// which the tree's structural invariant does not hold.
#[derive(Copy, Clone, PartialEq, Eq, Debug)]
pub enum Fault {
    Bounds,
    Invariant,
}

/// A fixed-size splay tree: `nodes` is the arena, `root` the index of the
/// topmost node, and `shape` the ghost witness of the link structure.
pub struct SplayTree {
    pub root: usize,
    pub nodes: Vec<Node>,
    pub shape: Ghost<Shape>,
}

impl SplayTree {
    /// The structural invariant: the ghost shape exactly mirrors the arena's
    /// links, carries each index once, is rooted at `root`, and its in-order
    /// traversal is `0, 1, ..., n-1`.
    pub open spec fn wf(self) -> bool {
        &&& shape_wf(self.shape@, self.nodes@, None)
        &&& no_dup(self.shape@)
        &&& root_label(self.shape@) == Some(self.root)
        &&& inorder(self.shape@) == Seq::new(self.nodes@.len() as nat, |i: int| i as usize)
    }

    /// The in-order traversal of the tree, as a sequence of arena indices.
    pub open spec fn in_order(self) -> Seq<usize> {
        inorder(self.shape@)
    }

    /// Overwrite the parent link of the node at `node_idx`.
    fn set_parent(&mut self, node_idx: usize, parent_idx: Option<usize>)
        requires
            node_idx < old(self).nodes@.len(),
        ensures
            final(self).root == old(self).root,
            final(self).shape == old(self).shape,
            final(self).nodes@ == old(self).nodes@.update(
                node_idx as int,
                Node {
                    parent: parent_idx,
                    left: old(self).nodes@[node_idx as int].left,
                    right: old(self).nodes@[node_idx as int].right,
                },
            ),
    {
        let mut node = self.nodes[node_idx];
        node.parent = parent_idx;
        self.nodes.set(node_idx, node);
    }

    /// Overwrite the left-child link of the node at `node_idx`; if the new
    /// child is present, its parent link is rewritten to point back, keeping
    /// the two directions of the link in step.
    fn set_left(&mut self, node_idx: usize, left_idx: Option<usize>)
        requires
            node_idx < old(self).nodes@.len(),
            left_idx matches Some(c) ==> c < old(self).nodes@.len(),
        ensures
            final(self).root == old(self).root,
            final(self).shape == old(self).shape,
            final(self).nodes@ == ({
                let mid = old(self).nodes@.update(
                    node_idx as int,
                    Node {
                        parent: old(self).nodes@[node_idx as int].parent,
                        left: left_idx,
                        right: old(self).nodes@[node_idx as int].right,
                    },
                );
                match left_idx {
                    None => mid,
                    Some(c) => mid.update(
                        c as int,
                        Node {
                            parent: Some(node_idx),
                            left: mid[c as int].left,
                            right: mid[c as int].right,
                        },
                    ),
                }
            }),
            final(self).nodes@[node_idx as int].left == left_idx,
            left_idx matches Some(c) ==> final(self).nodes@[c as int].parent == Some(node_idx),
    {
        let mut node = self.nodes[node_idx];
        node.left = left_idx;
        self.nodes.set(node_idx, node);
        match left_idx {
            Some(c) => self.set_parent(c, Some(node_idx)),
            _ => (),
        }
    }

    /// Overwrite the right-child link of the node at `node_idx`; if the new
    /// child is present, its parent link is rewritten to point back.
    fn set_right(&mut self, node_idx: usize, right_idx: Option<usize>)
        requires
            node_idx < old(self).nodes@.len(),
            right_idx matches Some(c) ==> c < old(self).nodes@.len(),
        ensures
            final(self).root == old(self).root,
            final(self).shape == old(self).shape,
            final(self).nodes@ == ({
                let mid = old(self).nodes@.update(
                    node_idx as int,
                    Node {
                        parent: old(self).nodes@[node_idx as int].parent,
                        left: old(self).nodes@[node_idx as int].left,
                        right: right_idx,
                    },
                );
                match right_idx {
                    None => mid,
                    Some(c) => mid.update(
                        c as int,
                        Node {
                            parent: Some(node_idx),
                            left: mid[c as int].left,
                            right: mid[c as int].right,
                        },
                    ),
                }
            }),
            final(self).nodes@[node_idx as int].right == right_idx,
            right_idx matches Some(c) ==> final(self).nodes@[c as int].parent == Some(node_idx),
    {
        let mut node = self.nodes[node_idx];
        node.right = right_idx;
        self.nodes.set(node_idx, node);
        match right_idx {
            Some(c) => self.set_parent(c, Some(node_idx)),
            _ => (),
        }
    }

    /// Replace whichever child slot of `node_idx` currently holds `old_child`
    /// by `new_child`, and point `new_child`'s parent link back. The left
    /// slot is inspected first.
    fn replace_child(
        &mut self,
        node_idx: usize,
        old_child: Option<usize>,
        new_child: Option<usize>,
    )
        requires
            old_child is Some,
            new_child is Some,
            node_idx < old(self).nodes@.len(),
            new_child.unwrap() < old(self).nodes@.len(),
            old(self).nodes@[node_idx as int].left == old_child || old(self).nodes@[node_idx
                as int].right == old_child,
        ensures
            final(self).root == old(self).root,
            final(self).shape == old(self).shape,
            final(self).nodes@ == ({
                let node = old(self).nodes@[node_idx as int];
                let mid = old(self).nodes@.update(
                    node_idx as int,
                    if node.left == old_child {
                        Node { parent: node.parent, left: new_child, right: node.right }
                    } else {
                        Node { parent: node.parent, left: node.left, right: new_child }
                    },
                );
                mid.update(
                    new_child.unwrap() as int,
                    Node {
                        parent: Some(node_idx),
                        left: mid[new_child.unwrap() as int].left,
                        right: mid[new_child.unwrap() as int].right,
                    },
                )
            }),
    {
        let mut node = self.nodes[node_idx];
        if node.left == old_child {
            node.left = new_child;
        } else {
            node.right = new_child;
        }
        self.nodes.set(node_idx, node);
        self.set_parent(new_child.unwrap(), Some(node_idx));
    }

    /// Make the node at `x_idx` the tree's root: record the index and clear
    /// the node's parent link.
    fn set_root(&mut self, x_idx: Option<usize>)
        requires
            x_idx matches Some(x) && x < old(self).nodes@.len(),
        ensures
            final(self).root == x_idx.unwrap(),
            final(self).shape == old(self).shape,
            final(self).nodes@ == old(self).nodes@.update(
                x_idx.unwrap() as int,
                Node {
                    parent: None,
                    left: old(self).nodes@[x_idx.unwrap() as int].left,
                    right: old(self).nodes@[x_idx.unwrap() as int].right,
                },
            ),
    {
        let x = x_idx.unwrap();
        self.root = x;
        let mut node = self.nodes[x];
        node.parent = None;
        self.nodes.set(x, node);
    }

    /// Right rotation about the node at `y_idx`, whose left child `x` must be
    /// present: `x` takes `y`'s place (becoming the root if `y` was the
    /// root), `y` becomes `x`'s right child, and `x`'s former right subtree
    /// becomes `y`'s left subtree. In the model, the subtree rooted at the
    /// pivot is replaced by its right rotation; the in-order traversal is
    /// unchanged.
    #[verifier::rlimit(100)]
    fn rotate_right(&mut self, y_idx: Option<usize>)
        requires
            old(self).wf(),
            y_idx matches Some(y) && in_shape(old(self).shape@, y),
            old(self).nodes@[y_idx.unwrap() as int].left is Some,
        ensures
            final(self).wf(),
            final(self).nodes@.len() == old(self).nodes@.len(),
            final(self).shape@ == replace_at(
                old(self).shape@,
                y_idx.unwrap(),
                rotated_right(sub_at(old(self).shape@, y_idx.unwrap())),
            ),
            final(self).root == (if old(self).root == y_idx.unwrap() {
                old(self).nodes@[y_idx.unwrap() as int].left.unwrap()
            } else {
                old(self).root
            }),
            inorder(final(self).shape@) == inorder(old(self).shape@),
    {
        let ghost s = self.shape@;
        let ghost n1 = self.nodes@;
        let y = y_idx.unwrap();
        proof {
            lemma_sub_wf(s, n1, None, y);
            lemma_sub_pure(s, y);
            lemma_decompose(sub_at(s, y), n1, n1[y as int].parent);
            lemma_decompose(left_of(sub_at(s, y)), n1, Some(y));
        }
        let ghost sub = sub_at(s, y);
        let ghost py = n1[y as int].parent;
        let y_node = self.nodes[y];
        let x_idx = y_node.left;
        let x = x_idx.unwrap();
        let x_node = self.nodes[x];
        let z_idx = y_node.parent;
        let a_idx = x_node.left;
        let b_idx = x_node.right;
        let c_idx = y_node.right;
        proof {
            // membership of the five local indices in the pivot's subtree,
            // and bounds for the arena writes below
            assert(in_shape(left_of(sub), x));
            assert(in_shape(sub, x));
            assert(in_shape(sub, y));
            assert(x != y);
            if a_idx is Some {
                lemma_decompose(left_of(left_of(sub)), n1, Some(x));
                assert(in_shape(left_of(sub), a_idx.unwrap()));
                assert(in_shape(sub, a_idx.unwrap()));
            }
            if b_idx is Some {
                lemma_decompose(right_of(left_of(sub)), n1, Some(x));
                assert(in_shape(left_of(sub), b_idx.unwrap()));
                assert(in_shape(sub, b_idx.unwrap()));
            }
            if c_idx is Some {
                lemma_decompose(right_of(sub), n1, Some(y));
                assert(in_shape(sub, c_idx.unwrap()));
            }
            if z_idx is Some {
                assert(root_label(s) != Some(y)) by {
                    lemma_decompose(s, n1, None);
                }
                assert(in_shape(s, z_idx.unwrap()));
                assert(!in_shape(sub, z_idx.unwrap()));
                lemma_sub_wf(s, n1, None, z_idx.unwrap());
            }
        }
        self.set_left(x, a_idx);
        let ghost m1 = self.nodes@;
        self.set_right(x, y_idx);
        let ghost m2 = self.nodes@;
        self.set_left(y, b_idx);
        let ghost m3 = self.nodes@;
        self.set_right(y, c_idx);
        let ghost m4 = self.nodes@;
        match z_idx {
            None => self.set_root(x_idx),
            Some(z) => self.replace_child(z, y_idx, x_idx),
        }
        proof {
            let n2 = self.nodes@;
            let t_new = rotated_right(sub);
            lemma_rotated_right(sub);
            assert(n2[x as int] == (Node { parent: py, left: a_idx, right: Some(y) }));
            assert(n2[y as int] == (Node { parent: Some(x), left: b_idx, right: c_idx }));
            if b_idx is Some {
                let bb = b_idx.unwrap();
                assert(n2[bb as int] == (Node {
                    parent: Some(y),
                    left: n1[bb as int].left,
                    right: n1[bb as int].right,
                }));
            }
            assert forall|j: usize| #[trigger]
                in_shape(sub, j) && j != x && j != y && Some(j) != n1[x as int].right implies n2[j
                as int] == n1[j as int] by {
                lemma_in_bound(sub, n1, py, j);
                assert(j != z_idx.unwrap() || z_idx is None);
                if Some(j) == a_idx {
                    assert(n1[j as int].parent == Some(x));
                    assert(m1[j as int] == n1[j as int]);
                } else {
                    assert(m1[j as int] == n1[j as int]);
                }
                assert(m2[j as int] == m1[j as int]);
                assert(m3[j as int] == m2[j as int]);
                if Some(j) == c_idx {
                    assert(n1[j as int].parent == Some(y));
                    assert(m4[j as int] == m3[j as int]);
                } else {
                    assert(m4[j as int] == m3[j as int]);
                }
                assert(n2[j as int] == m4[j as int]);
            }
            lemma_rotate_right_arena(sub, n1, n2, py);
            lemma_replace_shape(s, y, t_new);
            assert forall|j: usize|
                #![trigger n1[j as int]]
                #![trigger n2[j as int]]
                in_shape(s, j) && !in_shape(sub, j) implies n2[j as int].parent == n1[j
                as int].parent && (n1[j as int].left == Some(y) ==> n2[j as int].left
                == root_label(t_new) && n2[j as int].right == n1[j as int].right) && (n1[j
                as int].right == Some(y) ==> n2[j as int].right == root_label(t_new) && n2[j
                as int].left == n1[j as int].left) && (n1[j as int].left != Some(y) && n1[j
                as int].right != Some(y) ==> n2[j as int] == n1[j as int]) by {
                lemma_in_bound(s, n1, None, j);
                assert(j != x && j != y);
                assert(Some(j) != a_idx && Some(j) != b_idx && Some(j) != c_idx);
                assert(m1[j as int] == n1[j as int]);
                assert(m2[j as int] == m1[j as int]);
                assert(m3[j as int] == m2[j as int]);
                assert(m4[j as int] == m3[j as int]);
                if z_idx is Some && j == z_idx.unwrap() {
                    assert(root_label(t_new) == Some(x));
                    assert(n2[j as int].parent == n1[j as int].parent);
                    lemma_sub_pure(s, j);
                    lemma_sub_wf(s, n1, None, j);
                    lemma_decompose(sub_at(s, j), n1, n1[j as int].parent);
                    if n1[j as int].left == Some(y) {
                        assert(in_shape(left_of(sub_at(s, j)), y));
                        assert(n1[j as int].right != Some(y)) by {
                            if n1[j as int].right == Some(y) {
                                assert(in_shape(right_of(sub_at(s, j)), y));
                            }
                        }
                        assert(n2[j as int].left == Some(x));
                        assert(n2[j as int].right == n1[j as int].right);
                    } else {
                        assert(n1[j as int].right == Some(y));
                        assert(n1[j as int].left != Some(y));
                        assert(n2[j as int].right == Some(x));
                        assert(n2[j as int].left == n1[j as int].left);
                    }
                } else {
                    assert(n2[j as int] == m4[j as int]);
                    if n1[j as int].left == Some(y) || n1[j as int].right == Some(y) {
                        lemma_link_sym(s, n1, None, j, y);
                        assert(false);
                    }
                }
            }
            lemma_replace_wf(s, y, t_new, n1, n2, None);
            if z_idx is None {
                lemma_decompose(s, n1, None);
                assert(root_label(s) == Some(y));
            }
        }
        self.shape = Ghost(replace_at(s, y, rotated_right(sub)));
    }

    /// Left rotation about the node at `x_idx`, whose right child `y` must be
    /// present: `y` takes `x`'s place (becoming the root if `x` was the
    /// root), `x` becomes `y`'s left child, and `y`'s former left subtree
    /// becomes `x`'s right subtree. In the model, the subtree rooted at the
    /// pivot is replaced by its left rotation; the in-order traversal is
    /// unchanged.
    #[verifier::rlimit(100)]
    fn rotate_left(&mut self, x_idx: Option<usize>)
        requires
            old(self).wf(),
            x_idx matches Some(x) && in_shape(old(self).shape@, x),
            old(self).nodes@[x_idx.unwrap() as int].right is Some,
        ensures
            final(self).wf(),
            final(self).nodes@.len() == old(self).nodes@.len(),
            final(self).shape@ == replace_at(
                old(self).shape@,
                x_idx.unwrap(),
                rotated_left(sub_at(old(self).shape@, x_idx.unwrap())),
            ),
            final(self).root == (if old(self).root == x_idx.unwrap() {
                old(self).nodes@[x_idx.unwrap() as int].right.unwrap()
            } else {
                old(self).root
            }),
            inorder(final(self).shape@) == inorder(old(self).shape@),
    {
        let ghost s = self.shape@;
        let ghost n1 = self.nodes@;
        let x = x_idx.unwrap();
        proof {
            lemma_sub_wf(s, n1, None, x);
            lemma_sub_pure(s, x);
            lemma_decompose(sub_at(s, x), n1, n1[x as int].parent);
            lemma_decompose(right_of(sub_at(s, x)), n1, Some(x));
        }
        let ghost sub = sub_at(s, x);
        let ghost px = n1[x as int].parent;
        let x_node = self.nodes[x];
        let y_idx = x_node.right;
        let y = y_idx.unwrap();
        let y_node = self.nodes[y];
        let z_idx = x_node.parent;
        let a_idx = x_node.left;
        let b_idx = y_node.left;
        let c_idx = y_node.right;
        proof {
            // membership of the five local indices in the pivot's subtree,
            // and bounds for the arena writes below
            assert(in_shape(right_of(sub), y));
            assert(in_shape(sub, y));
            assert(in_shape(sub, x));
            assert(x != y);
            if a_idx is Some {
                lemma_decompose(left_of(sub), n1, Some(x));
                assert(in_shape(sub, a_idx.unwrap()));
            }
            if b_idx is Some {
                lemma_decompose(left_of(right_of(sub)), n1, Some(y));
                assert(in_shape(right_of(sub), b_idx.unwrap()));
                assert(in_shape(sub, b_idx.unwrap()));
            }
            if c_idx is Some {
                lemma_decompose(right_of(right_of(sub)), n1, Some(y));
                assert(in_shape(right_of(sub), c_idx.unwrap()));
                assert(in_shape(sub, c_idx.unwrap()));
            }
            if z_idx is Some {
                assert(root_label(s) != Some(x)) by {
                    lemma_decompose(s, n1, None);
                }
                assert(in_shape(s, z_idx.unwrap()));
                assert(!in_shape(sub, z_idx.unwrap()));
                lemma_sub_wf(s, n1, None, z_idx.unwrap());
            }
        }
        self.set_right(y, c_idx);
        let ghost m1 = self.nodes@;
        self.set_left(y, x_idx);
        let ghost m2 = self.nodes@;
        self.set_right(x, b_idx);
        let ghost m3 = self.nodes@;
        self.set_left(x, a_idx);
        let ghost m4 = self.nodes@;
        match z_idx {
            None => self.set_root(y_idx),
            Some(z) => self.replace_child(z, x_idx, y_idx),
        }
        proof {
            let n2 = self.nodes@;
            let t_new = rotated_left(sub);
            lemma_rotated_left(sub);
            assert(n2[y as int] == (Node { parent: px, left: Some(x), right: c_idx }));
            assert(n2[x as int] == (Node { parent: Some(y), left: a_idx, right: b_idx }));
            if b_idx is Some {
                let bb = b_idx.unwrap();
                assert(n2[bb as int] == (Node {
                    parent: Some(x),
                    left: n1[bb as int].left,
                    right: n1[bb as int].right,
                }));
            }
            assert forall|j: usize| #[trigger]
                in_shape(sub, j) && j != x && j != y && Some(j) != n1[y as int].left implies n2[j
                as int] == n1[j as int] by {
                lemma_in_bound(sub, n1, px, j);
                assert(j != z_idx.unwrap() || z_idx is None);
                if Some(j) == c_idx {
                    assert(n1[j as int].parent == Some(y));
                    assert(m1[j as int] == n1[j as int]);
                } else {
                    assert(m1[j as int] == n1[j as int]);
                }
                assert(m2[j as int] == m1[j as int]);
                assert(m3[j as int] == m2[j as int]);
                if Some(j) == a_idx {
                    assert(n1[j as int].parent == Some(x));
                    assert(m4[j as int] == m3[j as int]);
                } else {
                    assert(m4[j as int] == m3[j as int]);
                }
                assert(n2[j as int] == m4[j as int]);
            }
            lemma_rotate_left_arena(sub, n1, n2, px);
            lemma_replace_shape(s, x, t_new);
            assert forall|j: usize|
                #![trigger n1[j as int]]
                #![trigger n2[j as int]]
                in_shape(s, j) && !in_shape(sub, j) implies n2[j as int].parent == n1[j
                as int].parent && (n1[j as int].left == Some(x) ==> n2[j as int].left
                == root_label(t_new) && n2[j as int].right == n1[j as int].right) && (n1[j
                as int].right == Some(x) ==> n2[j as int].right == root_label(t_new) && n2[j
                as int].left == n1[j as int].left) && (n1[j as int].left != Some(x) && n1[j
                as int].right != Some(x) ==> n2[j as int] == n1[j as int]) by {
                lemma_in_bound(s, n1, None, j);
                assert(j != x && j != y);
                assert(Some(j) != a_idx && Some(j) != b_idx && Some(j) != c_idx);
                assert(m1[j as int] == n1[j as int]);
                assert(m2[j as int] == m1[j as int]);
                assert(m3[j as int] == m2[j as int]);
                assert(m4[j as int] == m3[j as int]);
                if z_idx is Some && j == z_idx.unwrap() {
                    assert(root_label(t_new) == Some(y));
                    assert(n2[j as int].parent == n1[j as int].parent);
                    lemma_sub_pure(s, j);
                    lemma_sub_wf(s, n1, None, j);
                    lemma_decompose(sub_at(s, j), n1, n1[j as int].parent);
                    if n1[j as int].left == Some(x) {
                        assert(in_shape(left_of(sub_at(s, j)), x));
                        assert(n1[j as int].right != Some(x)) by {
                            if n1[j as int].right == Some(x) {
                                assert(in_shape(right_of(sub_at(s, j)), x));
                            }
                        }
                        assert(n2[j as int].left == Some(y));
                        assert(n2[j as int].right == n1[j as int].right);
                    } else {
                        assert(n1[j as int].right == Some(x));
                        assert(n1[j as int].left != Some(x));
                        assert(n2[j as int].right == Some(y));
                        assert(n2[j as int].left == n1[j as int].left);
                    }
                } else {
                    assert(n2[j as int] == m4[j as int]);
                    if n1[j as int].left == Some(x) || n1[j as int].right == Some(x) {
                        lemma_link_sym(s, n1, None, j, x);
                        assert(false);
                    }
                }
            }
            lemma_replace_wf(s, x, t_new, n1, n2, None);
            if z_idx is None {
                lemma_decompose(s, n1, None);
                assert(root_label(s) == Some(x));
            }
        }
        self.shape = Ghost(replace_at(s, x, rotated_left(sub)));
    }

    /// One splay step for the non-root node at `x_idx`: classify the local
    /// configuration of `x`, its parent and its grandparent as zig, zig-zig
    /// or zig-zag, and apply one or two rotations. The node's depth falls by
    /// two, or to zero when it was one; in the zig-zig cases the grandparent
    /// is rotated first.
    #[verifier::rlimit(100)]
    fn splay_step(&mut self, x_idx: Option<usize>)
        requires
            old(self).wf(),
            x_idx matches Some(x) && in_shape(old(self).shape@, x),
            old(self).root != x_idx.unwrap(),
        ensures
            final(self).wf(),
            final(self).nodes@.len() == old(self).nodes@.len(),
            in_shape(final(self).shape@, x_idx.unwrap()),
            depth_in(final(self).shape@, x_idx.unwrap()) == (if depth_in(
                old(self).shape@,
                x_idx.unwrap(),
            ) >= 2 {
                depth_in(old(self).shape@, x_idx.unwrap()) - 2
            } else {
                0
            }),
            inorder(final(self).shape@) == inorder(old(self).shape@),
            final(self).shape@ == step_shape(old(self).shape@, x_idx.unwrap()),
            ({
                let s = old(self).shape@;
                let n1 = old(self).nodes@;
                let x = x_idx.unwrap();
                let y = n1[x as int].parent.unwrap();
                let z = n1[y as int].parent.unwrap();
                &&& (n1[y as int].parent is None ==> depth_in(final(self).shape@, x) == depth_in(
                    s,
                    x,
                ) - 1)
                &&& (n1[y as int].parent is None && n1[y as int].left == Some(x) ==> final(self).shape@ == replace_at(s, y, rotated_right(sub_at(s, y))))
                &&& (n1[y as int].parent is None && n1[y as int].right == Some(x) ==> final(self).shape@ == replace_at(s, y, rotated_left(sub_at(s, y))))
                &&& (n1[y as int].parent is Some && n1[z as int].left == Some(y) && n1[y
                    as int].left == Some(x) ==> final(self).shape@ == ({
                    let s1 = replace_at(s, z, rotated_right(sub_at(s, z)));
                    replace_at(s1, y, rotated_right(sub_at(s1, y)))
                }))
                &&& (n1[y as int].parent is Some && n1[z as int].left == Some(y) && n1[y
                    as int].right == Some(x) ==> final(self).shape@ == ({
                    let s1 = replace_at(s, y, rotated_left(sub_at(s, y)));
                    replace_at(s1, z, rotated_right(sub_at(s1, z)))
                }))
                &&& (n1[y as int].parent is Some && n1[z as int].right == Some(y) && n1[y
                    as int].left == Some(x) ==> final(self).shape@ == ({
                    let s1 = replace_at(s, y, rotated_right(sub_at(s, y)));
                    replace_at(s1, z, rotated_left(sub_at(s1, z)))
                }))
                &&& (n1[y as int].parent is Some && n1[z as int].right == Some(y) && n1[y
                    as int].right == Some(x) ==> final(self).shape@ == ({
                    let s1 = replace_at(s, z, rotated_left(sub_at(s, z)));
                    replace_at(s1, y, rotated_left(sub_at(s1, y)))
                }))
            }),
    {
        let ghost s = self.shape@;
        let ghost n1 = self.nodes@;
        let x = x_idx.unwrap();
        proof {
            lemma_decompose(s, n1, None);
            lemma_sub_wf(s, n1, None, x);
            lemma_sub_pure(s, x);
            assert(root_label(s) != Some(x));
        }
        let x_node = self.nodes[x];
        let y_idx = x_node.parent;
        let y = y_idx.unwrap();
        proof {
            assert(in_shape(s, y));
            lemma_sub_wf(s, n1, None, y);
            lemma_sub_pure(s, y);
            lemma_parent_in(s, n1, None, x);
            lemma_parent_in(s, n1, None, y);
            assert(parent_in(s, x) == Some(y));
        }
        let y_node = self.nodes[y];
        let z_idx = y_node.parent;
        match z_idx {
            None => {
                // zig: y is the root, one rotation lifts x to the root
                proof {
                    assert(root_label(s) == Some(y));
                    assert(sub_at(s, y) == s);
                    assert(depth_in(s, y) == 0);
                    assert(depth_in(s, x) == 1);
                }
                if y_node.left == x_idx {
                    proof {
                        assert(n1[y as int].right != Some(x)) by {
                            if n1[y as int].right == Some(x) {
                                assert(in_shape(left_of(s), x));
                                assert(in_shape(right_of(s), x));
                            }
                        }
                        lemma_rotated_right(s);
                    }
                    self.rotate_right(y_idx);
                    proof {
                        let t1 = rotated_right(s);
                        lemma_replace_shape(s, y, t1);
                        assert(in_shape(t1, x));
                        assert(depth_in(self.shape@, x) == depth_in(s, y) + depth_in(t1, x));
                        assert(depth_in(t1, x) == 0);
                        assert(self.shape@ == step_shape(s, x));
                    }
                } else {
                    proof {
                        assert(n1[y as int].right == Some(x));
                        assert(n1[y as int].left != Some(x)) by {
                            if n1[y as int].left == Some(x) {
                                assert(in_shape(left_of(s), x));
                                assert(in_shape(right_of(s), x));
                            }
                        }
                        lemma_rotated_left(s);
                    }
                    self.rotate_left(y_idx);
                    proof {
                        let t1 = rotated_left(s);
                        lemma_replace_shape(s, y, t1);
                        assert(in_shape(t1, x));
                        assert(depth_in(self.shape@, x) == depth_in(s, y) + depth_in(t1, x));
                        assert(depth_in(t1, x) == 0);
                        assert(self.shape@ == step_shape(s, x));
                    }
                }
            },
            Some(z) => {
                proof {
                    assert(root_label(s) != Some(y));
                    assert(in_shape(s, z));
                    assert(n1[z as int].left == Some(y) || n1[z as int].right == Some(y));
                    assert(depth_in(s, y) == depth_in(s, z) + 1);
                    assert(depth_in(s, x) == depth_in(s, z) + 2);
                    lemma_sub_wf(s, n1, None, z);
                    lemma_sub_pure(s, z);
                }
                let z_node = self.nodes[z];
                let z_left = z_node.left;
                let z_right = z_node.right;
                proof {
                    if z_left is Some {
                        lemma_link_sym(s, n1, None, z, z_left.unwrap());
                    }
                    if z_right is Some {
                        lemma_link_sym(s, n1, None, z, z_right.unwrap());
                    }
                }
                let z_left_left = match z_left {
                    Some(i) => self.nodes[i].left,
                    None => None,
                };
                let z_left_right = match z_left {
                    Some(i) => self.nodes[i].right,
                    None => None,
                };
                let z_right_left = match z_right {
                    Some(i) => self.nodes[i].left,
                    None => None,
                };
                let z_right_right = match z_right {
                    Some(i) => self.nodes[i].right,
                    None => None,
                };
                if z_left != None && z_left_right == x_idx {
                    // zig-zag: x is the right child of z's left child
                    proof {
                        lemma_link_sym(s, n1, None, z_left.unwrap(), x);
                        assert(z_left == Some(y));
                        assert(n1[z as int].left == Some(y));
                        assert(n1[y as int].right == Some(x));
                        lemma_link_sym(s, n1, None, z, y);
                        lemma_link_sym(s, n1, None, y, x);
                        lemma_decompose(sub_at(s, y), n1, Some(z));
                        lemma_decompose(sub_at(s, z), n1, n1[z as int].parent);
                        assert(n1[y as int].left != Some(x)) by {
                            if n1[y as int].left == Some(x) {
                                assert(in_shape(left_of(sub_at(s, y)), x));
                                assert(in_shape(right_of(sub_at(s, y)), x));
                            }
                        }
                        assert(n1[z as int].right != Some(y)) by {
                            if n1[z as int].right == Some(y) {
                                assert(in_shape(left_of(sub_at(s, z)), y));
                                assert(in_shape(right_of(sub_at(s, z)), y));
                            }
                        }
                        lemma_rotated_left(sub_at(s, y));
                    }
                    self.rotate_left(y_idx);
                    let ghost s1 = self.shape@;
                    let ghost m1 = self.nodes@;
                    proof {
                        let sub_y = sub_at(s, y);
                        let t1 = rotated_left(sub_y);
                        assert(s1 == replace_at(s, y, t1));
                        lemma_replace_shape(s, y, t1);
                        assert(root_label(t1) == Some(x));
                        assert(in_shape(s1, z));
                        assert(in_shape(sub_at(s, z), y));
                        assert(sub_at(s1, z) == replace_at(sub_at(s, z), y, t1));
                        assert(sub_at(s, y) == left_of(sub_at(s, z)));
                        assert(in_shape(sub_at(s, y), y));
                        assert(replace_at(sub_at(s, y), y, t1) == t1);
                        assert(root_label(sub_at(s, z)) == Some(z));
                        assert(left_of(sub_at(s1, z)) == t1);
                        lemma_sub_wf(s1, m1, None, z);
                        lemma_sub_pure(s1, z);
                        lemma_decompose(sub_at(s1, z), m1, m1[z as int].parent);
                        assert(m1[z as int].left == Some(x));
                        lemma_rotated_right(sub_at(s1, z));
                        assert(depth_in(s1, z) == depth_in(s, z));
                    }
                    self.rotate_right(z_idx);
                    proof {
                        let s2 = self.shape@;
                        let t2 = rotated_right(sub_at(s1, z));
                        assert(s2 == replace_at(s1, z, t2));
                        lemma_replace_shape(s1, z, t2);
                        assert(in_shape(sub_at(s, y), x));
                        assert(in_shape(rotated_left(sub_at(s, y)), x));
                        assert(in_shape(sub_at(s1, z), x));
                        assert(in_shape(t2, x));
                        assert(depth_in(s2, x) == depth_in(s1, z) + depth_in(t2, x));
                        assert(depth_in(t2, x) == 0);
                        assert(root_label(left_of(sub_at(s, z))) == Some(y));
                        assert(root_label(left_of(sub_at(s, y))) != Some(x));
                        assert(s2 == step_shape(s, x));
                    }
                } else if z_left != None && z_left_left == x_idx {
                    // zig-zig: x and y are both left children; rotate about
                    // the grandparent first
                    proof {
                        lemma_link_sym(s, n1, None, z_left.unwrap(), x);
                        assert(z_left == Some(y));
                        assert(n1[z as int].left == Some(y));
                        assert(n1[y as int].left == Some(x));
                        lemma_link_sym(s, n1, None, z, y);
                        lemma_link_sym(s, n1, None, y, x);
                        lemma_decompose(sub_at(s, z), n1, n1[z as int].parent);
                        lemma_decompose(sub_at(s, y), n1, Some(z));
                        assert(n1[y as int].right != Some(x)) by {
                            if n1[y as int].right == Some(x) {
                                assert(in_shape(left_of(sub_at(s, y)), x));
                                assert(in_shape(right_of(sub_at(s, y)), x));
                            }
                        }
                        assert(n1[z as int].right != Some(y)) by {
                            if n1[z as int].right == Some(y) {
                                assert(in_shape(left_of(sub_at(s, z)), y));
                                assert(in_shape(right_of(sub_at(s, z)), y));
                            }
                        }
                        lemma_rotated_right(sub_at(s, z));
                    }
                    self.rotate_right(z_idx);
                    let ghost s1 = self.shape@;
                    let ghost m1 = self.nodes@;
                    proof {
                        let sub_z = sub_at(s, z);
                        let t1 = rotated_right(sub_z);
                        assert(s1 == replace_at(s, z, t1));
                        lemma_replace_shape(s, z, t1);
                        assert(root_label(t1) == Some(y));
                        assert(in_shape(sub_z, y));
                        assert(in_shape(t1, y));
                        assert(in_shape(s1, y));
                        assert(sub_at(s1, y) == sub_at(t1, y));
                        assert(sub_at(t1, y) == t1);
                        assert(depth_in(s1, y) == depth_in(s, z) + depth_in(t1, y));
                        assert(depth_in(t1, y) == 0);
                        assert(left_of(t1) == sub_at(s, x));
                        lemma_sub_wf(s1, m1, None, y);
                        lemma_sub_pure(s1, y);
                        lemma_decompose(sub_at(s1, y), m1, m1[y as int].parent);
                        assert(m1[y as int].left == Some(x));
                        lemma_rotated_right(t1);
                    }
                    self.rotate_right(y_idx);
                    proof {
                        let s2 = self.shape@;
                        let t1 = rotated_right(sub_at(s, z));
                        let t2 = rotated_right(t1);
                        assert(s2 == replace_at(s1, y, t2));
                        lemma_replace_shape(s1, y, t2);
                        assert(in_shape(sub_at(s, y), x));
                        assert(in_shape(sub_at(s, z), x));
                        assert(in_shape(t1, x));
                        assert(in_shape(t2, x));
                        assert(depth_in(s2, x) == depth_in(s1, y) + depth_in(t2, x));
                        assert(depth_in(t2, x) == 0);
                        assert(root_label(left_of(sub_at(s, z))) == Some(y));
                        assert(root_label(left_of(sub_at(s, y))) == Some(x));
                        assert(s2 == step_shape(s, x));
                    }
                } else if z_right != None && z_right_left == x_idx {
                    // zig-zag: x is the left child of z's right child
                    proof {
                        lemma_link_sym(s, n1, None, z_right.unwrap(), x);
                        assert(z_right == Some(y));
                        assert(n1[z as int].right == Some(y));
                        assert(n1[y as int].left == Some(x));
                        lemma_link_sym(s, n1, None, z, y);
                        lemma_link_sym(s, n1, None, y, x);
                        lemma_decompose(sub_at(s, y), n1, Some(z));
                        lemma_decompose(sub_at(s, z), n1, n1[z as int].parent);
                        assert(n1[y as int].right != Some(x)) by {
                            if n1[y as int].right == Some(x) {
                                assert(in_shape(left_of(sub_at(s, y)), x));
                                assert(in_shape(right_of(sub_at(s, y)), x));
                            }
                        }
                        assert(n1[z as int].left != Some(y)) by {
                            if n1[z as int].left == Some(y) {
                                assert(in_shape(left_of(sub_at(s, z)), y));
                                assert(in_shape(right_of(sub_at(s, z)), y));
                            }
                        }
                        lemma_rotated_right(sub_at(s, y));
                    }
                    self.rotate_right(y_idx);
                    let ghost s1 = self.shape@;
                    let ghost m1 = self.nodes@;
                    proof {
                        let sub_y = sub_at(s, y);
                        let t1 = rotated_right(sub_y);
                        assert(s1 == replace_at(s, y, t1));
                        lemma_replace_shape(s, y, t1);
                        assert(root_label(t1) == Some(x));
                        assert(in_shape(s1, z));
                        assert(in_shape(sub_at(s, z), y));
                        assert(sub_at(s1, z) == replace_at(sub_at(s, z), y, t1));
                        assert(sub_at(s, y) == right_of(sub_at(s, z)));
                        assert(in_shape(sub_at(s, y), y));
                        assert(replace_at(sub_at(s, y), y, t1) == t1);
                        assert(root_label(sub_at(s, z)) == Some(z));
                        assert(right_of(sub_at(s1, z)) == t1);
                        lemma_sub_wf(s1, m1, None, z);
                        lemma_sub_pure(s1, z);
                        lemma_decompose(sub_at(s1, z), m1, m1[z as int].parent);
                        assert(m1[z as int].right == Some(x));
                        lemma_rotated_left(sub_at(s1, z));
                        assert(depth_in(s1, z) == depth_in(s, z));
                    }
                    self.rotate_left(z_idx);
                    proof {
                        let s2 = self.shape@;
                        let t2 = rotated_left(sub_at(s1, z));
                        assert(s2 == replace_at(s1, z, t2));
                        lemma_replace_shape(s1, z, t2);
                        assert(in_shape(sub_at(s, y), x));
                        assert(in_shape(rotated_right(sub_at(s, y)), x));
                        assert(in_shape(sub_at(s1, z), x));
                        assert(in_shape(t2, x));
                        assert(depth_in(s2, x) == depth_in(s1, z) + depth_in(t2, x));
                        assert(depth_in(t2, x) == 0);
                        assert(root_label(left_of(sub_at(s, z))) != Some(y));
                        assert(root_label(left_of(sub_at(s, y))) == Some(x));
                        assert(s2 == step_shape(s, x));
                    }
                } else {
                    // zig-zig: x and y are both right children; the three
                    // other configurations were ruled out above
                    proof {
                        if n1[z as int].left == Some(y) {
                            assert(z_left_right == n1[y as int].right);
                            assert(z_left_left == n1[y as int].left);
                            assert(false);
                        }
                        assert(z_right == Some(y));
                        if n1[y as int].left == Some(x) {
                            assert(z_right_left == Some(x));
                            assert(false);
                        }
                        assert(n1[y as int].right == Some(x));
                        lemma_link_sym(s, n1, None, z, y);
                        lemma_link_sym(s, n1, None, y, x);
                        lemma_decompose(sub_at(s, z), n1, n1[z as int].parent);
                        lemma_decompose(sub_at(s, y), n1, Some(z));
                        assert(n1[y as int].left != Some(x)) by {
                            if n1[y as int].left == Some(x) {
                                assert(in_shape(left_of(sub_at(s, y)), x));
                                assert(in_shape(right_of(sub_at(s, y)), x));
                            }
                        }
                        assert(n1[z as int].left != Some(y)) by {
                            if n1[z as int].left == Some(y) {
                                assert(in_shape(left_of(sub_at(s, z)), y));
                                assert(in_shape(right_of(sub_at(s, z)), y));
                            }
                        }
                        lemma_rotated_left(sub_at(s, z));
                    }
                    self.rotate_left(z_idx);
                    let ghost s1 = self.shape@;
                    let ghost m1 = self.nodes@;
                    proof {
                        let sub_z = sub_at(s, z);
                        let t1 = rotated_left(sub_z);
                        assert(s1 == replace_at(s, z, t1));
                        lemma_replace_shape(s, z, t1);
                        assert(root_label(t1) == Some(y));
                        assert(in_shape(sub_z, y));
                        assert(in_shape(t1, y));
                        assert(in_shape(s1, y));
                        assert(sub_at(s1, y) == sub_at(t1, y));
                        assert(sub_at(t1, y) == t1);
                        assert(depth_in(s1, y) == depth_in(s, z) + depth_in(t1, y));
                        assert(depth_in(t1, y) == 0);
                        assert(right_of(t1) == sub_at(s, x));
                        lemma_sub_wf(s1, m1, None, y);
                        lemma_sub_pure(s1, y);
                        lemma_decompose(sub_at(s1, y), m1, m1[y as int].parent);
                        assert(m1[y as int].right == Some(x));
                        lemma_rotated_left(t1);
                    }
                    self.rotate_left(y_idx);
                    proof {
                        let s2 = self.shape@;
                        let t1 = rotated_left(sub_at(s, z));
                        let t2 = rotated_left(t1);
                        assert(s2 == replace_at(s1, y, t2));
                        lemma_replace_shape(s1, y, t2);
                        assert(in_shape(sub_at(s, y), x));
                        assert(in_shape(sub_at(s, z), x));
                        assert(in_shape(t1, x));
                        assert(in_shape(t2, x));
                        assert(depth_in(s2, x) == depth_in(s1, y) + depth_in(t2, x));
                        assert(depth_in(t2, x) == 0);
                        assert(root_label(left_of(sub_at(s, z))) != Some(y));
                        assert(root_label(left_of(sub_at(s, y))) != Some(x));
                        assert(s2 == step_shape(s, x));
                    }
                }
            },
        }
    }

    /// Build a splay tree of `n` nodes whose in-order traversal is
    /// `0, 1, ..., n-1`, shaped as a left-leaning chain rooted at `n - 1`
    /// (node `i`'s parent is `i + 1`, its left child `i - 1`, and no node has
    /// a right child). A node count of zero is refused as a bounds fault.
    pub fn new(n: usize) -> (r: Result<SplayTree, Fault>)
        ensures
            n == 0 ==> r == Err::<SplayTree, Fault>(Fault::Bounds),
            n > 0 ==> r is Ok && {
                let t = r.unwrap();
                &&& t.wf()
                &&& t.nodes@.len() == n
                &&& t.root == n - 1
                &&& forall|j: int| 0 <= j < n ==> t.nodes@[j] == spine_record(j, n as int)
            },
    {
        if n == 0 {
            return Err(Fault::Bounds);
        }
        let mut nodes: Vec<Node> = Vec::new();
        let mut i: usize = 0;
        while i < n
            invariant
                i <= n,
                1 <= n,
                nodes@.len() == i,
                forall|j: int| 0 <= j < i ==> nodes@[j] == spine_record(j, n as int),
            decreases n - i,
        {
            let parent = if i == n - 1 {
                None
            } else {
                Some(i + 1)
            };
            let left = if i == 0 {
                None
            } else {
                Some(i - 1)
            };
            nodes.push(Node { parent, left, right: None });
            i = i + 1;
        }
        proof {
            lemma_spine(n as nat, n as nat, nodes@);
        }
        let t = SplayTree { root: n - 1, nodes, shape: Ghost(spine(n as nat)) };
        Ok(t)
    }

    /// Move the node at `x_idx` to the root by repeated splay steps, and
    /// return the number of steps taken: the ceiling of half the node's
    /// starting depth, each step performing one rotation (zig) or two
    /// (zig-zig, zig-zag). An absent or out-of-range index is refused as a
    /// bounds fault and leaves the tree untouched; splaying the node that
    /// already is the root takes zero steps and leaves the tree identical.
    /// The in-order traversal is unchanged: it stays `0, 1, ..., n-1`.
    #[verifier::loop_isolation(false)]
    pub fn splay(&mut self, x_idx: Option<usize>) -> (r: Result<usize, Fault>)
        requires
            old(self).wf(),
        ensures
            final(self).wf(),
            final(self).nodes@.len() == old(self).nodes@.len(),
            final(self).in_order() == old(self).in_order(),
            x_idx is Some && x_idx.unwrap() < old(self).nodes@.len() ==> {
                let x = x_idx.unwrap();
                &&& r == Ok::<usize, Fault>(((depth_in(old(self).shape@, x) + 1) / 2) as usize)
                &&& final(self).root == x
                &&& final(self).nodes@[x as int].parent is None
                &&& final(self).shape@ == splayed(old(self).shape@, x)
                &&& (old(self).root == x ==> *final(self) == *old(self))
            },
            !(x_idx is Some && x_idx.unwrap() < old(self).nodes@.len()) ==> r == Err::<
                usize,
                Fault,
            >(Fault::Bounds) && *final(self) == *old(self),
    {
        let x = match x_idx {
            None => {
                return Err(Fault::Bounds);
            },
            Some(v) => v,
        };
        assert(x_idx == Some(x));
        if x >= self.nodes.len() {
            return Err(Fault::Bounds);
        }
        proof {
            lemma_inorder_mem(self.shape@, x);
            assert(inorder(self.shape@)[x as int] == x);
            assert(inorder(self.shape@).contains(x));
            lemma_depth_bound(self.shape@, x);
            lemma_decompose(self.shape@, self.nodes@, None);
            lemma_sub_wf(self.shape@, self.nodes@, None, x);
        }
        let ghost s0 = self.shape@;
        let ghost d0 = depth_in(self.shape@, x);
        let ghost steps_total: nat = ((d0 + 1) / 2) as nat;
        let mut steps: usize = 0;
        while self.root != x
            invariant
                self.wf(),
                x < self.nodes@.len(),
                self.nodes@.len() == old(self).nodes@.len(),
                in_shape(self.shape@, x),
                d0 == depth_in(old(self).shape@, x),
                d0 < self.nodes@.len(),
                depth_in(self.shape@, x) <= d0,
                self.root == x <==> depth_in(self.shape@, x) == 0,
                depth_in(self.shape@, x) > 0 ==> 2 * steps == d0 - depth_in(self.shape@, x),
                depth_in(self.shape@, x) == 0 ==> steps == (d0 + 1) / 2,
                steps <= steps_total,
                splayed_within(self.shape@, x, (steps_total - steps) as nat) == splayed_within(
                    s0,
                    x,
                    steps_total,
                ),
                old(self).root == x ==> *self == *old(self) && steps == 0,
            decreases depth_in(self.shape@, x),
        {
            proof {
                assert(depth_in(self.shape@, x) > 0);
                assert(2 * steps <= d0);
                assert(steps < steps_total);
                assert(root_label(self.shape@) != Some(x));
            }
            let ghost pre = self.shape@;
            let ghost rem: nat = (steps_total - steps) as nat;
            self.splay_step(x_idx);
            steps = steps + 1;
            proof {
                lemma_decompose(self.shape@, self.nodes@, None);
                lemma_sub_wf(self.shape@, self.nodes@, None, x);
                assert(self.shape@ == step_shape(pre, x));
                assert(splayed_within(pre, x, rem) == splayed_within(
                    step_shape(pre, x),
                    x,
                    (rem - 1) as nat,
                ));
            }
        }
        proof {
            lemma_decompose(self.shape@, self.nodes@, None);
            assert(depth_in(self.shape@, x) == 0);
            assert(steps == (d0 + 1) / 2);
            assert((d0 + 1) / 2 <= usize::MAX);
            assert(self.nodes@[x as int].parent is None);
            assert(root_label(self.shape@) == Some(x));
            assert(splayed_within(self.shape@, x, (steps_total - steps) as nat) == self.shape@);
            assert(self.shape@ == splayed(s0, x));
        }
        Ok(steps)
    }

    /// A read-only view of the tree: the root index and, for every node, its
    /// `(parent, left, right)` triple. The view reflects the arena exactly.
    pub fn inspect(&self) -> (r: (usize, Vec<(Option<usize>, Option<usize>, Option<usize>)>))
        ensures
            r.0 == self.root,
            r.1@.len() == self.nodes@.len(),
            forall|i: int|
                0 <= i < self.nodes@.len() ==> r.1@[i] == (
                    self.nodes@[i].parent,
                    self.nodes@[i].left,
                    self.nodes@[i].right,
                ),
    {
        let mut view: Vec<(Option<usize>, Option<usize>, Option<usize>)> = Vec::new();
        let mut i: usize = 0;
        while i < self.nodes.len()
            invariant
                i <= self.nodes@.len(),
                view@.len() == i,
                forall|j: int|
                    0 <= j < i ==> view@[j] == (
                        self.nodes@[j].parent,
                        self.nodes@[j].left,
                        self.nodes@[j].right,
                    ),
            decreases self.nodes@.len() - i,
        {
            let node = self.nodes[i];
            view.push((node.parent, node.left, node.right));
            i = i + 1;
        }
        (self.root, view)
    }

    /// The number of nodes in the tree, fixed at construction.
    pub fn len(&self) -> (r: usize)
        ensures
            r == self.nodes@.len(),
    {
        self.nodes.len()
    }
}

/// Link symmetry: in a well-formed tree, whenever a node `p` holds a child
/// link to `c`, node `c`'s parent link points back to `p`.
pub proof fn lemma_link_symmetry(t: SplayTree, p: usize, c: usize)
    requires
        t.wf(),
        p < t.nodes@.len(),
        t.nodes@[p as int].left == Some(c) || t.nodes@[p as int].right == Some(c),
    ensures
        (c as int) < t.nodes@.len(),
        t.nodes@[c as int].parent == Some(p),
{
    lemma_inorder_mem(t.shape@, p);
    assert(inorder(t.shape@)[p as int] == p);
    assert(inorder(t.shape@).contains(p));
    lemma_link_sym(t.shape@, t.nodes@, None, p, c);
}

/// Single root: in a well-formed tree, exactly one node has an absent parent
/// link, and it is the node recorded as the root.
pub proof fn lemma_single_root(t: SplayTree, i: usize)
    requires
        t.wf(),
        i < t.nodes@.len(),
    ensures
        t.nodes@[i as int].parent is None <==> i == t.root,
{
    lemma_inorder_mem(t.shape@, i);
    assert(inorder(t.shape@)[i as int] == i);
    assert(inorder(t.shape@).contains(i));
    lemma_decompose(t.shape@, t.nodes@, None);
    lemma_sub_wf(t.shape@, t.nodes@, None, i);
}

} // verus!
