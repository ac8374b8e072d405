//! The ghost model of the tree's structure.
//!
//! A `Shape` is a recursive witness of the arena's parent/child graph: each
//! shape node carries the arena index it stands for. Because a `Shape` is a
//! finite inductive value, recursion over it is structural, so in-order
//! traversal, depth and subtree replacement are ordinary recursive spec
//! functions and acyclicity of the arena comes for free from the witness.

use vstd::prelude::*;

verus! {

/// One arena record: optional links to the parent and to the two children,
/// each an index into the arena.
#[derive(Copy, Clone)]
pub struct Node {
    pub parent: Option<usize>,
    pub left: Option<usize>,
    pub right: Option<usize>,
}

/// A finite binary tree of arena indices: the ghost witness of the arena's
/// link structure.
pub enum Shape {
    Nil,
    Node { left: Box<Shape>, idx: usize, right: Box<Shape> },
}

/// The index at a shape's root, or `None` for the empty shape. A well-formed
/// arena node's child links equal the root labels of its child shapes.
pub open spec fn root_label(s: Shape) -> Option<usize> {
    match s {
        Shape::Nil => None,
        Shape::Node { left, idx, right } => Some(idx),
    }
}

/// Whether index `x` occurs anywhere in shape `s`.
pub open spec fn in_shape(s: Shape, x: usize) -> bool
    decreases s,
{
    match s {
        Shape::Nil => false,
        Shape::Node { left, idx, right } => x == idx || in_shape(*left, x) || in_shape(*right, x),
    }
}

/// Every index occurs at most once in the shape.
pub open spec fn no_dup(s: Shape) -> bool
    decreases s,
{
    match s {
        Shape::Nil => true,
        Shape::Node { left, idx, right } => {
            &&& no_dup(*left)
            &&& no_dup(*right)
            &&& !in_shape(*left, idx)
            &&& !in_shape(*right, idx)
            &&& forall|j: usize| #[trigger] in_shape(*left, j) ==> !in_shape(*right, j)
        },
    }
}

/// In-order traversal: left subtree, root, right subtree.
pub open spec fn inorder(s: Shape) -> Seq<usize>
    decreases s,
{
    match s {
        Shape::Nil => Seq::empty(),
        Shape::Node { left, idx, right } => inorder(*left) + seq![idx] + inorder(*right),
    }
}

/// Distance from the root of `s` down to the node labelled `x`
/// (meaningful when `in_shape(s, x)`).
pub open spec fn depth_in(s: Shape, x: usize) -> nat
    decreases s,
{
    match s {
        Shape::Nil => 0,
        Shape::Node { left, idx, right } => if x == idx {
            0
        } else if in_shape(*left, x) {
            1 + depth_in(*left, x)
        } else {
            1 + depth_in(*right, x)
        },
    }
}

/// The subtree of `s` rooted at the node labelled `x`
/// (meaningful when `in_shape(s, x)`).
pub open spec fn sub_at(s: Shape, x: usize) -> Shape
    decreases s,
{
    match s {
        Shape::Nil => s,
        Shape::Node { left, idx, right } => if x == idx {
            s
        } else if in_shape(*left, x) {
            sub_at(*left, x)
        } else {
            sub_at(*right, x)
        },
    }
}

/// `s` with the subtree rooted at the node labelled `x` replaced by `t`
/// (meaningful when `in_shape(s, x)`).
pub open spec fn replace_at(s: Shape, x: usize, t: Shape) -> Shape
    decreases s,
{
    match s {
        Shape::Nil => s,
        Shape::Node { left, idx, right } => if x == idx {
            t
        } else if in_shape(*left, x) {
            Shape::Node { left: Box::new(replace_at(*left, x, t)), idx, right }
        } else {
            Shape::Node { left, idx, right: Box::new(replace_at(*right, x, t)) }
        },
    }
}

/// Whether shape `s` exactly mirrors the arena `nodes` when hung below a
/// parent link of value `par`: each shape node's arena record points to `par`
/// upward and to the roots of its child shapes downward.
pub open spec fn shape_wf(s: Shape, nodes: Seq<Node>, par: Option<usize>) -> bool
    decreases s,
{
    match s {
        Shape::Nil => true,
        Shape::Node { left, idx, right } => {
            &&& (idx as int) < nodes.len()
            &&& nodes[idx as int].parent == par
            &&& nodes[idx as int].left == root_label(*left)
            &&& nodes[idx as int].right == root_label(*right)
            &&& shape_wf(*left, nodes, Some(idx))
            &&& shape_wf(*right, nodes, Some(idx))
        },
    }
}

/// The shape after a right rotation about the root of `t`: the root's left
/// child becomes the new subtree root (meaningful when `t` and its left
/// child are both non-empty).
pub open spec fn rotated_right(t: Shape) -> Shape {
    match t {
        Shape::Nil => t,
        Shape::Node { left, idx: y, right: c } => match *left {
            Shape::Nil => t,
            Shape::Node { left: a, idx: x, right: b } => Shape::Node {
                left: a,
                idx: x,
                right: Box::new(Shape::Node { left: b, idx: y, right: c }),
            },
        },
    }
}

/// The left child shape of `s` (`Nil` for the empty shape).
pub open spec fn left_of(s: Shape) -> Shape {
    match s {
        Shape::Nil => Shape::Nil,
        Shape::Node { left, idx, right } => *left,
    }
}

/// The right child shape of `s` (`Nil` for the empty shape).
pub open spec fn right_of(s: Shape) -> Shape {
    match s {
        Shape::Nil => Shape::Nil,
        Shape::Node { left, idx, right } => *right,
    }
}

/// The shape after a left rotation about the root of `t`: the root's right
/// child becomes the new subtree root (meaningful when `t` and its right
/// child are both non-empty).
pub open spec fn rotated_left(t: Shape) -> Shape {
    match t {
        Shape::Nil => t,
        Shape::Node { left: a, idx: x, right } => match *right {
            Shape::Nil => t,
            Shape::Node { left: b, idx: y, right: c } => Shape::Node {
                left: Box::new(Shape::Node { left: a, idx: x, right: b }),
                idx: y,
                right: c,
            },
        },
    }
}

/// An index occurs in a shape exactly when it occurs in its in-order traversal.
pub proof fn lemma_inorder_mem(s: Shape, x: usize)
    ensures
        in_shape(s, x) <==> inorder(s).contains(x),
    decreases s,
{
    match s {
        Shape::Nil => {
            assert(!inorder(s).contains(x));
        },
        Shape::Node { left, idx, right } => {
            lemma_inorder_mem(*left, x);
            lemma_inorder_mem(*right, x);
            let l = inorder(*left);
            let r = inorder(*right);
            let all = inorder(s);
            assert(all == l + seq![idx] + r);
            if in_shape(s, x) {
                if x == idx {
                    assert(all[l.len() as int] == x);
                } else if in_shape(*left, x) {
                    let i = choose|i: int| 0 <= i < l.len() && l[i] == x;
                    assert(all[i] == x);
                } else {
                    let i = choose|i: int| 0 <= i < r.len() && r[i] == x;
                    assert(all[l.len() + 1 + i] == x);
                }
                assert(all.contains(x));
            }
            if all.contains(x) {
                let i = choose|i: int| 0 <= i < all.len() && all[i] == x;
                if i < l.len() {
                    assert(l[i] == x);
                    assert(l.contains(x));
                } else if i == l.len() {
                    assert(x == idx);
                } else {
                    assert(r[i - l.len() - 1] == x);
                    assert(r.contains(x));
                }
            }
        },
    }
}

/// A shape stays well-formed under any arena change that leaves the records
/// of its own indices untouched.
pub proof fn lemma_frame(s: Shape, n1: Seq<Node>, n2: Seq<Node>, par: Option<usize>)
    requires
        shape_wf(s, n1, par),
        n1.len() == n2.len(),
        forall|j: usize| #[trigger] in_shape(s, j) ==> n1[j as int] == n2[j as int],
    ensures
        shape_wf(s, n2, par),
    decreases s,
{
    match s {
        Shape::Nil => {},
        Shape::Node { left, idx, right } => {
            assert(in_shape(s, idx));
            assert forall|j: usize| #[trigger] in_shape(*left, j) implies n1[j as int] == n2[j
                as int] by {
                assert(in_shape(s, j));
            }
            assert forall|j: usize| #[trigger] in_shape(*right, j) implies n1[j as int] == n2[j
                as int] by {
                assert(in_shape(s, j));
            }
            lemma_frame(*left, n1, n2, Some(idx));
            lemma_frame(*right, n1, n2, Some(idx));
        },
    }
}

/// A shape stays well-formed when only its root record's parent link is
/// rewritten, to the new hanging point.
pub proof fn lemma_reparent(s: Shape, n1: Seq<Node>, n2: Seq<Node>, p1: Option<usize>, p2: Option<
    usize,
>)
    requires
        shape_wf(s, n1, p1),
        no_dup(s),
        n1.len() == n2.len(),
        forall|j: usize| #[trigger] in_shape(s, j) && Some(j) != root_label(s) ==> n1[j as int]
            == n2[j as int],
        s matches Shape::Node { left, idx, right } ==> n2[idx as int] == (Node {
            parent: p2,
            left: n1[idx as int].left,
            right: n1[idx as int].right,
        }),
    ensures
        shape_wf(s, n2, p2),
    decreases s,
{
    match s {
        Shape::Nil => {},
        Shape::Node { left, idx, right } => {
            assert forall|j: usize| #[trigger] in_shape(*left, j) implies n1[j as int] == n2[j
                as int] by {
                assert(in_shape(s, j));
                assert(j != idx);
            }
            assert forall|j: usize| #[trigger] in_shape(*right, j) implies n1[j as int] == n2[j
                as int] by {
                assert(in_shape(s, j));
                assert(j != idx);
            }
            lemma_frame(*left, n1, n2, Some(idx));
            lemma_frame(*right, n1, n2, Some(idx));
        },
    }
}

/// Facts about the subtree of `s` rooted at `x` that do not mention the
/// arena: its root label, its uniqueness of labels, and that its labels are
/// among those of `s`.
pub proof fn lemma_sub_pure(s: Shape, x: usize)
    requires
        no_dup(s),
        in_shape(s, x),
    ensures
        root_label(sub_at(s, x)) == Some(x),
        no_dup(sub_at(s, x)),
        forall|w: usize| #[trigger] in_shape(sub_at(s, x), w) ==> in_shape(s, w),
    decreases s,
{
    match s {
        Shape::Nil => {},
        Shape::Node { left, idx, right } => {
            if x == idx {
            } else if in_shape(*left, x) {
                lemma_sub_pure(*left, x);
            } else {
                lemma_sub_pure(*right, x);
            }
        },
    }
}

/// The label of the node above `x` in the shape, or `None` when `x` is the
/// root (meaningful when `in_shape(s, x)`). In a well-formed tree this
/// equals `x`'s arena parent link.
pub open spec fn parent_in(s: Shape, x: usize) -> Option<usize>
    decreases s,
{
    match s {
        Shape::Nil => None,
        Shape::Node { left, idx, right } => if x == idx {
            None
        } else if in_shape(*left, x) {
            if root_label(*left) == Some(x) {
                Some(idx)
            } else {
                parent_in(*left, x)
            }
        } else if in_shape(*right, x) {
            if root_label(*right) == Some(x) {
                Some(idx)
            } else {
                parent_in(*right, x)
            }
        } else {
            None
        },
    }
}

/// In a well-formed tree, the shape-level parent of a node agrees with the
/// node's arena parent link; the root's parent is the hanging point itself.
pub proof fn lemma_parent_in(s: Shape, nodes: Seq<Node>, par: Option<usize>, x: usize)
    requires
        shape_wf(s, nodes, par),
        no_dup(s),
        in_shape(s, x),
    ensures
        root_label(s) == Some(x) ==> parent_in(s, x) == None::<usize>,
        root_label(s) != Some(x) ==> parent_in(s, x) == nodes[x as int].parent,
    decreases s,
{
    match s {
        Shape::Nil => {},
        Shape::Node { left, idx, right } => {
            if x == idx {
            } else if in_shape(*left, x) {
                lemma_parent_in(*left, nodes, Some(idx), x);
                if root_label(*left) == Some(x) {
                    lemma_decompose(*left, nodes, Some(idx));
                }
            } else {
                lemma_parent_in(*right, nodes, Some(idx), x);
                if root_label(*right) == Some(x) {
                    lemma_decompose(*right, nodes, Some(idx));
                }
            }
        },
    }
}

/// One splay step, at the level of shapes alone: classify the target's
/// parent and grandparent as zig, zig-zig or zig-zag, and apply the one or
/// two rotations of that case — the grandparent first in the zig-zig cases
/// (meaningful when `in_shape(s, x)` and `x` is not the root).
pub open spec fn step_shape(s: Shape, x: usize) -> Shape {
    let y = parent_in(s, x).unwrap();
    let sub_y = sub_at(s, y);
    if parent_in(s, y) is None {
        if root_label(left_of(sub_y)) == Some(x) {
            replace_at(s, y, rotated_right(sub_y))
        } else {
            replace_at(s, y, rotated_left(sub_y))
        }
    } else {
        let z = parent_in(s, y).unwrap();
        let sub_z = sub_at(s, z);
        if root_label(left_of(sub_z)) == Some(y) {
            if root_label(left_of(sub_y)) == Some(x) {
                let s1 = replace_at(s, z, rotated_right(sub_z));
                replace_at(s1, y, rotated_right(sub_at(s1, y)))
            } else {
                let s1 = replace_at(s, y, rotated_left(sub_y));
                replace_at(s1, z, rotated_right(sub_at(s1, z)))
            }
        } else {
            if root_label(left_of(sub_y)) == Some(x) {
                let s1 = replace_at(s, y, rotated_right(sub_y));
                replace_at(s1, z, rotated_left(sub_at(s1, z)))
            } else {
                let s1 = replace_at(s, z, rotated_left(sub_z));
                replace_at(s1, y, rotated_left(sub_at(s1, y)))
            }
        }
    }
}

/// At most `fuel` splay steps for `x`, stopping as soon as `x` is the root.
pub open spec fn splayed_within(s: Shape, x: usize, fuel: nat) -> Shape
    decreases fuel,
{
    if root_label(s) == Some(x) || fuel == 0 {
        s
    } else {
        splayed_within(step_shape(s, x), x, (fuel - 1) as nat)
    }
}

/// The shape after splaying `x` to the root: the splay steps of `x`,
/// iterated — their number is the ceiling of half of `x`'s depth.
pub open spec fn splayed(s: Shape, x: usize) -> Shape {
    splayed_within(s, x, (depth_in(s, x) + 1) / 2)
}

/// Facts about the subtree of `s` rooted at `x` against the arena: the
/// subtree is well-formed below `x`'s own parent link, and unless `x` is the
/// root of `s`, that parent link names a node of `s` outside the subtree
/// whose child slot holds `x` and whose depth is one less.
pub proof fn lemma_sub_wf(s: Shape, nodes: Seq<Node>, par: Option<usize>, x: usize)
    requires
        shape_wf(s, nodes, par),
        no_dup(s),
        in_shape(s, x),
    ensures
        (x as int) < nodes.len(),
        shape_wf(sub_at(s, x), nodes, nodes[x as int].parent),
        root_label(s) == Some(x) ==> sub_at(s, x) == s && depth_in(s, x) == 0 && nodes[x
            as int].parent == par,
        root_label(s) != Some(x) ==> nodes[x as int].parent is Some && {
            let p = nodes[x as int].parent.unwrap();
            &&& in_shape(s, p)
            &&& !in_shape(sub_at(s, x), p)
            &&& nodes[p as int].left == Some(x) || nodes[p as int].right == Some(x)
            &&& depth_in(s, x) == depth_in(s, p) + 1
        },
    decreases s,
{
    lemma_sub_pure(s, x);
    match s {
        Shape::Nil => {},
        Shape::Node { left, idx, right } => {
            if x == idx {
            } else if in_shape(*left, x) {
                lemma_sub_wf(*left, nodes, Some(idx), x);
                lemma_sub_pure(*left, x);
                if root_label(*left) == Some(x) {
                    assert(nodes[x as int].parent == Some(idx));
                    assert(nodes[idx as int].left == Some(x));
                    assert(!in_shape(*left, idx));
                    assert(depth_in(s, x) == 1 + depth_in(*left, x));
                } else {
                    let p = nodes[x as int].parent.unwrap();
                    assert(in_shape(*left, p));
                    assert(p != idx);
                    assert(depth_in(s, p) == 1 + depth_in(*left, p));
                }
            } else {
                lemma_sub_wf(*right, nodes, Some(idx), x);
                lemma_sub_pure(*right, x);
                if root_label(*right) == Some(x) {
                    assert(nodes[x as int].parent == Some(idx));
                    assert(nodes[idx as int].right == Some(x));
                    assert(!in_shape(*right, idx));
                    assert(depth_in(s, x) == 1 + depth_in(*right, x));
                } else {
                    let p = nodes[x as int].parent.unwrap();
                    assert(in_shape(*right, p));
                    assert(p != idx);
                    assert(!in_shape(*left, p));
                    assert(depth_in(s, p) == 1 + depth_in(*right, p));
                }
            }
        },
    }
}

/// Link symmetry at the model level: a child slot of a node of `s` names a
/// node of `s` whose parent link points back.
pub proof fn lemma_link_sym(s: Shape, nodes: Seq<Node>, par: Option<usize>, p: usize, c: usize)
    requires
        shape_wf(s, nodes, par),
        no_dup(s),
        in_shape(s, p),
        nodes[p as int].left == Some(c) || nodes[p as int].right == Some(c),
    ensures
        in_shape(s, c),
        in_shape(sub_at(s, p), c),
        (c as int) < nodes.len(),
        nodes[c as int].parent == Some(p),
        depth_in(s, c) == depth_in(s, p) + 1,
        sub_at(s, c) == (if nodes[p as int].left == Some(c) {
            left_of(sub_at(s, p))
        } else {
            right_of(sub_at(s, p))
        }),
    decreases s,
{
    match s {
        Shape::Nil => {},
        Shape::Node { left, idx, right } => {
            if p == idx {
                assert(sub_at(s, p) == s);
                if nodes[p as int].left == Some(c) {
                    assert(root_label(*left) == Some(c));
                    match *left {
                        Shape::Nil => {
                            assert(false);
                        },
                        Shape::Node { left: cl, idx: ci, right: cr } => {
                            assert(ci == c);
                            assert(shape_wf(*left, nodes, Some(idx)));
                            assert((c as int) < nodes.len());
                            assert(nodes[c as int].parent == Some(idx));
                            assert(in_shape(*left, c));
                            assert(depth_in(*left, c) == 0);
                            assert(sub_at(*left, c) == *left);
                            assert(c != idx);
                            assert(sub_at(s, c) == *left);
                            assert(depth_in(s, c) == 1);
                        },
                    }
                } else {
                    assert(root_label(*right) == Some(c));
                    match *right {
                        Shape::Nil => {
                            assert(false);
                        },
                        Shape::Node { left: cl, idx: ci, right: cr } => {
                            assert(ci == c);
                            assert(shape_wf(*right, nodes, Some(idx)));
                            assert((c as int) < nodes.len());
                            assert(nodes[c as int].parent == Some(idx));
                            assert(in_shape(*right, c));
                            assert(depth_in(*right, c) == 0);
                            assert(sub_at(*right, c) == *right);
                            assert(c != idx);
                            assert(!in_shape(*left, c));
                            assert(sub_at(s, c) == *right);
                            assert(depth_in(s, c) == 1);
                        },
                    }
                }
            } else if in_shape(*left, p) {
                lemma_link_sym(*left, nodes, Some(idx), p, c);
                assert(c != idx);
                assert(!in_shape(*right, c));
            } else {
                lemma_link_sym(*right, nodes, Some(idx), p, c);
                assert(c != idx);
                assert(!in_shape(*left, c));
            }
        },
    }
}

/// Replacing the subtree rooted at `y` by a shape `t` with the same in-order
/// traversal keeps the labels unique and the overall traversal unchanged, and
/// transports subtrees and depths: nodes of `t` sit below `y`'s old position,
/// and nodes outside the replaced subtree keep their depth.
pub proof fn lemma_replace_shape(s: Shape, y: usize, t: Shape)
    requires
        no_dup(s),
        in_shape(s, y),
        no_dup(t),
        inorder(t) == inorder(sub_at(s, y)),
    ensures
        no_dup(replace_at(s, y, t)),
        inorder(replace_at(s, y, t)) == inorder(s),
        root_label(replace_at(s, y, t)) == (if root_label(s) == Some(y) {
            root_label(t)
        } else {
            root_label(s)
        }),
        forall|w: usize|
            #![trigger in_shape(replace_at(s, y, t), w)]
            #![trigger in_shape(s, w)]
            in_shape(replace_at(s, y, t), w) <==> in_shape(s, w),
        forall|w: usize| #[trigger]
            in_shape(t, w) ==> sub_at(replace_at(s, y, t), w) == sub_at(t, w) && depth_in(
                replace_at(s, y, t),
                w,
            ) == depth_in(s, y) + depth_in(t, w),
        forall|w: usize|
            #![trigger in_shape(sub_at(s, y), w), in_shape(s, w)]
            in_shape(s, w) && !in_shape(sub_at(s, y), w) ==> depth_in(replace_at(s, y, t), w)
                == depth_in(s, w) && sub_at(replace_at(s, y, t), w) == (if in_shape(
                sub_at(s, w),
                y,
            ) {
                replace_at(sub_at(s, w), y, t)
            } else {
                sub_at(s, w)
            }),
    decreases s,
{
    let rep = replace_at(s, y, t);
    let sub = sub_at(s, y);
    lemma_sub_pure(s, y);
    assert forall|w: usize| #[trigger] in_shape(t, w) <==> in_shape(sub, w) by {
        lemma_inorder_mem(t, w);
        lemma_inorder_mem(sub, w);
    }
    match s {
        Shape::Nil => {},
        Shape::Node { left, idx, right } => {
            if y == idx {
                assert(sub == s);
                assert(rep == t);
                assert forall|w: usize| #[trigger] in_shape(t, w) implies sub_at(rep, w) == sub_at(
                    t,
                    w,
                ) && depth_in(rep, w) == depth_in(s, y) + depth_in(t, w) by {
                    assert(depth_in(s, y) == 0);
                }
            } else if in_shape(*left, y) {
                assert(sub == sub_at(*left, y));
                lemma_sub_pure(*left, y);
                lemma_replace_shape(*left, y, t);
                let lrep = replace_at(*left, y, t);
                assert(rep == Shape::Node { left: Box::new(lrep), idx, right });
                assert(y != idx);
                // membership of the rebuilt shape
                assert forall|w: usize|
                    in_shape(rep, w) <==> in_shape(s, w) by {
                    assert(in_shape(lrep, w) <==> in_shape(*left, w));
                }
                // unique labels
                assert(!in_shape(lrep, idx));
                assert forall|j: usize| #[trigger] in_shape(lrep, j) implies !in_shape(
                    *right,
                    j,
                ) by {
                    assert(in_shape(*left, j));
                }
                assert(no_dup(rep));
                // traversal
                assert(inorder(rep) == inorder(lrep) + seq![idx] + inorder(*right));
                assert(inorder(rep) == inorder(s));
                // nodes of t
                assert forall|w: usize| #[trigger] in_shape(t, w) implies sub_at(rep, w) == sub_at(
                    t,
                    w,
                ) && depth_in(rep, w) == depth_in(s, y) + depth_in(t, w) by {
                    assert(in_shape(sub, w));
                    assert(in_shape(*left, w));
                    assert(w != idx);
                    assert(in_shape(lrep, w));
                    assert(sub_at(rep, w) == sub_at(lrep, w));
                    assert(depth_in(rep, w) == 1 + depth_in(lrep, w));
                    assert(depth_in(s, y) == 1 + depth_in(*left, y));
                }
                // nodes outside the replaced subtree
                assert forall|w: usize|
                    in_shape(s, w) && !in_shape(sub, w) implies depth_in(rep, w) == depth_in(s, w)
                    && sub_at(rep, w) == (if in_shape(sub_at(s, w), y) {
                    replace_at(sub_at(s, w), y, t)
                } else {
                    sub_at(s, w)
                }) by {
                    if w == idx {
                        assert(sub_at(rep, w) == rep);
                        assert(sub_at(s, w) == s);
                        assert(depth_in(rep, w) == 0);
                        assert(depth_in(s, w) == 0);
                    } else if in_shape(*left, w) {
                        assert(!in_shape(sub_at(*left, y), w));
                        assert(in_shape(lrep, w));
                        assert(depth_in(rep, w) == 1 + depth_in(lrep, w));
                        assert(depth_in(s, w) == 1 + depth_in(*left, w));
                        assert(sub_at(rep, w) == sub_at(lrep, w));
                        assert(sub_at(s, w) == sub_at(*left, w));
                    } else {
                        assert(in_shape(*right, w));
                        assert(!in_shape(*left, w));
                        assert(!in_shape(lrep, w));
                        assert(depth_in(rep, w) == 1 + depth_in(*right, w));
                        assert(depth_in(s, w) == 1 + depth_in(*right, w));
                        assert(sub_at(rep, w) == sub_at(*right, w));
                        assert(sub_at(s, w) == sub_at(*right, w));
                        lemma_sub_pure(*right, w);
                        assert(!in_shape(*right, y));
                        assert(!in_shape(sub_at(*right, w), y));
                    }
                }
            } else {
                assert(in_shape(*right, y));
                assert(sub == sub_at(*right, y));
                lemma_sub_pure(*right, y);
                lemma_replace_shape(*right, y, t);
                let rrep = replace_at(*right, y, t);
                assert(rep == Shape::Node { left, idx, right: Box::new(rrep) });
                assert(y != idx);
                assert forall|w: usize|
                    in_shape(rep, w) <==> in_shape(s, w) by {
                    assert(in_shape(rrep, w) <==> in_shape(*right, w));
                }
                assert(!in_shape(rrep, idx));
                assert forall|j: usize| #[trigger] in_shape(*left, j) implies !in_shape(
                    rrep,
                    j,
                ) by {
                    assert(in_shape(rrep, j) <==> in_shape(*right, j));
                }
                assert(no_dup(rep));
                assert(inorder(rep) == inorder(*left) + seq![idx] + inorder(rrep));
                assert(inorder(rep) == inorder(s));
                assert forall|w: usize| #[trigger] in_shape(t, w) implies sub_at(rep, w) == sub_at(
                    t,
                    w,
                ) && depth_in(rep, w) == depth_in(s, y) + depth_in(t, w) by {
                    assert(in_shape(sub, w));
                    assert(in_shape(*right, w));
                    assert(w != idx);
                    assert(!in_shape(*left, w));
                    assert(in_shape(rrep, w));
                    assert(!in_shape(*left, y));
                    assert(sub_at(rep, w) == sub_at(rrep, w));
                    assert(depth_in(rep, w) == 1 + depth_in(rrep, w));
                    assert(depth_in(s, y) == 1 + depth_in(*right, y));
                }
                assert forall|w: usize|
                    in_shape(s, w) && !in_shape(sub, w) implies depth_in(rep, w) == depth_in(s, w)
                    && sub_at(rep, w) == (if in_shape(sub_at(s, w), y) {
                    replace_at(sub_at(s, w), y, t)
                } else {
                    sub_at(s, w)
                }) by {
                    if w == idx {
                        assert(sub_at(rep, w) == rep);
                        assert(sub_at(s, w) == s);
                        assert(depth_in(rep, w) == 0);
                        assert(depth_in(s, w) == 0);
                    } else if in_shape(*left, w) {
                        assert(!in_shape(rrep, w) && !in_shape(*right, w));
                        assert(depth_in(rep, w) == 1 + depth_in(*left, w));
                        assert(depth_in(s, w) == 1 + depth_in(*left, w));
                        assert(sub_at(rep, w) == sub_at(*left, w));
                        assert(sub_at(s, w) == sub_at(*left, w));
                        lemma_sub_pure(*left, w);
                        assert(!in_shape(*left, y));
                        assert(!in_shape(sub_at(*left, w), y));
                    } else {
                        assert(in_shape(*right, w));
                        assert(!in_shape(sub_at(*right, y), w));
                        assert(in_shape(rrep, w));
                        assert(depth_in(rep, w) == 1 + depth_in(rrep, w));
                        assert(depth_in(s, w) == 1 + depth_in(*right, w));
                        assert(sub_at(rep, w) == sub_at(rrep, w));
                        assert(sub_at(s, w) == sub_at(*right, w));
                    }
                }
            }
        },
    }
}

/// Replacing the subtree rooted at `y` keeps the whole shape well-formed
/// against the new arena, provided the new subtree is well-formed below `y`'s
/// old parent link and the arena changed only inside the replaced subtree —
/// except that the old parent's matching child slot now names the new
/// subtree's root.
pub proof fn lemma_replace_wf(
    s: Shape,
    y: usize,
    t: Shape,
    n1: Seq<Node>,
    n2: Seq<Node>,
    par: Option<usize>,
)
    requires
        shape_wf(s, n1, par),
        no_dup(s),
        in_shape(s, y),
        n1.len() == n2.len(),
        shape_wf(t, n2, n1[y as int].parent),
        forall|w: usize|
            #![trigger in_shape(t, w)]
            #![trigger in_shape(sub_at(s, y), w)]
            in_shape(t, w) <==> in_shape(sub_at(s, y), w),
        forall|j: usize|
            #![trigger n1[j as int]]
            #![trigger n2[j as int]]
            in_shape(s, j) && !in_shape(sub_at(s, y), j) ==> n2[j as int].parent == n1[j
                as int].parent && (n1[j as int].left == Some(y) ==> n2[j as int].left == root_label(
                t,
            ) && n2[j as int].right == n1[j as int].right) && (n1[j as int].right == Some(y) ==> n2[
                j as int].right == root_label(t) && n2[j as int].left == n1[j as int].left) && (n1[
                j as int].left != Some(y) && n1[j as int].right != Some(y) ==> n2[j as int] == n1[j
                as int]),
    ensures
        shape_wf(replace_at(s, y, t), n2, par),
    decreases s,
{
    let rep = replace_at(s, y, t);
    let sub = sub_at(s, y);
    lemma_sub_pure(s, y);
    match s {
        Shape::Nil => {},
        Shape::Node { left, idx, right } => {
            if y == idx {
                assert(n1[y as int].parent == par);
            } else if in_shape(*left, y) {
                assert(sub == sub_at(*left, y));
                lemma_sub_pure(*left, y);
                assert(in_shape(s, idx) && !in_shape(sub, idx));
                assert forall|j: usize| #[trigger]
                    in_shape(*left, j) && !in_shape(sub_at(*left, y), j) implies in_shape(s, j)
                    && !in_shape(sub_at(s, y), j) by {}
                lemma_replace_wf(*left, y, t, n1, n2, Some(idx));
                let lrep = replace_at(*left, y, t);
                assert(rep == Shape::Node { left: Box::new(lrep), idx, right });
                // the right subtree's records are untouched
                assert forall|j: usize| #[trigger] in_shape(*right, j) implies n1[j as int] == n2[j
                    as int] by {
                    assert(!in_shape(*left, j) && j != idx);
                    assert(!in_shape(sub, j));
                    lemma_children_ne(*right, n1, Some(idx), j, y);
                }
                lemma_frame(*right, n1, n2, Some(idx));
                // the local record at idx
                if root_label(*left) == Some(y) {
                    assert(n1[idx as int].left == Some(y));
                    assert(!in_shape(*right, y));
                    assert(n1[idx as int].right != Some(y));
                    assert(n2[idx as int].left == root_label(t));
                    assert(root_label(lrep) == root_label(t));
                } else {
                    assert(n1[idx as int].left != Some(y));
                    assert(!in_shape(*right, y));
                    assert(n1[idx as int].right != Some(y));
                    assert(n2[idx as int] == n1[idx as int]);
                    match *left {
                        Shape::Nil => {
                            assert(false);
                        },
                        Shape::Node { left: ll, idx: li, right: lr } => {
                            assert(li != y);
                            assert(root_label(lrep) == Some(li));
                        },
                    }
                }
                assert(shape_wf(rep, n2, par));
            } else {
                assert(in_shape(*right, y));
                assert(sub == sub_at(*right, y));
                lemma_sub_pure(*right, y);
                assert(in_shape(s, idx) && !in_shape(sub, idx));
                assert forall|j: usize| #[trigger]
                    in_shape(*right, j) && !in_shape(sub_at(*right, y), j) implies in_shape(s, j)
                    && !in_shape(sub_at(s, y), j) by {}
                lemma_replace_wf(*right, y, t, n1, n2, Some(idx));
                let rrep = replace_at(*right, y, t);
                assert(rep == Shape::Node { left, idx, right: Box::new(rrep) });
                assert forall|j: usize| #[trigger] in_shape(*left, j) implies n1[j as int] == n2[j
                    as int] by {
                    assert(!in_shape(*right, j) && j != idx);
                    assert(!in_shape(sub, j));
                    lemma_children_ne(*left, n1, Some(idx), j, y);
                }
                lemma_frame(*left, n1, n2, Some(idx));
                if root_label(*right) == Some(y) {
                    assert(n1[idx as int].right == Some(y));
                    assert(!in_shape(*left, y));
                    assert(n1[idx as int].left != Some(y));
                    assert(n2[idx as int].right == root_label(t));
                    assert(root_label(rrep) == root_label(t));
                } else {
                    assert(n1[idx as int].right != Some(y));
                    assert(!in_shape(*left, y));
                    assert(n1[idx as int].left != Some(y));
                    assert(n2[idx as int] == n1[idx as int]);
                    match *right {
                        Shape::Nil => {
                            assert(false);
                        },
                        Shape::Node { left: rl, idx: ri, right: rr } => {
                            assert(ri != y);
                            assert(root_label(rrep) == Some(ri));
                        },
                    }
                }
                assert(shape_wf(rep, n2, par));
            }
        },
    }
}

/// A node of a shape cannot hold a child link to an index outside the shape.
pub proof fn lemma_children_ne(s: Shape, nodes: Seq<Node>, par: Option<usize>, j: usize, y: usize)
    requires
        shape_wf(s, nodes, par),
        in_shape(s, j),
        !in_shape(s, y),
    ensures
        nodes[j as int].left != Some(y),
        nodes[j as int].right != Some(y),
    decreases s,
{
    match s {
        Shape::Nil => {},
        Shape::Node { left, idx, right } => {
            if j == idx {
                if nodes[j as int].left == Some(y) {
                    assert(root_label(*left) == Some(y));
                    assert(in_shape(*left, y));
                }
                if nodes[j as int].right == Some(y) {
                    assert(root_label(*right) == Some(y));
                    assert(in_shape(*right, y));
                }
            } else if in_shape(*left, j) {
                lemma_children_ne(*left, nodes, Some(idx), j, y);
            } else {
                lemma_children_ne(*right, nodes, Some(idx), j, y);
            }
        },
    }
}

/// A right rotation about the root of `t` keeps the in-order traversal and
/// the label set, keeps labels unique, and lifts the old left child to the
/// root.
pub proof fn lemma_rotated_right(t: Shape)
    requires
        no_dup(t),
        root_label(t) is Some,
        root_label(left_of(t)) is Some,
    ensures
        no_dup(rotated_right(t)),
        inorder(rotated_right(t)) == inorder(t),
        root_label(rotated_right(t)) == root_label(left_of(t)),
        left_of(rotated_right(t)) == left_of(left_of(t)),
        right_of(rotated_right(t)) == (Shape::Node {
            left: Box::new(right_of(left_of(t))),
            idx: root_label(t).unwrap(),
            right: Box::new(right_of(t)),
        }),
        depth_in(rotated_right(t), root_label(left_of(t)).unwrap()) == 0,
        sub_at(rotated_right(t), root_label(left_of(t)).unwrap()) == rotated_right(t),
        forall|w: usize|
            #![trigger in_shape(rotated_right(t), w)]
            #![trigger in_shape(t, w)]
            in_shape(rotated_right(t), w) <==> in_shape(t, w),
{
    match t {
        Shape::Nil => {},
        Shape::Node { left, idx: y, right: c } => {
            match *left {
                Shape::Nil => {},
                Shape::Node { left: a, idx: x, right: b } => {
                    let rr = rotated_right(t);
                    let inner = Shape::Node { left: b, idx: y, right: c };
                    assert(rr == Shape::Node { left: a, idx: x, right: Box::new(inner) });
                    let ax = inorder(*a) + seq![x];
                    vstd::seq_lib::lemma_concat_associative(ax, inorder(*b), seq![y]);
                    vstd::seq_lib::lemma_concat_associative(ax, inorder(*b) + seq![y], inorder(*c));
                    assert(inorder(*left) == (ax + inorder(*b)));
                    assert(inorder(t) == (ax + inorder(*b)) + seq![y] + inorder(*c));
                    assert(inorder(inner) == inorder(*b) + seq![y] + inorder(*c));
                    assert(inorder(rr) == ax + inorder(inner));
                    assert(inorder(rr) == inorder(t));
                    assert forall|w: usize| in_shape(rr, w) <==> in_shape(t, w) by {
                        assert(in_shape(t, w) == (w == y || in_shape(*left, w) || in_shape(*c, w)));
                        assert(in_shape(*left, w) == (w == x || in_shape(*a, w) || in_shape(
                            *b,
                            w,
                        )));
                        assert(in_shape(rr, w) == (w == x || in_shape(*a, w) || in_shape(
                            inner,
                            w,
                        )));
                        assert(in_shape(inner, w) == (w == y || in_shape(*b, w) || in_shape(
                            *c,
                            w,
                        )));
                    }
                    assert(no_dup(*left));
                    assert(no_dup(*b) && no_dup(*c));
                    assert(in_shape(*left, x));
                    assert(x != y);
                    assert forall|j: usize| #[trigger] in_shape(*b, j) implies !in_shape(
                        *c,
                        j,
                    ) by {
                        assert(in_shape(*left, j));
                    }
                    assert(!in_shape(*b, y));
                    assert(!in_shape(*c, y));
                    assert(no_dup(inner));
                    assert(!in_shape(*b, x));
                    assert(!in_shape(*c, x));
                    assert(!in_shape(inner, x));
                    assert forall|j: usize| #[trigger] in_shape(*a, j) implies !in_shape(
                        inner,
                        j,
                    ) by {
                        assert(in_shape(*left, j));
                        assert(j != y);
                        assert(!in_shape(*b, j));
                        assert(!in_shape(*c, j));
                    }
                    assert(no_dup(rr));
                },
            }
        },
    }
}

/// A left rotation about the root of `t` keeps the in-order traversal and
/// the label set, keeps labels unique, and lifts the old right child to the
/// root.
pub proof fn lemma_rotated_left(t: Shape)
    requires
        no_dup(t),
        root_label(t) is Some,
        root_label(right_of(t)) is Some,
    ensures
        no_dup(rotated_left(t)),
        inorder(rotated_left(t)) == inorder(t),
        root_label(rotated_left(t)) == root_label(right_of(t)),
        right_of(rotated_left(t)) == right_of(right_of(t)),
        left_of(rotated_left(t)) == (Shape::Node {
            left: Box::new(left_of(t)),
            idx: root_label(t).unwrap(),
            right: Box::new(left_of(right_of(t))),
        }),
        depth_in(rotated_left(t), root_label(right_of(t)).unwrap()) == 0,
        sub_at(rotated_left(t), root_label(right_of(t)).unwrap()) == rotated_left(t),
        forall|w: usize|
            #![trigger in_shape(rotated_left(t), w)]
            #![trigger in_shape(t, w)]
            in_shape(rotated_left(t), w) <==> in_shape(t, w),
{
    match t {
        Shape::Nil => {},
        Shape::Node { left: a, idx: x, right } => {
            match *right {
                Shape::Nil => {},
                Shape::Node { left: b, idx: y, right: c } => {
                    let rl = rotated_left(t);
                    let inner = Shape::Node { left: a, idx: x, right: b };
                    assert(rl == Shape::Node { left: Box::new(inner), idx: y, right: c });
                    let ax = inorder(*a) + seq![x];
                    vstd::seq_lib::lemma_concat_associative(ax, inorder(*b), seq![y]);
                    vstd::seq_lib::lemma_concat_associative(ax, inorder(*b) + seq![y], inorder(*c));
                    assert(inorder(*right) == inorder(*b) + seq![y] + inorder(*c));
                    assert(inorder(t) == ax + inorder(*right));
                    assert(inorder(inner) == ax + inorder(*b));
                    assert(inorder(rl) == inorder(inner) + seq![y] + inorder(*c));
                    assert(inorder(rl) == inorder(t));
                    assert forall|w: usize| in_shape(rl, w) <==> in_shape(t, w) by {
                        assert(in_shape(t, w) == (w == x || in_shape(*a, w) || in_shape(
                            *right,
                            w,
                        )));
                        assert(in_shape(*right, w) == (w == y || in_shape(*b, w) || in_shape(
                            *c,
                            w,
                        )));
                        assert(in_shape(rl, w) == (w == y || in_shape(inner, w) || in_shape(
                            *c,
                            w,
                        )));
                        assert(in_shape(inner, w) == (w == x || in_shape(*a, w) || in_shape(
                            *b,
                            w,
                        )));
                    }
                    assert(no_dup(*right));
                    assert(no_dup(*a) && no_dup(*b));
                    assert(in_shape(*right, y));
                    assert(x != y);
                    assert forall|j: usize| #[trigger] in_shape(*a, j) implies !in_shape(
                        *b,
                        j,
                    ) by {
                        assert(in_shape(*right, j) ==> !in_shape(*a, j));
                    }
                    assert(!in_shape(*a, x));
                    assert(!in_shape(*b, x));
                    assert(no_dup(inner));
                    assert(!in_shape(*a, y));
                    assert(!in_shape(*b, y));
                    assert(!in_shape(inner, y));
                    assert forall|j: usize| #[trigger] in_shape(inner, j) implies !in_shape(
                        *c,
                        j,
                    ) by {
                        if j == x {
                            assert(!in_shape(*c, x));
                        } else if in_shape(*a, j) {
                            assert(in_shape(*right, j) ==> !in_shape(*a, j));
                        } else {
                            assert(in_shape(*b, j));
                            assert(in_shape(*right, j));
                        }
                    }
                    assert(no_dup(rl));
                },
            }
        },
    }
}

/// One level of unfolding of a non-empty, well-formed, duplicate-free shape:
/// the root's arena record, the child shapes' well-formedness, and the label
/// bookkeeping between the root, the children and the whole.
pub proof fn lemma_decompose(s: Shape, nodes: Seq<Node>, par: Option<usize>)
    requires
        shape_wf(s, nodes, par),
        no_dup(s),
        root_label(s) is Some,
    ensures
        ({
            let r = root_label(s).unwrap();
            &&& (r as int) < nodes.len()
            &&& nodes[r as int].parent == par
            &&& nodes[r as int].left == root_label(left_of(s))
            &&& nodes[r as int].right == root_label(right_of(s))
            &&& shape_wf(left_of(s), nodes, Some(r))
            &&& shape_wf(right_of(s), nodes, Some(r))
            &&& no_dup(left_of(s))
            &&& no_dup(right_of(s))
            &&& in_shape(s, r)
            &&& !in_shape(left_of(s), r)
            &&& !in_shape(right_of(s), r)
            &&& (forall|j: usize| #[trigger]
                in_shape(left_of(s), j) ==> !in_shape(right_of(s), j))
            &&& (forall|w: usize| #[trigger]
                in_shape(s, w) <==> (w == r || in_shape(left_of(s), w) || in_shape(
                    right_of(s),
                    w,
                )))
            &&& (root_label(left_of(s)) matches Some(c) ==> in_shape(left_of(s), c))
            &&& (root_label(right_of(s)) matches Some(c) ==> in_shape(right_of(s), c))
            &&& depth_in(s, r) == 0
        }),
{
    match s {
        Shape::Nil => {},
        Shape::Node { left, idx, right } => {
            assert(left_of(s) == *left);
            assert(right_of(s) == *right);
            match *left {
                Shape::Nil => {},
                Shape::Node { left: ll, idx: li, right: lr } => {
                    assert(in_shape(*left, li));
                },
            }
            match *right {
                Shape::Nil => {},
                Shape::Node { left: rl, idx: ri, right: rr } => {
                    assert(in_shape(*right, ri));
                },
            }
        },
    }
}

/// A right rotation about the root of `sub`, carried out on the arena: if the
/// new arena differs from the old exactly in the three rewritten records (the
/// pivot, its left child, and that child's former right subtree root), the
/// rotated shape is well-formed against the new arena, below the same parent
/// link.
pub proof fn lemma_rotate_right_arena(sub: Shape, n1: Seq<Node>, n2: Seq<Node>, py: Option<usize>)
    requires
        shape_wf(sub, n1, py),
        no_dup(sub),
        root_label(sub) is Some,
        root_label(left_of(sub)) is Some,
        n1.len() == n2.len(),
        ({
            let y = root_label(sub).unwrap();
            let x = root_label(left_of(sub)).unwrap();
            &&& n2[x as int] == (Node { parent: py, left: n1[x as int].left, right: Some(y) })
            &&& n2[y as int] == (Node {
                parent: Some(x),
                left: n1[x as int].right,
                right: n1[y as int].right,
            })
            &&& (n1[x as int].right matches Some(bb) ==> n2[bb as int] == (Node {
                parent: Some(y),
                left: n1[bb as int].left,
                right: n1[bb as int].right,
            }))
            &&& (forall|j: usize| #[trigger]
                in_shape(sub, j) && j != x && j != y && Some(j) != n1[x as int].right ==> n2[j
                    as int] == n1[j as int])
        }),
    ensures
        shape_wf(rotated_right(sub), n2, py),
{
    let y = root_label(sub).unwrap();
    let x = root_label(left_of(sub)).unwrap();
    lemma_decompose(sub, n1, py);
    let l = left_of(sub);
    let c = right_of(sub);
    lemma_decompose(l, n1, Some(y));
    let a = left_of(l);
    let b = right_of(l);
    match sub {
        Shape::Nil => {},
        Shape::Node { left: lbox, idx: y0, right: cbox } => {
            match *lbox {
                Shape::Nil => {},
                Shape::Node { left: abox, idx: x0, right: bbox } => {
                    let inner = Shape::Node { left: bbox, idx: y0, right: cbox };
                    let rr = rotated_right(sub);
                    assert(rr == Shape::Node { left: abox, idx: x0, right: Box::new(inner) });
                    assert(*abox == a && *bbox == b && *cbox == c);
                    // the untouched subtrees keep their records
                    assert forall|j: usize| #[trigger] in_shape(a, j) implies n1[j as int] == n2[j
                        as int] by {
                        assert(in_shape(l, j));
                        assert(in_shape(sub, j));
                        assert(j != x && j != y);
                        if Some(j) == n1[x as int].right {
                            assert(root_label(b) == Some(j));
                            assert(in_shape(b, j));
                        }
                    }
                    lemma_frame(a, n1, n2, Some(x));
                    assert forall|j: usize| #[trigger]
                        in_shape(b, j) && Some(j) != root_label(b) implies n1[j as int] == n2[j
                        as int] by {
                        assert(in_shape(l, j));
                        assert(in_shape(sub, j));
                        assert(j != x && j != y);
                    }
                    lemma_reparent(b, n1, n2, Some(x), Some(y));
                    assert forall|j: usize| #[trigger] in_shape(c, j) implies n1[j as int] == n2[j
                        as int] by {
                        assert(in_shape(sub, j));
                        assert(j != x && j != y);
                        if Some(j) == n1[x as int].right {
                            assert(root_label(b) == Some(j));
                            assert(in_shape(b, j));
                            assert(in_shape(l, j));
                        }
                    }
                    lemma_frame(c, n1, n2, Some(y));
                    assert(shape_wf(inner, n2, Some(x)));
                    assert(shape_wf(rr, n2, py));
                },
            }
        },
    }
}

/// The mirror of `lemma_rotate_right_arena`, for a left rotation.
pub proof fn lemma_rotate_left_arena(sub: Shape, n1: Seq<Node>, n2: Seq<Node>, px: Option<usize>)
    requires
        shape_wf(sub, n1, px),
        no_dup(sub),
        root_label(sub) is Some,
        root_label(right_of(sub)) is Some,
        n1.len() == n2.len(),
        ({
            let x = root_label(sub).unwrap();
            let y = root_label(right_of(sub)).unwrap();
            &&& n2[y as int] == (Node { parent: px, left: Some(x), right: n1[y as int].right })
            &&& n2[x as int] == (Node {
                parent: Some(y),
                left: n1[x as int].left,
                right: n1[y as int].left,
            })
            &&& (n1[y as int].left matches Some(bb) ==> n2[bb as int] == (Node {
                parent: Some(x),
                left: n1[bb as int].left,
                right: n1[bb as int].right,
            }))
            &&& (forall|j: usize| #[trigger]
                in_shape(sub, j) && j != x && j != y && Some(j) != n1[y as int].left ==> n2[j
                    as int] == n1[j as int])
        }),
    ensures
        shape_wf(rotated_left(sub), n2, px),
{
    let x = root_label(sub).unwrap();
    let y = root_label(right_of(sub)).unwrap();
    lemma_decompose(sub, n1, px);
    let r = right_of(sub);
    let a = left_of(sub);
    lemma_decompose(r, n1, Some(x));
    let b = left_of(r);
    let c = right_of(r);
    match sub {
        Shape::Nil => {},
        Shape::Node { left: abox, idx: x0, right: rbox } => {
            match *rbox {
                Shape::Nil => {},
                Shape::Node { left: bbox, idx: y0, right: cbox } => {
                    let inner = Shape::Node { left: abox, idx: x0, right: bbox };
                    let rl = rotated_left(sub);
                    assert(rl == Shape::Node { left: Box::new(inner), idx: y0, right: cbox });
                    assert(*abox == a && *bbox == b && *cbox == c);
                    assert forall|j: usize| #[trigger] in_shape(a, j) implies n1[j as int] == n2[j
                        as int] by {
                        assert(in_shape(sub, j));
                        assert(j != x && j != y);
                        if Some(j) == n1[y as int].left {
                            assert(root_label(b) == Some(j));
                            assert(in_shape(b, j));
                            assert(in_shape(r, j));
                        }
                    }
                    lemma_frame(a, n1, n2, Some(x));
                    assert forall|j: usize| #[trigger]
                        in_shape(b, j) && Some(j) != root_label(b) implies n1[j as int] == n2[j
                        as int] by {
                        assert(in_shape(r, j));
                        assert(in_shape(sub, j));
                        assert(j != x && j != y);
                    }
                    lemma_reparent(b, n1, n2, Some(y), Some(x));
                    assert forall|j: usize| #[trigger] in_shape(c, j) implies n1[j as int] == n2[j
                        as int] by {
                        assert(in_shape(r, j));
                        assert(in_shape(sub, j));
                        assert(j != x && j != y);
                        if Some(j) == n1[y as int].left {
                            assert(root_label(b) == Some(j));
                            assert(in_shape(b, j));
                        }
                    }
                    lemma_frame(c, n1, n2, Some(y));
                    assert(shape_wf(inner, n2, Some(y)));
                    assert(shape_wf(rl, n2, px));
                },
            }
        },
    }
}

/// The left-leaning chain of `k` nodes rooted at `k - 1`: node `i`'s left
/// child is `i - 1` and no node has a right child. This is the shape the
/// tree is constructed with.
pub open spec fn spine(k: nat) -> Shape
    decreases k,
{
    if k == 0 {
        Shape::Nil
    } else {
        Shape::Node {
            left: Box::new(spine((k - 1) as nat)),
            idx: (k - 1) as usize,
            right: Box::new(Shape::Nil),
        }
    }
}

/// The arena record of node `j` in a freshly built chain of `n` nodes.
pub open spec fn spine_record(j: int, n: int) -> Node {
    Node {
        parent: if j == n - 1 {
            None
        } else {
            Some((j + 1) as usize)
        },
        left: if j == 0 {
            None
        } else {
            Some((j - 1) as usize)
        },
        right: None,
    }
}

/// A chain of `k <= n` nodes over an arena of `n` chain records is
/// well-formed, duplicate-free, rooted at `k - 1`, holds exactly the indices
/// below `k`, and its in-order traversal is `0, 1, ..., k-1`.
pub proof fn lemma_spine(k: nat, n: nat, nodes: Seq<Node>)
    requires
        1 <= k <= n,
        n <= usize::MAX,
        nodes.len() == n,
        forall|j: int| 0 <= j < n ==> nodes[j] == spine_record(j, n as int),
    ensures
        shape_wf(
            spine(k),
            nodes,
            if k == n {
                None
            } else {
                Some(k as usize)
            },
        ),
        no_dup(spine(k)),
        root_label(spine(k)) == Some((k - 1) as usize),
        inorder(spine(k)) == Seq::new(k, |i: int| i as usize),
        forall|w: usize| #[trigger] in_shape(spine(k), w) <==> (w as int) < k,
    decreases k,
{
    assert(nodes[k - 1] == spine_record(k as int - 1, n as int));
    let tail = spine((k - 1) as nat);
    let whole = spine(k);
    let top: usize = (k - 1) as usize;
    assert(whole == Shape::Node { left: Box::new(tail), idx: top, right: Box::new(Shape::Nil) });
    assert(inorder(whole) == inorder(tail) + seq![top] + inorder(Shape::Nil));
    assert(inorder(Shape::Nil) == Seq::<usize>::empty());
    if k == 1 {
        assert(tail == Shape::Nil);
        assert(shape_wf(tail, nodes, Some(top)));
        assert(inorder(whole) =~= Seq::new(1, |i: int| i as usize));
    } else {
        lemma_spine((k - 1) as nat, n, nodes);
        assert(root_label(tail) == Some((k - 2) as usize));
        assert(shape_wf(tail, nodes, Some(top)));
        assert(inorder(whole) =~= Seq::new(k, |i: int| i as usize));
        assert(!in_shape(tail, top));
    }
    assert(nodes[top as int].parent == (if k == n {
        None::<usize>
    } else {
        Some(k as usize)
    }));
    assert(nodes[top as int].left == root_label(tail));
    assert(nodes[top as int].right == root_label(Shape::Nil));
    assert(shape_wf(Shape::Nil, nodes, Some(top)));
    assert(no_dup(Shape::Nil));
    if k == 1 {
        assert(no_dup(tail));
    }
    assert forall|j: usize| #[trigger] in_shape(tail, j) implies !in_shape(Shape::Nil, j) by {}
    assert forall|w: usize| #[trigger] in_shape(whole, w) <==> (w as int) < k by {
        assert(in_shape(whole, w) == (w == top || in_shape(tail, w) || in_shape(Shape::Nil, w)));
        assert(!in_shape(Shape::Nil, w));
        if k == 1 {
            assert(!in_shape(tail, w));
        }
    }
    assert(shape_wf(whole, nodes, if k == n {
        None
    } else {
        Some(k as usize)
    }));
    assert(no_dup(whole));
}

/// Every index of a well-formed shape lies inside the arena.
pub proof fn lemma_in_bound(s: Shape, nodes: Seq<Node>, par: Option<usize>, j: usize)
    requires
        shape_wf(s, nodes, par),
        in_shape(s, j),
    ensures
        (j as int) < nodes.len(),
    decreases s,
{
    match s {
        Shape::Nil => {},
        Shape::Node { left, idx, right } => {
            if j == idx {
            } else if in_shape(*left, j) {
                lemma_in_bound(*left, nodes, Some(idx), j);
            } else {
                lemma_in_bound(*right, nodes, Some(idx), j);
            }
        },
    }
}

/// The depth of any node is strictly below the number of nodes in the shape.
pub proof fn lemma_depth_bound(s: Shape, x: usize)
    requires
        no_dup(s),
        in_shape(s, x),
    ensures
        depth_in(s, x) < inorder(s).len(),
    decreases s,
{
    match s {
        Shape::Nil => {},
        Shape::Node { left, idx, right } => {
            if x == idx {
            } else if in_shape(*left, x) {
                lemma_depth_bound(*left, x);
            } else {
                lemma_depth_bound(*right, x);
            }
        },
    }
}

} // verus!
