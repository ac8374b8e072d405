use splay_tree::tree::Fault;
use splay_tree::tree::SplayTree;

type Links = Vec<(Option<usize>, Option<usize>, Option<usize>)>;

fn inorder_walk(nodes: &Links, at: usize, out: &mut Vec<usize>) {
    if let Some(l) = nodes[at].1 {
        inorder_walk(nodes, l, out);
    }
    out.push(at);
    if let Some(r) = nodes[at].2 {
        inorder_walk(nodes, r, out);
    }
}

fn inorder_of(tree: &SplayTree) -> Vec<usize> {
    let (root, nodes) = tree.inspect();
    let mut out = Vec::new();
    inorder_walk(&nodes, root, &mut out);
    out
}

fn depth_of(nodes: &Links, x: usize) -> usize {
    let mut d: usize = 0;
    let mut cur = x;
    while let Some(p) = nodes[cur].0 {
        d += 1;
        cur = p;
    }
    d
}

fn subtree_of(nodes: &Links, at: usize) -> Vec<usize> {
    let mut out = Vec::new();
    inorder_walk(nodes, at, &mut out);
    out
}

fn check_links(tree: &SplayTree) {
    let (root, nodes) = tree.inspect();
    let mut rootless: usize = 0;
    for p in 0..nodes.len() {
        if let Some(c) = nodes[p].1 {
            assert_eq!(nodes[c].0, Some(p));
        }
        if let Some(c) = nodes[p].2 {
            assert_eq!(nodes[c].0, Some(p));
        }
        if nodes[p].0.is_none() {
            rootless += 1;
            assert_eq!(p, root);
        }
    }
    assert_eq!(rootless, 1);
}

#[test]
fn construct_zero_is_bounds_fault() {
    assert!(matches!(SplayTree::new(0), Err(Fault::Bounds)));
}

#[test]
fn construct_ten_is_left_spine() {
    let tree = SplayTree::new(10).unwrap();
    let (root, nodes) = tree.inspect();
    assert_eq!(root, 9);
    assert_eq!(nodes.len(), 10);
    assert_eq!(nodes[0], (Some(1), None, None));
    for i in 1..9 {
        assert_eq!(nodes[i], (Some(i + 1), Some(i - 1), None));
    }
    assert_eq!(nodes[9], (None, Some(8), None));
}

#[test]
fn splay_five_moves_it_to_root() {
    let mut tree = SplayTree::new(10).unwrap();
    let steps = tree.splay(Some(5)).unwrap();
    assert_eq!(steps, 2);
    let (root, nodes) = tree.inspect();
    assert_eq!(root, 5);
    assert_eq!(nodes[5].0, None);
    let left = subtree_of(&nodes, nodes[5].1.unwrap());
    let mut right = subtree_of(&nodes, nodes[5].2.unwrap());
    assert_eq!(left, vec![0, 1, 2, 3, 4]);
    right.sort();
    assert_eq!(right, vec![6, 7, 8, 9]);
    assert_eq!(inorder_of(&tree), (0..10).collect::<Vec<usize>>());
    // the exact layout the two zig-zig steps produce
    assert_eq!(nodes[5], (None, Some(4), Some(8)));
    assert_eq!(nodes[8], (Some(5), Some(6), Some(9)));
    assert_eq!(nodes[6], (Some(8), None, Some(7)));
    assert_eq!(nodes[7], (Some(6), None, None));
    assert_eq!(nodes[9], (Some(8), None, None));
    assert_eq!(nodes[4], (Some(5), Some(3), None));
    assert_eq!(nodes[0], (Some(1), None, None));
}

#[test]
fn splay_same_node_twice_is_identity() {
    let mut tree = SplayTree::new(10).unwrap();
    tree.splay(Some(5)).unwrap();
    let before = tree.inspect();
    let steps = tree.splay(Some(5)).unwrap();
    assert_eq!(steps, 0);
    assert_eq!(tree.inspect(), before);
}

#[test]
fn splay_current_root_is_noop() {
    let mut tree = SplayTree::new(4).unwrap();
    let before = tree.inspect();
    assert_eq!(tree.splay(Some(3)), Ok(0));
    assert_eq!(tree.inspect(), before);
}

#[test]
fn splay_out_of_range_is_bounds_fault() {
    let mut tree = SplayTree::new(3).unwrap();
    let before = tree.inspect();
    assert_eq!(tree.splay(Some(3)), Err(Fault::Bounds));
    assert_eq!(tree.splay(None), Err(Fault::Bounds));
    assert_eq!(tree.inspect(), before);
}

#[test]
fn step_count_is_half_depth_rounded_up() {
    // a run of splays over chains and the shapes they produce
    for n in [1usize, 2, 3, 7, 10, 16] {
        let mut tree = SplayTree::new(n).unwrap();
        for x in [0usize, 2, 5, 5, 1, 9, 4] {
            if x >= n {
                continue;
            }
            let (_, nodes) = tree.inspect();
            let d = depth_of(&nodes, x);
            let steps = tree.splay(Some(x)).unwrap();
            assert_eq!(steps, (d + 1) / 2);
            let (root, nodes_after) = tree.inspect();
            assert_eq!(root, x);
            assert_eq!(nodes_after[x].0, None);
        }
    }
}

#[test]
fn inorder_is_preserved_by_every_splay() {
    let expected: Vec<usize> = (0..12).collect();
    let mut tree = SplayTree::new(12).unwrap();
    assert_eq!(inorder_of(&tree), expected);
    for x in [0usize, 11, 6, 3, 6, 10, 0, 5, 5, 8] {
        tree.splay(Some(x)).unwrap();
        assert_eq!(inorder_of(&tree), expected);
    }
}

#[test]
fn links_stay_symmetric_with_a_single_root() {
    let mut tree = SplayTree::new(9).unwrap();
    check_links(&tree);
    for x in [4usize, 0, 8, 2, 7, 4] {
        tree.splay(Some(x)).unwrap();
        check_links(&tree);
    }
}

#[test]
fn len_reports_fixed_node_count() {
    let mut tree = SplayTree::new(6).unwrap();
    assert_eq!(tree.len(), 6);
    tree.splay(Some(2)).unwrap();
    assert_eq!(tree.len(), 6);
}

#[test]
fn single_node_tree_splays_trivially() {
    let mut tree = SplayTree::new(1).unwrap();
    let (root, nodes) = tree.inspect();
    assert_eq!(root, 0);
    assert_eq!(nodes[0], (None, None, None));
    assert_eq!(tree.splay(Some(0)), Ok(0));
}

#[test]
fn zig_zag_configurations_are_splayed() {
    // splaying 5 then 3 in a 7-node chain drives x through zig-zag cases
    let mut tree = SplayTree::new(7).unwrap();
    tree.splay(Some(3)).unwrap();
    tree.splay(Some(5)).unwrap();
    tree.splay(Some(4)).unwrap();
    let (root, nodes) = tree.inspect();
    assert_eq!(root, 4);
    assert_eq!(nodes[4].0, None);
    assert_eq!(inorder_of(&tree), (0..7).collect::<Vec<usize>>());
    check_links(&tree);
}
