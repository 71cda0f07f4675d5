use orca::layout::{compute_bounds, compute_positions, layout_tree, Bound, Fit, Pos};
use orca::tree::{Branch, Tree, TreeError};

fn branches(counts: &[u32]) -> Vec<Branch> {
    counts.iter().map(|&n| Branch(n)).collect()
}

#[test]
fn empty_tree_is_rejected() {
    let none: Vec<Branch> = vec![];
    assert_eq!(Tree::new(&none).err(), Some(TreeError::Empty));
}

#[test]
fn too_few_nodes_is_malformed() {
    let b = branches(&[2, 0]);
    assert_eq!(Tree::new(&b).err(), Some(TreeError::Malformed));
}

#[test]
fn too_many_nodes_is_malformed() {
    let b = branches(&[0, 0]);
    assert_eq!(Tree::new(&b).err(), Some(TreeError::Malformed));
    let b = branches(&[1, 0, 0]);
    assert_eq!(Tree::new(&b).err(), Some(TreeError::Malformed));
}

#[test]
fn huge_count_is_malformed() {
    let b = branches(&[u32::MAX, 0, 0]);
    assert_eq!(Tree::new(&b).err(), Some(TreeError::Malformed));
}

#[test]
fn single_leaf_is_a_tree() {
    let b = branches(&[0]);
    let t = Tree::new(&b).unwrap();
    assert_eq!(t.len(), 1);
    assert_eq!(t.branch(0), 0);
}

#[test]
fn nested_tree_is_accepted() {
    let b = branches(&[2, 1, 0, 0]);
    let t = Tree::new(&b).unwrap();
    assert_eq!(t.len(), 4);
    assert_eq!(t.branch(1), 1);
}

#[test]
fn flow_up_counts_nodes() {
    let b = branches(&[2, 1, 0, 0]);
    let t = Tree::new(&b).unwrap();
    let n = t.flow_up(|_ix, kids: &[usize]| 1 + kids.iter().sum::<usize>());
    assert_eq!(n, 4);
}

#[test]
fn flow_up_passes_children_in_order() {
    // root(3) -> [leaf, a(1) -> [leaf], leaf]
    let b = branches(&[3, 0, 1, 0, 0]);
    let t = Tree::new(&b).unwrap();
    let s = t.flow_up(|ix, kids: &[String]| {
        let mut out = format!("{}", ix);
        if !kids.is_empty() {
            out.push('(');
            out.push_str(&kids.join(","));
            out.push(')');
        }
        out
    });
    assert_eq!(s, "0(1,2(3),4)");
}

#[test]
fn flow_up_height() {
    let b = branches(&[2, 1, 1, 0, 0]);
    let t = Tree::new(&b).unwrap();
    let h = t.flow_up(|_ix, kids: &[u32]| 1 + kids.iter().copied().max().unwrap_or(0));
    assert_eq!(h, 4);
}

#[test]
fn bounds_add_widths_and_take_max_height() {
    let b = branches(&[2, 0, 0]);
    let t = Tree::new(&b).unwrap();
    let fits = vec![Fit(1, 1), Fit(4, 2), Fit(3, 5)];
    let bounds = compute_bounds(&t, &fits);
    assert_eq!(bounds, vec![Bound(8, 5), Bound(4, 2), Bound(3, 5)]);
}

#[test]
fn bounds_of_nested_subtrees() {
    // root(2) -> [a(1) -> [c], d]
    let b = branches(&[2, 1, 0, 0]);
    let t = Tree::new(&b).unwrap();
    let fits = vec![Fit(1, 3), Fit(2, 1), Fit(5, 7), Fit(4, 2)];
    let bounds = compute_bounds(&t, &fits);
    assert_eq!(bounds, vec![Bound(12, 7), Bound(7, 7), Bound(5, 7), Bound(4, 2)]);
}

#[test]
fn cursor_advances_past_siblings() {
    let b = branches(&[2, 0, 0]);
    let t = Tree::new(&b).unwrap();
    let fits = vec![Fit(2, 1), Fit(3, 1), Fit(4, 1)];
    let bounds = compute_bounds(&t, &fits);
    assert_eq!(bounds[0], Bound(9, 1));
    let s = 5;
    let pos = compute_positions(&t, &fits, &bounds, s);
    assert_eq!(pos, vec![Pos(0, 0), Pos(2, s as i32), Pos(5, s as i32)]);
}

#[test]
fn positions_of_deep_chain_and_return_to_upper_level() {
    // root(2) -> [a(1) -> [b(1) -> [c]], d]
    let b = branches(&[2, 1, 1, 0, 0]);
    let t = Tree::new(&b).unwrap();
    let fits = vec![Fit(1, 1), Fit(2, 1), Fit(3, 1), Fit(4, 1), Fit(5, 1)];
    let bounds = compute_bounds(&t, &fits);
    let pos = compute_positions(&t, &fits, &bounds, 10);
    assert_eq!(
        pos,
        vec![Pos(0, 0), Pos(1, 10), Pos(3, 20), Pos(6, 30), Pos(10, 10)]
    );
}

#[test]
fn layout_tree_matches_the_passes() {
    let b = branches(&[2, 0, 0]);
    let t = Tree::new(&b).unwrap();
    let fits = vec![Fit(1, 1), Fit(4, 2), Fit(3, 5)];
    let (bounds, pos) = layout_tree(&t, &fits, 7).unwrap();
    assert_eq!(bounds, vec![Bound(8, 5), Bound(4, 2), Bound(3, 5)]);
    assert_eq!(pos, vec![Pos(0, 0), Pos(1, 7), Pos(5, 7)]);
}

#[test]
fn layout_tree_refuses_too_wide() {
    let b = branches(&[1, 0]);
    let t = Tree::new(&b).unwrap();
    let fits = vec![Fit(u32::MAX, 1), Fit(1, 1)];
    assert!(layout_tree(&t, &fits, 1).is_none());
    let fits = vec![Fit(i32::MAX as u32, 1), Fit(1, 1)];
    assert!(layout_tree(&t, &fits, 1).is_none());
    let fits = vec![Fit(i32::MAX as u32 - 1, 1), Fit(1, 1)];
    assert!(layout_tree(&t, &fits, 1).is_some());
}

#[test]
fn layout_tree_refuses_too_deep_step() {
    let b = branches(&[1, 0]);
    let t = Tree::new(&b).unwrap();
    let fits = vec![Fit(1, 1), Fit(1, 1)];
    assert!(layout_tree(&t, &fits, u32::MAX).is_none());
    assert!(layout_tree(&t, &fits, i32::MAX as u32 + 1).is_none());
    let (_, pos) = layout_tree(&t, &fits, i32::MAX as u32).unwrap();
    assert_eq!(pos, vec![Pos(0, 0), Pos(1, i32::MAX)]);
    // three nodes: the deepest possible node is two steps down
    let b = branches(&[1, 1, 0]);
    let t = Tree::new(&b).unwrap();
    let fits = vec![Fit(1, 1), Fit(1, 1), Fit(1, 1)];
    assert!(layout_tree(&t, &fits, (i32::MAX / 2) as u32 + 1).is_none());
    assert!(layout_tree(&t, &fits, (i32::MAX / 2) as u32).is_some());
}

#[test]
fn single_node_allows_any_step() {
    let b = branches(&[0]);
    let t = Tree::new(&b).unwrap();
    let fits = vec![Fit(3, 1)];
    let (bounds, pos) = layout_tree(&t, &fits, u32::MAX).unwrap();
    assert_eq!(bounds, vec![Bound(3, 1)]);
    assert_eq!(pos, vec![Pos(0, 0)]);
}
