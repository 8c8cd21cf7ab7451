use slicing_trees::{Cut, Node, Rect, SlicingTree, Stage, TreeItem, NPE};

fn one_cut_tree() -> SlicingTree {
    let mut tree = SlicingTree::new(4, 4);
    let (left, right) = tree.data[0].cut(Cut::Horizontal);
    tree.data[0] = left;
    let right_rect = tree.push_rect(right);
    let l = tree.push_node(Node::new(None, Some(0), None, None, Some(0)));
    let r = tree.push_node(Node::new(None, Some(right_rect), None, None, Some(0)));
    tree.nodes[0] = Node::new(Some(Cut::Horizontal), None, Some(l), Some(r), None);
    tree
}

fn is_valid(npe: &NPE) -> bool {
    let mut operands = 0usize;
    let mut operators = 0usize;
    for (i, t) in npe.expr.iter().enumerate() {
        match t {
            TreeItem::Rect(_) => operands += 1,
            TreeItem::Cut(_) => operators += 1,
        }
        if operators >= operands {
            return false;
        }
        if npe.ballot[i] != (operands, operators) {
            return false;
        }
        if i + 1 < npe.expr.len() {
            if let (TreeItem::Cut(a), TreeItem::Cut(b)) = (npe.expr[i], npe.expr[i + 1]) {
                if a == b {
                    return false;
                }
            }
        }
    }
    operands == operators + 1 && npe.ballot.len() == npe.expr.len()
}

fn operators_of(npe: &NPE) -> Vec<(usize, Cut)> {
    npe.expr
        .iter()
        .enumerate()
        .filter_map(|(i, t)| match t {
            TreeItem::Cut(c) => Some((i, *c)),
            _ => None,
        })
        .collect()
}

#[test]
fn one_horizontal_cut_gives_two_halves_and_three_tokens() {
    let tree = one_cut_tree();
    assert_eq!(tree.data, vec![Rect::new(4, 2), Rect::new(4, 2)]);
    let npe = tree.postorder();
    assert_eq!(
        npe.expr,
        vec![TreeItem::Rect(0), TreeItem::Rect(1), TreeItem::Cut(Cut::Horizontal)]
    );
    assert_eq!(npe.ballot, vec![(1, 0), (2, 0), (2, 1)]);
}

#[test]
fn vertical_join_of_areas_100_and_300() {
    let a = Rect::new(10, 10);
    let b = Rect::new(10, 30);
    assert_eq!(a.cost(), 100);
    assert_eq!(b.cost(), 300);
    let r = Rect::aabb(a, b, Cut::Vertical);
    assert_eq!(r, Rect::new(20, 30));
    assert_eq!(r.cost(), 600);
}

#[test]
fn horizontal_join_sums_heights() {
    let r = Rect::aabb(Rect::new(3, 5), Rect::new(7, 2), Cut::Horizontal);
    assert_eq!(r, Rect::new(7, 7));
    assert_eq!(r.cost(), 49);
}

#[test]
fn cut_halves_one_side() {
    assert_eq!(Rect::new(5, 9).cut(Cut::Horizontal), (Rect::new(5, 4), Rect::new(5, 4)));
    assert_eq!(Rect::new(5, 9).cut(Cut::Vertical), (Rect::new(2, 9), Rect::new(2, 9)));
}

#[test]
fn opposite_and_rotate() {
    assert_eq!(Cut::Horizontal.opposite(), Cut::Vertical);
    assert_eq!(Cut::Vertical.opposite(), Cut::Horizontal);
    let mut r = Rect::new(3, 8);
    r.rotate();
    assert_eq!(r, Rect::new(8, 3));
}

#[test]
fn perturb_zero_changes_nothing() {
    let tree = SlicingTree::random_tree(1024, 1024, 12);
    let mut npe = tree.postorder();
    let before = npe.clone();
    npe.perturb(0);
    assert_eq!(npe, before);
}

#[test]
fn tree_and_expression_agree() {
    for _ in 0..20 {
        let tree = SlicingTree::random_tree(10_000, 10_000, 30);
        let npe = tree.postorder();
        assert_eq!(tree.aabb(0), npe.aabb(&tree.data));
    }
    let tree = one_cut_tree();
    assert_eq!(tree.aabb(0), Rect::new(4, 4));
    assert_eq!(tree.postorder().aabb(&tree.data), Rect::new(4, 4));
}

#[test]
fn random_tree_shape() {
    let tree = SlicingTree::random_tree(64, 64, 9);
    assert_eq!(tree.data.len(), 10);
    assert_eq!(tree.nodes.len(), 19);
    let npe = tree.postorder();
    assert_eq!(npe.expr.len(), 19);
    assert_eq!(npe.count_operands(), 10);
    assert_eq!(npe.count_operators(), 9);
    assert!(is_valid(&npe));
    assert!(npe.is_valid());
}

#[test]
fn moves_keep_expression_valid() {
    for _ in 0..10 {
        let tree = SlicingTree::random_tree(1 << 20, 1 << 20, 25);
        let mut npe = tree.postorder();
        for step in 0..200usize {
            match step % 3 {
                0 => npe.m1(step % (npe.count_operands() - 1)),
                1 => npe.m2(step % npe.number_chains()),
                _ => npe.m3(),
            }
            assert!(is_valid(&npe));
        }
        npe.perturb(300);
        assert!(is_valid(&npe));
        assert_eq!(npe.count_operands(), 26);
    }
}

#[test]
fn m1_keeps_operators_and_chains() {
    let tree = SlicingTree::random_tree(1 << 16, 1 << 16, 15);
    let mut npe = tree.postorder();
    for a in 0..npe.count_operands() - 1 {
        let before = npe.clone();
        npe.m1(a);
        assert_eq!(operators_of(&npe), operators_of(&before));
        assert_eq!(npe.number_chains(), before.number_chains());
        assert_eq!(npe.chains(), before.chains());
        let changed: Vec<usize> = (0..npe.expr.len()).filter(|&i| npe.expr[i] != before.expr[i]).collect();
        assert_eq!(changed.len(), 2);
    }
}

#[test]
fn m1_exchanges_neighbouring_operands() {
    let mut npe = NPE::new(vec![
        TreeItem::Rect(0),
        TreeItem::Rect(1),
        TreeItem::Cut(Cut::Vertical),
        TreeItem::Rect(2),
        TreeItem::Cut(Cut::Horizontal),
    ]);
    npe.m1(1);
    assert_eq!(
        npe.expr,
        vec![
            TreeItem::Rect(0),
            TreeItem::Rect(2),
            TreeItem::Cut(Cut::Vertical),
            TreeItem::Rect(1),
            TreeItem::Cut(Cut::Horizontal),
        ]
    );
}

#[test]
fn m2_flips_one_chain_and_keeps_counts() {
    let mut npe = NPE::new(vec![
        TreeItem::Rect(0),
        TreeItem::Rect(1),
        TreeItem::Rect(2),
        TreeItem::Cut(Cut::Vertical),
        TreeItem::Cut(Cut::Horizontal),
        TreeItem::Rect(3),
        TreeItem::Cut(Cut::Vertical),
    ]);
    assert_eq!(npe.chains(), vec![(3, 5), (6, 7)]);
    assert_eq!(npe.number_chains(), 2);
    assert_eq!(npe.nth_chain(1), (6, 7));
    npe.m2(0);
    assert_eq!(npe.expr[3], TreeItem::Cut(Cut::Horizontal));
    assert_eq!(npe.expr[4], TreeItem::Cut(Cut::Vertical));
    assert_eq!(npe.expr[6], TreeItem::Cut(Cut::Vertical));
    assert_eq!(npe.count_operands(), 4);
    assert_eq!(npe.count_operators(), 3);
    assert!(is_valid(&npe));
}

#[test]
fn m3_changes_one_pair_or_nothing() {
    for _ in 0..50 {
        let tree = SlicingTree::random_tree(1 << 16, 1 << 16, 12);
        let mut npe = tree.postorder();
        npe.perturb(20);
        let before = npe.clone();
        npe.m3();
        assert!(is_valid(&npe));
        let changed: Vec<usize> = (0..npe.expr.len()).filter(|&i| npe.expr[i] != before.expr[i]).collect();
        assert!(changed.is_empty() || (changed.len() == 2 && changed[1] == changed[0] + 1));
        if !changed.is_empty() {
            let i = changed[0];
            assert_eq!(npe.expr[i], before.expr[i + 1]);
            assert_eq!(npe.expr[i + 1], before.expr[i]);
            assert_ne!(npe.expr[i].is_cut(), npe.expr[i + 1].is_cut());
        }
    }
}

#[test]
fn m3_on_a_single_join_does_nothing() {
    let mut npe = one_cut_tree().postorder();
    let before = npe.clone();
    npe.m3();
    assert_eq!(npe, before);
}

#[test]
fn m3_finds_the_only_legal_exchange() {
    // 0 1 2 3 V H V has one operand/operator boundary, at positions 3 and 4.
    let mut npe = NPE::new(vec![
        TreeItem::Rect(0),
        TreeItem::Rect(1),
        TreeItem::Rect(2),
        TreeItem::Rect(3),
        TreeItem::Cut(Cut::Vertical),
        TreeItem::Cut(Cut::Horizontal),
        TreeItem::Cut(Cut::Vertical),
    ]);
    npe.m3();
    assert!(is_valid(&npe));
    assert_eq!(
        npe.expr,
        vec![
            TreeItem::Rect(0),
            TreeItem::Rect(1),
            TreeItem::Rect(2),
            TreeItem::Cut(Cut::Vertical),
            TreeItem::Rect(3),
            TreeItem::Cut(Cut::Horizontal),
            TreeItem::Cut(Cut::Vertical),
        ]
    );
    assert_eq!(npe.ballot, vec![(1, 0), (2, 0), (3, 0), (3, 1), (4, 1), (4, 2), (4, 3)]);
}

#[test]
fn m3_ballot_test_is_conservative() {
    // 0 1 2 V H: the only boundary fails the ballot test (2 * 1 < 2 is false).
    let mut npe = NPE::new(vec![
        TreeItem::Rect(0),
        TreeItem::Rect(1),
        TreeItem::Rect(2),
        TreeItem::Cut(Cut::Vertical),
        TreeItem::Cut(Cut::Horizontal),
    ]);
    let before = npe.clone();
    npe.m3();
    assert_eq!(npe, before);
}

#[test]
fn chains_restart_gives_same_ranges() {
    let tree = SlicingTree::random_tree(1 << 16, 1 << 16, 20);
    let npe = tree.postorder();
    let first = npe.chains();
    let second = npe.chains();
    assert_eq!(first, second);
    assert_eq!(first.len(), npe.number_chains());
    for (k, &(a, b)) in first.iter().enumerate() {
        assert!(a < b);
        assert!(npe.expr[a - 1].is_rect());
        assert!(b == npe.expr.len() || npe.expr[b].is_rect());
        assert!((a..b).all(|i| npe.expr[i].is_cut()));
        assert_eq!(npe.nth_chain(k), (a, b));
    }
}

#[test]
fn ballot_and_counts() {
    let mut npe = NPE::new(vec![
        TreeItem::Rect(0),
        TreeItem::Rect(1),
        TreeItem::Cut(Cut::Vertical),
        TreeItem::Rect(2),
        TreeItem::Cut(Cut::Horizontal),
    ]);
    assert_eq!(npe.ballot, vec![(1, 0), (2, 0), (2, 1), (3, 1), (3, 2)]);
    assert_eq!(npe.number_operators(0), 0);
    assert_eq!(npe.number_operators(3), 1);
    assert_eq!(npe.number_operators(5), 2);
    npe.ballot = vec![(0, 0); 5];
    npe.calculate_ballot();
    assert_eq!(npe.ballot, vec![(1, 0), (2, 0), (2, 1), (3, 1), (3, 2)]);
    let starts_with_cut = NPE::new(vec![TreeItem::Cut(Cut::Vertical), TreeItem::Rect(0)]);
    assert_eq!(starts_with_cut.ballot, vec![(0, 1), (1, 1)]);
}

#[test]
fn normalization_checks() {
    let npe = NPE::new(vec![
        TreeItem::Rect(0),
        TreeItem::Rect(1),
        TreeItem::Cut(Cut::Vertical),
        TreeItem::Cut(Cut::Vertical),
    ]);
    assert!(npe.is_normalized(0, 2));
    assert!(!npe.is_normalized(1, 3));
    assert!(npe.is_normalized(3, 3));
    let npe = NPE::new(vec![
        TreeItem::Rect(0),
        TreeItem::Rect(1),
        TreeItem::Rect(2),
        TreeItem::Rect(3),
        TreeItem::Cut(Cut::Vertical),
        TreeItem::Cut(Cut::Horizontal),
        TreeItem::Cut(Cut::Vertical),
    ]);
    // 2 * (operators up to 4) = 2 < 3, and 2 R3 V H holds no equal neighbours.
    assert!(npe.is_swap_normalized(3, 4));
    assert!(npe.is_swap_normalized(2, 3));
    // The ballot test fails at the first position: 2 * 0 < 0 is false.
    assert!(!npe.is_swap_normalized(0, 1));
    let mut s = npe.clone();
    s.swap(0, 6);
    assert_eq!(s.expr[0], TreeItem::Cut(Cut::Vertical));
    assert_eq!(s.expr[6], TreeItem::Rect(0));
}

#[test]
fn tree_items_and_nodes() {
    assert!(TreeItem::Rect(3).is_rect());
    assert!(!TreeItem::Rect(3).is_cut());
    assert!(TreeItem::Cut(Cut::Vertical).is_cut());
    let tree = one_cut_tree();
    let root = tree.nodes[0];
    assert_eq!(root.left_child_idx(), Some(1));
    assert_eq!(root.right_child_idx(), Some(2));
    assert_eq!(root.goto_left(&tree), Some(tree.nodes[1]));
    assert_eq!(root.goto_right(&tree), Some(tree.nodes[2]));
    assert_eq!(tree.nodes[1].goto_left(&tree), None);
    assert_eq!(Node::root(), Node::new(None, None, None, None, None));
}

#[test]
fn validity_check_rejects_broken_expressions() {
    let good = NPE::new(vec![TreeItem::Rect(0), TreeItem::Rect(1), TreeItem::Cut(Cut::Vertical)]);
    assert!(good.is_valid());
    let underflow = NPE::new(vec![TreeItem::Rect(0), TreeItem::Cut(Cut::Vertical), TreeItem::Rect(1)]);
    assert!(!underflow.is_valid());
    let repeated = NPE::new(vec![
        TreeItem::Rect(0),
        TreeItem::Rect(1),
        TreeItem::Rect(2),
        TreeItem::Cut(Cut::Vertical),
        TreeItem::Cut(Cut::Vertical),
    ]);
    assert!(!repeated.is_valid());
    let mut stale = good.clone();
    stale.ballot[2] = (2, 0);
    assert!(!stale.is_valid());
    let too_many = NPE::new(vec![TreeItem::Rect(0), TreeItem::Rect(1)]);
    assert!(!too_many.is_valid());
}

#[test]
fn stage_counts_and_ends() {
    let mut stage = Stage::new(2, 1);
    assert_eq!(stage.limit, 2);
    assert!(stage.record(10, 8, false));
    assert!(stage.record(10, 10, false));
    assert!(!stage.record(10, 12, false));
    assert!(stage.record(10, 12, true));
    assert_eq!((stage.uphill, stage.iters, stage.rejected), (1, 4, 1));
    assert!(!stage.is_over());
    // Five moves tried exceed twice the limit of 2.
    assert!(stage.record(10, 11, true));
    assert_eq!(stage.uphill, 2);
    assert!(stage.is_over());
    assert!(!stage.mostly_rejected());
}

#[test]
fn stage_ends_on_iterations_and_counts_rejections() {
    let mut stage = Stage::new(1, 2);
    for _ in 0..4 {
        assert!(!stage.record(5, 9, false));
        assert!(!stage.is_over());
    }
    assert!(!stage.record(5, 9, false));
    assert!(stage.is_over());
    assert_eq!((stage.uphill, stage.iters, stage.rejected), (0, 5, 5));
    assert!(stage.mostly_rejected());
}

#[test]
fn stage_ends_on_uphill_moves() {
    let mut stage = Stage::new(1, 1);
    assert!(stage.record(3, 4, true));
    assert!(!stage.is_over());
    assert!(stage.record(4, 5, true));
    assert_eq!((stage.uphill, stage.iters, stage.rejected), (2, 2, 0));
    assert!(stage.is_over());
}

#[test]
fn large_boxes_cost_exactly() {
    let r = Rect::new(1 << 40, 1 << 30);
    assert_eq!(r.cost(), 1u128 << 70);
}

#[test]
fn random_tree_boxes_and_cuts() {
    for _ in 0..10 {
        let t = SlicingTree::random_tree(4, 4, 1);
        let npe = t.postorder();
        assert!(
            (t.data == vec![Rect::new(4, 2); 2]
                && npe.expr == vec![TreeItem::Rect(0), TreeItem::Rect(1), TreeItem::Cut(Cut::Horizontal)])
                || (t.data == vec![Rect::new(2, 4); 2]
                    && npe.expr == vec![TreeItem::Rect(0), TreeItem::Rect(1), TreeItem::Cut(Cut::Vertical)])
        );
    }
    let t = SlicingTree::random_tree(1 << 10, 1 << 10, 20);
    assert!(t.is_wf());
    for node in &t.nodes {
        if let (Some(c), Some(p)) = (node.cut, node.parent) {
            assert_eq!(Some(c.opposite()), t.nodes[p].cut);
        }
    }
    let npe = t.postorder();
    let mut seen: Vec<usize> = npe
        .expr
        .iter()
        .filter_map(|x| match x {
            TreeItem::Rect(i) => Some(*i),
            _ => None,
        })
        .collect();
    seen.sort();
    assert_eq!(seen, (0..=20).collect::<Vec<usize>>());
}

#[test]
fn broken_arena_is_detected() {
    let mut t = one_cut_tree();
    assert!(t.is_wf());
    t.nodes[0].left = Some(7);
    assert!(!t.is_wf());
}

#[test]
fn checked_evaluation() {
    let tree = one_cut_tree();
    let npe = tree.postorder();
    assert_eq!(npe.aabb_checked(&tree.data), Some(Rect::new(4, 4)));
    assert_eq!(npe.aabb_checked(&tree.data[..1]), None);
    let bad = NPE::new(vec![TreeItem::Rect(0), TreeItem::Cut(Cut::Vertical), TreeItem::Rect(1)]);
    assert_eq!(bad.aabb_checked(&tree.data), None);
    let wide = vec![Rect::new(usize::MAX, 1), Rect::new(1, 1)];
    let join = NPE::new(vec![TreeItem::Rect(0), TreeItem::Rect(1), TreeItem::Cut(Cut::Vertical)]);
    assert_eq!(join.aabb_checked(&wide), None);
    let stacked = NPE::new(vec![TreeItem::Rect(0), TreeItem::Rect(1), TreeItem::Cut(Cut::Horizontal)]);
    assert_eq!(stacked.aabb_checked(&wide), Some(Rect::new(usize::MAX, 2)));
}
