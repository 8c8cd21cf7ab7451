use vstd::prelude::*;

use crate::geometry::{enclose, fits_usize, half_of, opposite_of, Cut, Dims, Rect};
use crate::npe::{clash, operands_in, cut_count, kinds, normalized, lemma_cut_count_concat, lemma_run_concat, run, skewed, step, TreeItem, NPE};
use crate::rng::random_flag;

verus! {

/// A slot of the node arena: a leaf names a box of the box table; an
/// internal node holds a cut and its two children.
#[derive(Copy, Clone, Debug, PartialEq, Eq, Structural)]
pub struct Node {
    pub cut: Option<Cut>,
    pub rect: Option<usize>,
    pub left: Option<usize>,
    pub right: Option<usize>,
    pub parent: Option<usize>,
}

impl Node {
    pub fn new(
        cut: Option<Cut>,
        rect: Option<usize>,
        left: Option<usize>,
        right: Option<usize>,
        parent: Option<usize>,
    ) -> (r: Node)
        ensures
            r == (Node { cut, rect, left, right, parent }),
    {
        Node { cut, rect, left, right, parent }
    }

    /// A node with no content and no links.
    pub fn root() -> (r: Node)
        ensures
            r == (Node { cut: None, rect: None, left: None, right: None, parent: None }),
    {
        Node { cut: None, rect: None, left: None, right: None, parent: None }
    }

    pub fn left_child_idx(&self) -> (r: Option<usize>)
        ensures
            r == self.left,
    {
        self.left
    }

    pub fn right_child_idx(&self) -> (r: Option<usize>)
        ensures
            r == self.right,
    {
        self.right
    }

    /// The left child, if there is one and it lies in the arena.
    pub fn goto_left(&self, tree: &SlicingTree) -> (r: Option<Node>)
        ensures
            r == match self.left {
                Some(i) => if i < tree.nodes@.len() {
                    Some(tree.nodes@[i as int])
                } else {
                    None
                },
                None => None,
            },
    {
        match self.left {
            Some(i) => if i < tree.nodes.len() {
                Some(tree.nodes[i])
            } else {
                None
            },
            None => None,
        }
    }

    /// The right child, if there is one and it lies in the arena.
    pub fn goto_right(&self, tree: &SlicingTree) -> (r: Option<Node>)
        ensures
            r == match self.right {
                Some(i) => if i < tree.nodes@.len() {
                    Some(tree.nodes@[i as int])
                } else {
                    None
                },
                None => None,
            },
    {
        match self.right {
            Some(i) => if i < tree.nodes.len() {
                Some(tree.nodes[i])
            } else {
                None
            },
            None => None,
        }
    }
}

/// Node `i` of `nodes` is a leaf naming one of `n_data` boxes, or an internal
/// node with a cut and two children that stand after it.
pub open spec fn node_ok_in(nodes: Seq<Node>, n_data: int, i: int) -> bool {
    let nd = nodes[i];
    match nd.rect {
        Some(r) => r < n_data,
        None => {
            &&& nd.cut is Some
            &&& nd.left is Some
            &&& nd.right is Some
            &&& i < nd.left->0 < nodes.len()
            &&& i < nd.right->0 < nodes.len()
        },
    }
}

/// A slicing tree held in two append-only arenas; the root is node 0.
pub struct SlicingTree {
    pub data: Vec<Rect>,
    pub nodes: Vec<Node>,
}

impl SlicingTree {
    pub open spec fn node_ok(&self, i: int) -> bool {
        node_ok_in(self.nodes@, self.data@.len() as int, i)
    }

    pub open spec fn wf(&self) -> bool {
        &&& self.nodes@.len() > 0
        &&& forall|i: int| 0 <= i < self.nodes@.len() ==> #[trigger] self.node_ok(i)
    }

    /// The postfix form of the subtree rooted at node `i`.
    pub open spec fn postorder_of(&self, i: int) -> Seq<TreeItem>
        decreases self.nodes@.len() - i,
    {
        if 0 <= i < self.nodes@.len() && self.node_ok(i) {
            let nd = self.nodes@[i];
            match nd.rect {
                Some(r) => seq![TreeItem::Rect(r)],
                None => self.postorder_of(nd.left->0 as int) + self.postorder_of(nd.right->0 as int)
                    + seq![TreeItem::Cut(nd.cut->0)],
            }
        } else {
            seq![]
        }
    }

    /// The enclosing box of the subtree rooted at node `i`.
    pub open spec fn aabb_of(&self, i: int) -> Dims
        decreases self.nodes@.len() - i,
    {
        if 0 <= i < self.nodes@.len() && self.node_ok(i) {
            let nd = self.nodes@[i];
            match nd.rect {
                Some(r) => self.data@[r as int]@,
                None => enclose(
                    self.aabb_of(nd.left->0 as int),
                    self.aabb_of(nd.right->0 as int),
                    nd.cut->0,
                ),
            }
        } else {
            (0, 0)
        }
    }

    /// Every box of the subtree rooted at node `i` fits a `usize`.
    pub open spec fn fits_below(&self, i: int) -> bool
        decreases self.nodes@.len() - i,
    {
        if 0 <= i < self.nodes@.len() && self.node_ok(i) {
            let nd = self.nodes@[i];
            match nd.rect {
                Some(r) => true,
                None => {
                    &&& fits_usize(self.aabb_of(i))
                    &&& self.fits_below(nd.left->0 as int)
                    &&& self.fits_below(nd.right->0 as int)
                },
            }
        } else {
            false
        }
    }

    /// A single leaf holding a box of the given size.
    pub fn new(starting_width: usize, starting_height: usize) -> (r: SlicingTree)
        ensures
            r.wf(),
            r.data@ == seq![Rect { width: starting_width, height: starting_height }],
            r.nodes@ == seq![
                Node { cut: None, rect: Some(0), left: None, right: None, parent: None },
            ],
    {
        let start_rect = Rect::new(starting_width, starting_height);
        let data = vec![start_rect];
        let mut root = Node::root();
        root.rect = Some(0);
        let r = SlicingTree { data, nodes: vec![root] };
        proof {
            assert(r.node_ok(0));
        }
        r
    }

    pub fn push_rect(&mut self, rect: Rect) -> (r: usize)
        ensures
            final(self).data@ == old(self).data@.push(rect),
            final(self).nodes@ == old(self).nodes@,
            r == old(self).data@.len(),
    {
        self.data.push(rect);
        self.data.len() - 1
    }

    pub fn push_node(&mut self, node: Node) -> (r: usize)
        ensures
            final(self).nodes@ == old(self).nodes@.push(node),
            final(self).data@ == old(self).data@,
            r == old(self).nodes@.len(),
    {
        self.nodes.push(node);
        self.nodes.len() - 1
    }

    /// Whether every node is a leaf naming a box of the table or an internal
    /// node with a cut and two children after it.
    pub fn is_wf(&self) -> (r: bool)
        ensures
            r == self.wf(),
    {
        let n = self.nodes.len();
        if n == 0 {
            return false;
        }
        let mut i: usize = 0;
        while i < n
            invariant
                i <= n == self.nodes@.len(),
                forall|j: int| 0 <= j < i ==> #[trigger] self.node_ok(j),
            decreases n - i,
        {
            let nd = self.nodes[i];
            let ok = match nd.rect {
                Some(r) => r < self.data.len(),
                None => match (nd.cut, nd.left, nd.right) {
                    (Some(_), Some(l), Some(r)) => i < l && l < n && i < r && r < n,
                    _ => false,
                },
            };
            if !ok {
                proof {
                    assert(!self.node_ok(i as int));
                }
                return false;
            }
            i += 1;
        }
        true
    }

    /// The postfix form of the whole tree, with its running counts.
    pub fn postorder(&self) -> (r: NPE)
        requires
            self.wf(),
        ensures
            r.expr@ == self.postorder_of(0),
            r.ballot_ok(),
            skewed(r.kinds()),
            operands_in(r.expr@, self.data@.len() as int),
            self.links_ok() && self.cuts_oppose_parents() ==> r.valid(),
    {
        let mut data: Vec<TreeItem> = Vec::new();
        self.postorder_rec(0, &mut data);
        proof {
            assert(data@ =~= self.postorder_of(0));
            assert(self.node_ok(0));
            lemma_postorder_skewed(self, 0);
            lemma_postorder_operands(self, 0);
            if self.links_ok() && self.cuts_oppose_parents() {
                lemma_postorder_normalized(self, 0);
            }
        }
        NPE::new(data)
    }

    fn postorder_rec(&self, root: usize, data: &mut Vec<TreeItem>)
        requires
            self.wf(),
            root < self.nodes@.len(),
        ensures
            final(data)@ == old(data)@ + self.postorder_of(root as int),
        decreases self.nodes@.len() - root,
    {
        let root_node = self.nodes[root];
        proof {
            assert(self.node_ok(root as int));
        }
        if let Some(rect) = root_node.rect {
            data.push(TreeItem::Rect(rect));
            proof {
                assert(final(data)@ =~= old(data)@ + self.postorder_of(root as int));
            }
            return;
        }
        let l = root_node.left.unwrap();
        let r = root_node.right.unwrap();
        let cut = root_node.cut.unwrap();
        self.postorder_rec(l, data);
        self.postorder_rec(r, data);
        data.push(TreeItem::Cut(cut));
        proof {
            assert(final(data)@ =~= old(data)@ + self.postorder_of(root as int));
        }
    }

    /// The enclosing box of the subtree rooted at node `root`.
    pub fn aabb(&self, root: usize) -> (r: Rect)
        requires
            self.wf(),
            root < self.nodes@.len(),
            self.fits_below(root as int),
        ensures
            r@ == self.aabb_of(root as int),
        decreases self.nodes@.len() - root,
    {
        let node = self.nodes[root];
        proof {
            assert(self.node_ok(root as int));
        }
        if let Some(rect) = node.rect {
            return self.data[rect];
        }
        let left = self.aabb(node.left.unwrap());
        let right = self.aabb(node.right.unwrap());
        let cut = node.cut.unwrap();
        Rect::aabb(left, right, cut)
    }
}

impl SlicingTree {
    /// Each child of an internal node names that node as its parent.
    #[verifier::opaque]
    pub open spec fn links_ok(&self) -> bool {
        forall|i: int|
            0 <= i < self.nodes@.len() && (#[trigger] self.nodes@[i]).rect is None ==> {
                &&& self.nodes@[self.nodes@[i].left->0 as int].parent == Some(i as usize)
                &&& self.nodes@[self.nodes@[i].right->0 as int].parent == Some(i as usize)
            }
    }

    /// Every internal node with a parent is cut the other way from it.
    #[verifier::opaque]
    pub open spec fn cuts_oppose_parents(&self) -> bool {
        forall|i: int|
            0 <= i < self.nodes@.len() && (#[trigger] self.nodes@[i]).rect is None
                && self.nodes@[i].parent is Some ==> self.nodes@[i].cut == Some(
                opposite_of(self.nodes@[self.nodes@[i].parent->0 as int].cut->0),
            )
    }

    /// Every parent link names an internal node of the arena.
    #[verifier::opaque]
    pub open spec fn parents_ok(&self) -> bool {
        forall|i: int|
            0 <= i < self.nodes@.len() ==> match (#[trigger] self.nodes@[i]).parent {
                Some(p) => p < self.nodes@.len() && self.nodes@[p as int].rect is None
                    && self.nodes@[p as int].cut is Some,
                None => true,
            }
    }

    /// Every node but the root has a parent standing before it, of which it
    /// is the left or the right child.
    #[verifier::opaque]
    pub open spec fn parent_links(&self) -> bool {
        &&& self.nodes@[0].parent is None
        &&& forall|i: int|
            0 < i < self.nodes@.len() ==> match (#[trigger] self.nodes@[i]).parent {
                Some(p) => p < i && (self.nodes@[p as int].left == Some(i as usize)
                    || self.nodes@[p as int].right == Some(i as usize)),
                None => false,
            }
    }

    /// Each leaf holds the box that the cuts above it carve out of `root`.
    #[verifier::opaque]
    pub open spec fn leaf_boxes(&self, root: Dims) -> bool {
        forall|i: int|
            0 <= i < self.nodes@.len() && (#[trigger] self.nodes@[i]).rect is Some
                ==> self.data@[self.nodes@[i].rect->0 as int]@ == box_in(self.nodes@, i, root)
    }

    /// Each box of the table is named by exactly one leaf.
    #[verifier::opaque]
    pub open spec fn boxes_named_once(&self) -> bool {
        &&& forall|i: int, j: int|
            0 <= i < self.nodes@.len() && 0 <= j < self.nodes@.len()
                && (#[trigger] self.nodes@[i]).rect is Some && (#[trigger] self.nodes@[j]).rect
                == self.nodes@[i].rect ==> i == j
        &&& forall|r: int| 0 <= r < self.data@.len() ==> #[trigger] self.box_named(r)
    }

    /// Some leaf names box `r`.
    pub open spec fn box_named(&self, r: int) -> bool {
        exists|i: int| 0 <= i < self.nodes@.len() && (#[trigger] self.nodes@[i]).rect == Some(r as usize)
    }

    /// What a tree grown from a `root` box by halving splits satisfies.
    pub open spec fn grown_from(&self, root: Dims) -> bool {
        &&& self.wf()
        &&& self.parents_ok()
        &&& self.links_ok()
        &&& self.cuts_oppose_parents()
        &&& self.parent_links()
        &&& self.leaf_boxes(root)
        &&& self.boxes_named_once()
    }

    /// Halves the box of leaf `current` under `cut`: the leaf becomes an
    /// internal node whose two new leaves hold the halves.
    fn split_leaf(&mut self, current: usize, cut: Cut, Ghost(root): Ghost<Dims>)
        requires
            old(self).grown_from(root),
            current < old(self).nodes@.len(),
            old(self).nodes@[current as int].rect is Some,
            old(self).nodes@[current as int].parent is Some ==> cut == opposite_of(
                old(self).nodes@[old(self).nodes@[current as int].parent->0 as int].cut->0,
            ),
        ensures
            final(self).grown_from(root),
            final(self).data@.len() == old(self).data@.len() + 1,
            final(self).nodes@.len() == old(self).nodes@.len() + 2,
    {
        let ghost t0 = self.nodes@;
        let ghost d0 = self.data@;
        let ghost n0 = t0.len() as int;
        proof {
            assert forall|i: int| 0 <= i < n0 implies #[trigger] node_ok_in(t0, d0.len() as int, i) by {
                assert(self.node_ok(i));
            }
            assert(self.data@[t0[current as int].rect->0 as int]@ == box_in(t0, current as int, root)) by {
                reveal(SlicingTree::leaf_boxes);
            }
        }
        proof {
            assert(node_ok_in(t0, d0.len() as int, current as int));
        }
        let rect_idx = self.nodes[current].rect.unwrap();
        let rect = self.data[rect_idx];
        let (left, right) = rect.cut(cut);
        self.data.set(rect_idx, left);
        let right_rect = self.push_rect(right);
        let left_idx = self.push_node(Node::new(None, Some(rect_idx), None, None, Some(current)));
        let right_idx = self.push_node(Node::new(None, Some(right_rect), None, None, Some(current)));
        let mut new_parent = self.nodes[current];
        new_parent.rect = None;
        new_parent.cut = Some(cut);
        new_parent.left = Some(left_idx);
        new_parent.right = Some(right_idx);
        self.nodes.set(current, new_parent);
        let n_nodes = self.nodes.len();
        let n_data = self.data.len();
        proof {
            assert(n_nodes == self.nodes@.len() && n_data == self.data@.len());
            assert(self.nodes@ =~= t0.push(Node { cut: None, rect: Some(rect_idx), left: None, right: None, parent: Some(current) }).push(
                Node { cut: None, rect: Some(right_rect), left: None, right: None, parent: Some(current) },
            ).update(
                current as int,
                Node { cut: Some(cut), rect: None, left: Some(left_idx), right: Some(right_idx), parent: t0[current as int].parent },
            ));
            assert(self.data@ =~= d0.update(rect_idx as int, left).push(left));
            assert(split_of(old(self), self, current as int, cut));
            lemma_split_structure(old(self), self, current as int, cut, root);
            lemma_split_cuts(old(self), self, current as int, cut, root);
            lemma_split_boxes(old(self), self, current as int, cut, root);
            lemma_split_names(old(self), self, current as int, cut, root);
        }
    }

    /// Grows a tree from one box by `num_cuts` random splits: each walks from
    /// the root to a leaf by coin flips and halves that leaf's box, under the
    /// cut opposite to its parent's (or a random cut at the root).
    pub fn random_tree(width: usize, height: usize, num_cuts: usize) -> (r: SlicingTree)
        ensures
            r.grown_from((width as int, height as int)),
            r.data@.len() == num_cuts + 1,
            r.nodes@.len() == 2 * num_cuts + 1,
    {
        let ghost root = (width as int, height as int);
        let mut tree = SlicingTree::new(width, height);
        proof {
            assert(tree.nodes@[0].rect == Some(0usize));
            reveal(SlicingTree::parents_ok);
            reveal(SlicingTree::links_ok);
            reveal(SlicingTree::cuts_oppose_parents);
            reveal(SlicingTree::parent_links);
            reveal(SlicingTree::leaf_boxes);
            reveal(SlicingTree::boxes_named_once);
            assert(tree.box_named(0));
        }
        let mut c: usize = 0;
        while c < num_cuts
            invariant
                c <= num_cuts,
                tree.grown_from(root),
                tree.data@.len() == c + 1,
                tree.nodes@.len() == 2 * c + 1,
            decreases num_cuts - c,
        {
            let mut current: usize = 0;
            while tree.nodes[current].rect.is_none()
                invariant
                    tree.wf(),
                    current < tree.nodes@.len(),
                decreases tree.nodes@.len() - current,
            {
                proof {
                    assert(tree.node_ok(current as int));
                }
                if random_flag() {
                    current = tree.nodes[current].left.unwrap();
                } else {
                    current = tree.nodes[current].right.unwrap();
                }
            }
            proof {
                reveal(SlicingTree::parents_ok);
                let _ = tree.nodes@[current as int];
            }
            let cut = match tree.nodes[current].parent {
                Some(parent) => tree.nodes[parent].cut.unwrap().opposite(),
                None => if random_flag() {
                    Cut::Vertical
                } else {
                    Cut::Horizontal
                },
            };
            tree.split_leaf(current, cut, Ghost(root));
            c += 1;
        }
        tree
    }
}

/// `b` is `a` with leaf `c` split under `cut`: the leaf's box index goes to a
/// new left leaf with the first half, a new box holds the second half for a
/// new right leaf, and `c` becomes an internal node over the two.
pub open spec fn split_of(a: &SlicingTree, b: &SlicingTree, c: int, cut: Cut) -> bool {
    let t0 = a.nodes@;
    let n0 = t0.len() as int;
    let d0 = a.data@;
    let r = t0[c].rect->0 as int;
    &&& 0 <= c < n0
    &&& n0 + 2 <= usize::MAX
    &&& d0.len() + 1 <= usize::MAX
    &&& t0[c].rect is Some
    &&& 0 <= r < d0.len()
    &&& b.data@.len() == d0.len() + 1
    &&& b.data@ == d0.update(r, b.data@[r]).push(b.data@[r])
    &&& b.data@[r]@ == half_of(d0[r]@, cut)
    &&& b.nodes@ == t0.push(Node { cut: None, rect: Some(r as usize), left: None, right: None, parent: Some(c as usize) }).push(
        Node { cut: None, rect: Some(d0.len() as usize), left: None, right: None, parent: Some(c as usize) },
    ).update(
        c,
        Node { cut: Some(cut), rect: None, left: Some(n0 as usize), right: Some((n0 + 1) as usize), parent: t0[c].parent },
    )
}

/// Splitting a leaf keeps the arena well formed and its links consistent.
#[verifier::rlimit(100)]
proof fn lemma_split_structure(a: &SlicingTree, b: &SlicingTree, c: int, cut: Cut, root: Dims)
    requires
        a.grown_from(root),
        split_of(a, b, c, cut),
        a.nodes@[c].parent is Some ==> cut == opposite_of(a.nodes@[a.nodes@[c].parent->0 as int].cut->0),
    ensures
        b.wf(),
        b.parents_ok(),
        b.links_ok(),
{
    let t0 = a.nodes@;
    let d0 = a.data@;
    let ns = b.nodes@;
    let n0 = t0.len() as int;
    let r = t0[c].rect->0 as int;
    let rc = t0[c].rect;
    assert forall|i: int| 0 <= i < n0 implies #[trigger] node_ok_in(t0, d0.len() as int, i) by {
        assert(a.node_ok(i));
    }
    assert(b.wf()) by {
        assert forall|j: int| 0 <= j < n0 && j != c implies #[trigger] ns[j] == t0[j] by {}
        assert forall|j: int| 0 <= j < n0 implies #[trigger] ns[j].parent == t0[j].parent by {}
        assert forall|i: int| 0 <= i < ns.len() implies #[trigger] b.node_ok(i) by {
            if i < n0 && i != c {
                assert(node_ok_in(t0, d0.len() as int, i));
            }
        }
    }
    assert(b.parents_ok()) by {
        assert forall|j: int| 0 <= j < n0 && j != c implies #[trigger] ns[j] == t0[j] by {}
        assert forall|j: int| 0 <= j < n0 implies #[trigger] ns[j].parent == t0[j].parent by {}
        reveal(SlicingTree::parents_ok);
        assert forall|i: int| 0 <= i < ns.len() implies match (#[trigger] ns[i]).parent {
            Some(p) => p < ns.len() && ns[p as int].rect is None && ns[p as int].cut is Some,
            None => true,
        } by {
            if i < n0 {
                match t0[i].parent {
                    Some(p) => {
                        assert(t0[p as int].rect is None);
                    },
                    None => {},
                }
            }
        }
    }
    assert(b.links_ok()) by {
        assert forall|j: int| 0 <= j < n0 && j != c implies #[trigger] ns[j] == t0[j] by {}
        assert forall|j: int| 0 <= j < n0 implies #[trigger] ns[j].parent == t0[j].parent by {}
        reveal(SlicingTree::links_ok);
        assert forall|i: int|
            0 <= i < ns.len() && (#[trigger] ns[i]).rect is None implies {
            &&& ns[ns[i].left->0 as int].parent == Some(i as usize)
            &&& ns[ns[i].right->0 as int].parent == Some(i as usize)
        } by {
            if i != c {
                assert(node_ok_in(t0, d0.len() as int, i));
                assert(t0[i].rect is None);
            }
        }
    }
}

/// Splitting a leaf keeps each cut opposite to its parent's, and each parent link.
#[verifier::rlimit(100)]
proof fn lemma_split_cuts(a: &SlicingTree, b: &SlicingTree, c: int, cut: Cut, root: Dims)
    requires
        a.grown_from(root),
        split_of(a, b, c, cut),
        a.nodes@[c].parent is Some ==> cut == opposite_of(a.nodes@[a.nodes@[c].parent->0 as int].cut->0),
    ensures
        b.cuts_oppose_parents(),
        b.parent_links(),
{
    let t0 = a.nodes@;
    let d0 = a.data@;
    let ns = b.nodes@;
    let n0 = t0.len() as int;
    let r = t0[c].rect->0 as int;
    let rc = t0[c].rect;
    assert forall|i: int| 0 <= i < n0 implies #[trigger] node_ok_in(t0, d0.len() as int, i) by {
        assert(a.node_ok(i));
    }
    assert(b.cuts_oppose_parents()) by {
        assert forall|j: int| 0 <= j < n0 && j != c implies #[trigger] ns[j] == t0[j] by {}
        assert forall|j: int| 0 <= j < n0 implies #[trigger] ns[j].parent == t0[j].parent by {}
        reveal(SlicingTree::cuts_oppose_parents);
        reveal(SlicingTree::parents_ok);
        assert forall|i: int|
            0 <= i < ns.len() && (#[trigger] ns[i]).rect is None && ns[i].parent is Some implies ns[i].cut
            == Some(opposite_of(ns[ns[i].parent->0 as int].cut->0)) by {
            let p = t0[i].parent->0 as int;
            assert(t0[p].rect is None);
        }
    }
    assert(b.parent_links()) by {
        assert forall|j: int| 0 <= j < n0 && j != c implies #[trigger] ns[j] == t0[j] by {}
        assert forall|j: int| 0 <= j < n0 implies #[trigger] ns[j].parent == t0[j].parent by {}
        reveal(SlicingTree::parent_links);
        reveal(SlicingTree::parents_ok);
        assert forall|i: int| 0 < i < ns.len() implies match (#[trigger] ns[i]).parent {
            Some(p) => p < i && (ns[p as int].left == Some(i as usize) || ns[p as int].right == Some(
                i as usize,
            )),
            None => false,
        } by {
            if i < n0 {
                assert(t0[i].parent is Some);
                let p = t0[i].parent->0 as int;
                assert(t0[p].rect is None);
            }
        }
    }
}

/// Splitting a leaf gives its two new leaves the halves of its box.
#[verifier::rlimit(50)]
proof fn lemma_split_boxes(a: &SlicingTree, b: &SlicingTree, c: int, cut: Cut, root: Dims)
    requires
        a.grown_from(root),
        split_of(a, b, c, cut),
        a.nodes@[c].parent is Some ==> cut == opposite_of(a.nodes@[a.nodes@[c].parent->0 as int].cut->0),
    ensures
        b.leaf_boxes(root),
{
    let t0 = a.nodes@;
    let d0 = a.data@;
    let ns = b.nodes@;
    let n0 = t0.len() as int;
    let r = t0[c].rect->0 as int;
    let rc = t0[c].rect;
    assert forall|i: int| 0 <= i < n0 implies #[trigger] node_ok_in(t0, d0.len() as int, i) by {
        assert(a.node_ok(i));
    }
    assert(b.leaf_boxes(root)) by {
        assert forall|j: int| 0 <= j < n0 && (#[trigger] t0[j]).parent is Some implies t0[j].parent->0 != c by {
            reveal(SlicingTree::parents_ok);
            let p = t0[j].parent->0 as int;
            assert(t0[p].rect is None);
        }
        assert forall|j: int| 0 <= j < n0 && j != c implies #[trigger] ns[j] == t0[j] by {}
        assert forall|j: int| 0 <= j < n0 implies #[trigger] ns[j].parent == t0[j].parent by {}
        assert(forall|j: int| 0 <= j < d0.len() && j != r ==> #[trigger] b.data@[j] == d0[j]);
        reveal(SlicingTree::leaf_boxes);
        reveal(SlicingTree::boxes_named_once);
        reveal(SlicingTree::parents_ok);
        assert forall|i: int|
            0 <= i < ns.len() && (#[trigger] ns[i]).rect is Some implies b.data@[ns[i].rect->0 as int]@
            == box_in(ns, i, root) by {
            if i < n0 {
                assert(i != c);
                assert(ns[i] == t0[i]);
                lemma_box_stable(t0, ns, c, root, i);
                assert(t0[i].rect is Some);
                assert(t0[i].rect != t0[c].rect);
                assert(node_ok_in(t0, d0.len() as int, i));
                let r = t0[i].rect->0 as int;
                assert(b.data@[r] == d0[r]);
                assert(d0[r]@ == box_in(t0, i, root));
            } else {
                lemma_box_stable(t0, ns, c, root, c);
                assert(ns[i].parent == Some((c as usize)));
                assert(box_in(ns, i, root) == half_of(box_in(ns, c, root), cut));
            }
        }
    }
}

/// Splitting a leaf keeps each box named by exactly one leaf.
proof fn lemma_split_names(a: &SlicingTree, b: &SlicingTree, c: int, cut: Cut, root: Dims)
    requires
        a.grown_from(root),
        split_of(a, b, c, cut),
        a.nodes@[c].parent is Some ==> cut == opposite_of(a.nodes@[a.nodes@[c].parent->0 as int].cut->0),
    ensures
        b.boxes_named_once(),
{
    let t0 = a.nodes@;
    let d0 = a.data@;
    let ns = b.nodes@;
    let n0 = t0.len() as int;
    let r = t0[c].rect->0 as int;
    let rc = t0[c].rect;
    assert forall|i: int| 0 <= i < n0 implies #[trigger] node_ok_in(t0, d0.len() as int, i) by {
        assert(a.node_ok(i));
    }
    assert(b.boxes_named_once()) by {
        assert forall|j: int| 0 <= j < n0 && j != c implies #[trigger] ns[j] == t0[j] by {}
        assert forall|j: int| 0 <= j < n0 implies #[trigger] ns[j].parent == t0[j].parent by {}
        reveal(SlicingTree::boxes_named_once);
        assert forall|i: int, j: int|
            0 <= i < ns.len() && 0 <= j < ns.len() && (#[trigger] ns[i]).rect is Some
                && (#[trigger] ns[j]).rect == ns[i].rect implies i == j by {
            if i < n0 {
                assert(i != c);
                assert(ns[i] == t0[i]);
                assert(node_ok_in(t0, d0.len() as int, i));
            }
            if j < n0 {
                assert(j != c);
                assert(ns[j] == t0[j]);
                assert(node_ok_in(t0, d0.len() as int, j));
            }
            if i < n0 && j < n0 {
                assert(t0[j].rect == t0[i].rect);
            } else if i < n0 {
                assert(t0[i].rect != rc);
            } else if j < n0 {
                assert(t0[j].rect != rc);
            }
        }
        assert forall|k: int| 0 <= k < b.data@.len() implies #[trigger] b.box_named(k) by {
            if k == r {
                assert(ns[n0].rect == Some(k as usize));
            } else if k == d0.len() {
                assert(ns[n0 + 1].rect == Some(k as usize));
            } else {
                assert(k < d0.len());
                assert(a.box_named(k));
                let i = choose|i: int| 0 <= i < n0 && (#[trigger] t0[i]).rect == Some(k as usize);
                assert(i != c);
                assert(ns[i].rect == Some(k as usize));
            }
        }
    }
}

/// The box that the cuts above node `i` carve out of `root`: the root's box
/// for a node without a parent, else a half of the parent's box under the
/// parent's cut.
pub open spec fn box_in(nodes: Seq<Node>, i: int, root: Dims) -> Dims
    decreases i,
{
    if 0 <= i < nodes.len() {
        match nodes[i].parent {
            Some(p) => if p < i {
                half_of(box_in(nodes, p as int, root), nodes[p as int].cut->0)
            } else {
                root
            },
            None => root,
        }
    } else {
        root
    }
}

/// Turning leaf `c` into an internal node and adding nodes after the old
/// ones leaves the box of every old node as it was.
proof fn lemma_box_stable(t0: Seq<Node>, ns: Seq<Node>, c: int, root: Dims, i: int)
    requires
        t0.len() <= ns.len(),
        0 <= c < t0.len(),
        0 <= i < t0.len(),
        forall|j: int| 0 <= j < t0.len() && j != c ==> #[trigger] ns[j] == t0[j],
        forall|j: int| 0 <= j < t0.len() ==> #[trigger] ns[j].parent == t0[j].parent,
        forall|j: int| 0 <= j < t0.len() && (#[trigger] t0[j]).parent is Some ==> t0[j].parent->0 != c,
    ensures
        box_in(ns, i, root) == box_in(t0, i, root),
    decreases i,
{
    assert(ns[i].parent == t0[i].parent);
    match t0[i].parent {
        Some(p) => {
            if p < i {
                lemma_box_stable(t0, ns, c, root, p as int);
                assert(ns[p as int] == t0[p as int]);
            }
        },
        None => {},
    }
}

/// Reading the postfix form of a subtree pushes exactly its enclosing box.
pub proof fn lemma_subtree_run(tree: &SlicingTree, i: int, st: Seq<Dims>)
    requires
        tree.wf(),
        0 <= i < tree.nodes@.len(),
    ensures
        run(st, tree.postorder_of(i), tree.data@) == st.push(tree.aabb_of(i)),
    decreases tree.nodes@.len() - i,
{
    assert(tree.node_ok(i));
    let nd = tree.nodes@[i];
    match nd.rect {
        Some(r) => {
            let s = tree.postorder_of(i);
            assert(s == seq![TreeItem::Rect(r)]);
            assert(s[0] == TreeItem::Rect(r));
            assert(tree.aabb_of(i) == tree.data@[r as int]@);
            assert(s.drop_first() =~= Seq::<TreeItem>::empty());
            assert(run(st, s, tree.data@) == run(st.push(tree.data@[r as int]@), s.drop_first(), tree.data@));
            assert(run(st.push(tree.data@[r as int]@), s.drop_first(), tree.data@) == st.push(tree.data@[r as int]@));
        },
        None => {
            let l = nd.left->0 as int;
            let r = nd.right->0 as int;
            let pl = tree.postorder_of(l);
            let pr = tree.postorder_of(r);
            let tail = seq![TreeItem::Cut(nd.cut->0)];
            lemma_subtree_run(tree, l, st);
            lemma_subtree_run(tree, r, st.push(tree.aabb_of(l)));
            lemma_run_concat(st, pl, pr, tree.data@);
            lemma_run_concat(st, pl + pr, tail, tree.data@);
            let mid = st.push(tree.aabb_of(l)).push(tree.aabb_of(r));
            assert(tail.drop_first() =~= Seq::<TreeItem>::empty());
            assert(mid.take(mid.len() - 2) =~= st);
            assert(tree.postorder_of(i) == pl + pr + tail);
            assert(run(mid, tail, tree.data@) == run(step(mid, tail[0], tree.data@), tail.drop_first(), tree.data@));
            assert(run(step(mid, tail[0], tree.data@), tail.drop_first(), tree.data@) == step(mid, tail[0], tree.data@));
            assert(step(mid, tail[0], tree.data@) == st.push(tree.aabb_of(i)));
        },
    }
}

/// The postfix form of any subtree is decodable: it satisfies the ballot
/// property.
pub proof fn lemma_postorder_skewed(tree: &SlicingTree, i: int)
    requires
        tree.wf(),
        0 <= i < tree.nodes@.len(),
    ensures
        skewed(kinds(tree.postorder_of(i))),
    decreases tree.nodes@.len() - i,
{
    assert(tree.node_ok(i));
    let nd = tree.nodes@[i];
    let s = tree.postorder_of(i);
    let k = kinds(s);
    match nd.rect {
        Some(r) => {
            assert(s == seq![TreeItem::Rect(r)]);
            assert(k =~= seq![false]);
            assert(k.drop_last() =~= Seq::<bool>::empty());
            assert(cut_count(k.drop_last()) == 0);
            assert(cut_count(k) == 0);
            assert(k.take(1) =~= k);
            assert forall|j: int| 1 <= j <= k.len() implies 2 * #[trigger] cut_count(k.take(j)) < j by {
                assert(j == 1);
            }
        },
        None => {
            let l = nd.left->0 as int;
            let r = nd.right->0 as int;
            lemma_postorder_skewed(tree, l);
            lemma_postorder_skewed(tree, r);
            let kl = kinds(tree.postorder_of(l));
            let kr = kinds(tree.postorder_of(r));
            let nl = kl.len() as int;
            let nr = kr.len() as int;
            assert(k =~= kl + kr + seq![true]);
            lemma_cut_count_concat(kl, kr);
            lemma_cut_count_concat(kl + kr, seq![true]);
            assert(seq![true].drop_last() =~= Seq::<bool>::empty());
            assert(cut_count(Seq::<bool>::empty()) == 0);
            assert(cut_count(seq![true]) == 1);
            assert forall|j: int| 1 <= j <= k.len() implies 2 * #[trigger] cut_count(k.take(j)) < j by {
                if j <= nl {
                    assert(k.take(j) =~= kl.take(j));
                } else if j <= nl + nr {
                    assert(k.take(j) =~= kl + kr.take(j - nl));
                    lemma_cut_count_concat(kl, kr.take(j - nl));
                    assert(kl.take(nl) =~= kl);
                } else {
                    assert(k.take(j) =~= k);
                }
            }
        },
    }
}

/// Where internal nodes are cut the other way from their parents,
/// the postfix form of a subtree is normalized; it starts with an operand and
/// ends with the subtree's own cut.
pub proof fn lemma_postorder_normalized(tree: &SlicingTree, i: int)
    requires
        tree.wf(),
        tree.links_ok(),
        tree.cuts_oppose_parents(),
        0 <= i < tree.nodes@.len(),
    ensures
        normalized(tree.postorder_of(i)),
        tree.postorder_of(i).len() > 0,
        tree.postorder_of(i)[0] is Rect,
        tree.nodes@[i].rect is Some ==> tree.postorder_of(i).last() is Rect,
        tree.nodes@[i].rect is None ==> tree.postorder_of(i).last() == TreeItem::Cut(
            tree.nodes@[i].cut->0,
        ),
    decreases tree.nodes@.len() - i,
{
    reveal(SlicingTree::links_ok);
    reveal(SlicingTree::cuts_oppose_parents);
    assert(tree.node_ok(i));
    let nd = tree.nodes@[i];
    let s = tree.postorder_of(i);
    match nd.rect {
        Some(r) => {
            assert(s == seq![TreeItem::Rect(r)]);
        },
        None => {
            let l = nd.left->0 as int;
            let r = nd.right->0 as int;
            lemma_postorder_normalized(tree, l);
            lemma_postorder_normalized(tree, r);
            let pl = tree.postorder_of(l);
            let pr = tree.postorder_of(r);
            let c = TreeItem::Cut(nd.cut->0);
            assert(s == pl + pr + seq![c]);
            assert(tree.node_ok(r));
            assert forall|x: int| 0 <= x && x + 1 < s.len() implies !#[trigger] clash(s, x) by {
                if x + 1 < pl.len() {
                    assert(s[x] == pl[x] && s[x + 1] == pl[x + 1]);
                    assert(!clash(pl, x));
                } else if x + 1 == pl.len() {
                    assert(s[x + 1] == pr[0]);
                } else if x + 1 < pl.len() + pr.len() {
                    let y = x - pl.len();
                    assert(s[x] == pr[y] && s[x + 1] == pr[y + 1]);
                    assert(!clash(pr, y));
                } else {
                    assert(s[x] == pr.last());
                    assert(s[x + 1] == c);
                }
            }
        },
    }
}

/// Every operand of the postfix form of a subtree names a box of the table.
pub proof fn lemma_postorder_operands(tree: &SlicingTree, i: int)
    requires
        tree.wf(),
        0 <= i < tree.nodes@.len(),
    ensures
        operands_in(tree.postorder_of(i), tree.data@.len() as int),
    decreases tree.nodes@.len() - i,
{
    assert(tree.node_ok(i));
    let nd = tree.nodes@[i];
    let s = tree.postorder_of(i);
    match nd.rect {
        Some(r) => {
            assert(s == seq![TreeItem::Rect(r)]);
        },
        None => {
            let l = nd.left->0 as int;
            let r = nd.right->0 as int;
            lemma_postorder_operands(tree, l);
            lemma_postorder_operands(tree, r);
            let pl = tree.postorder_of(l);
            let pr = tree.postorder_of(r);
            assert(s == pl + pr + seq![TreeItem::Cut(nd.cut->0)]);
            assert forall|j: int| 0 <= j < s.len() implies match #[trigger] s[j] {
                TreeItem::Rect(x) => x < tree.data@.len(),
                TreeItem::Cut(_) => true,
            } by {
                if j < pl.len() {
                    assert(s[j] == pl[j]);
                } else if j < pl.len() + pr.len() {
                    assert(s[j] == pr[j - pl.len()]);
                }
            }
        },
    }
}

/// Decoding agreement: evaluating the postfix form of a tree gives exactly the
/// enclosing box that the tree itself describes.
pub proof fn lemma_decode_agreement(tree: &SlicingTree)
    requires
        tree.wf(),
    ensures
        run(seq![], tree.postorder_of(0), tree.data@) == seq![tree.aabb_of(0)],
{
    lemma_subtree_run(tree, 0, seq![]);
    assert(Seq::<Dims>::empty().push(tree.aabb_of(0)) =~= seq![tree.aabb_of(0)]);
}

} // verus!
