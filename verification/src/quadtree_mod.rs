//! The quadtree: an append-only arena of nodes, each a leaf that lists point
//! indices or an internal node with four children, built once from a point
//! set and then only read.
//!
//! The tree never stores coordinates, only indices into the point set it was
//! built from; that point set is handed to every operation that needs
//! coordinates.

use vstd::prelude::*;
use std::collections::HashSet;
use vstd::layout::size_of;
use crate::slicing_tools::{
    contained, copy_points, is_contained_in, opt_view, Point, QhullError, slice_in_two,
};
use crate::point_in_polygon::find_bounds;
use crate::query_model::{
    all_in_domain, chosen_part, inside_below, is_box, lemma_box_reaches, listed_inside,
    polygon_reaches, query_result, rectangle_corners, same_points, sort_points, sorted_vertices,
    takes_whole, walk_child, walk_result,
};
use crate::laws::{found_between, lemma_leaf_subtree, lemma_listed_is_covered, lemma_query};
use crate::distance::{
    best_view, box_dist2, dist2, nearest_spec, nn_children_spec, nn_search_spec, scan_points,
};
use crate::tree_model::{
    built_from, changed_within, child_at, child_ok, connected, covers, crowded, desc, desc_below,
    extends, grown_below, in_quadrant, increasing, indices_below, inside, is_leaf, leaf_fits,
    leaf_lists, lemma_cell_units, lemma_cell_units_root, lemma_child_region, lemma_covers_shrinks,
    lemma_desc_extends, lemma_grown_on, lemma_leaf_relisted, lemma_lists_from_children,
    lemma_lists_to_child, lemma_lists_uncovered, lemma_lists_untouched, lemma_pending_push,
    lemma_sibling_apart, lemma_split_shape, lemma_take_set_step, MAX, MAX_DEPTH, minimal, node_ok,
    NodeView, own_points, pending_points, pending_size, quadrant_leaf, ROOT_HALF_HEIGHT,
    ROOT_HALF_WIDTH, sound, split_at, split_shape, subtree_lists, subtree_points, subtree_size,
    wf, wf_except, witnesses,
};

verus! {

/// One node of the arena.
#[derive(Debug)]
pub struct QuadTreeNode {
    points: Option<Vec<usize>>,
    children: Vec<usize>,
    center: Point,
    size: Point,
    depth: i32,
}

/// The quadtree: the arena of its nodes, the root at index 0.
#[derive(Debug)]
pub struct QuadTree {
    nodes: Vec<QuadTreeNode>,
}

impl View for QuadTreeNode {
    type V = NodeView;

    closed spec fn view(&self) -> NodeView {
        NodeView {
            center: self.center,
            half_size: self.size,
            depth: self.depth as int,
            points: match self.points {
                Some(v) => Some(v@),
                None => None,
            },
            children: self.children@,
        }
    }
}

impl View for QuadTree {
    type V = Seq<NodeView>;

    closed spec fn view(&self) -> Seq<NodeView> {
        Seq::new(self.nodes@.len(), |i: int| self.nodes@[i]@)
    }
}

/// The bytes that a node takes: the node itself and one index for each
/// point it lists and each child it has.
pub open spec fn node_bytes(n: NodeView) -> nat {
    size_of::<QuadTreeNode>() + own_points(n).len() * size_of::<usize>() + n.children.len()
        * size_of::<usize>()
}

/// The bytes that the first `n` nodes of a tree take.
pub open spec fn nodes_bytes(t: Seq<NodeView>, n: nat) -> nat
    decreases n,
{
    if n == 0 {
        0
    } else {
        nodes_bytes(t, (n - 1) as nat) + node_bytes(t[n - 1])
    }
}

/// The bytes that a tree takes: the tree itself, the arena with room for
/// each node, and what each node takes.
pub open spec fn tree_bytes(t: Seq<NodeView>) -> nat {
    size_of::<QuadTree>() + t.len() * size_of::<QuadTreeNode>() + nodes_bytes(t, t.len())
}

/// The bytes that the first `n` nodes take are no more than what more nodes
/// take.
pub proof fn lemma_nodes_bytes_grow(t: Seq<NodeView>, n: nat, m: nat)
    requires
        n <= m,
    ensures
        nodes_bytes(t, n) <= nodes_bytes(t, m),
    decreases m,
{
    if n < m {
        lemma_nodes_bytes_grow(t, n, (m - 1) as nat);
    }
}

impl QuadTreeNode {
    /// The bytes that the node takes, or `None` where their number does not
    /// fit the machine's word.
    pub fn sizeof(&self) -> (size: Option<usize>)
        ensures
            size matches Some(bytes) ==> bytes == node_bytes(self@),
            size is None ==> node_bytes(self@) > usize::MAX,
    {
        let word = core::mem::size_of::<usize>();
        let listed = match &self.points {
            Some(points) => points.len(),
            None => 0,
        };
        let points_size = match listed.checked_mul(word) {
            Some(bytes) => bytes,
            None => {
                return None;
            },
        };
        let children_size = match self.children.len().checked_mul(word) {
            Some(bytes) => bytes,
            None => {
                return None;
            },
        };
        let size = match core::mem::size_of::<QuadTreeNode>().checked_add(points_size) {
            Some(bytes) => bytes,
            None => {
                return None;
            },
        };
        size.checked_add(children_size)
    }
}

impl QuadTree {
    /// The bytes that the tree takes, or `None` where their number does not
    /// fit the machine's word.
    pub fn sizeof(&self) -> (size: Option<usize>)
        ensures
            size matches Some(bytes) ==> bytes == tree_bytes(self@),
            size is None ==> tree_bytes(self@) > usize::MAX,
    {
        proof {
            self.lemma_view();
        }
        let nodes_size = match self.nodes.len().checked_mul(core::mem::size_of::<QuadTreeNode>()) {
            Some(bytes) => bytes,
            None => {
                return None;
            },
        };
        let mut size = match core::mem::size_of::<QuadTree>().checked_add(nodes_size) {
            Some(bytes) => bytes,
            None => {
                return None;
            },
        };
        let ghost base = size;
        let mut i: usize = 0;
        while i < self.nodes.len()
            invariant
                i <= self.nodes@.len(),
                self@.len() == self.nodes@.len(),
                forall|j: int| 0 <= j < self.nodes@.len() ==> self@[j] == (#[trigger] self.nodes@[j])@,
                base == size_of::<QuadTree>() + self@.len() * size_of::<QuadTreeNode>(),
                size == base + nodes_bytes(self@, i as nat),
            decreases self.nodes.len() - i,
        {
            proof {
                lemma_nodes_bytes_grow(self@, (i + 1) as nat, self@.len());
            }
            let node_size = match self.nodes[i].sizeof() {
                Some(bytes) => bytes,
                None => {
                    return None;
                },
            };
            size = match size.checked_add(node_size) {
                Some(bytes) => bytes,
                None => {
                    return None;
                },
            };
            i += 1;
        }
        Some(size)
    }

    /// The tree as plain values is the arena's nodes, in order.
    proof fn lemma_view(&self)
        ensures
            self@.len() == self.nodes@.len(),
            forall|i: int| 0 <= i < self.nodes@.len() ==> self@[i] == (#[trigger] self.nodes@[i])@,
    {
    }

    /// An empty tree.
    pub fn new() -> (tree: Self)
        ensures
            tree@.len() == 0,
    {
        QuadTree { nodes: Vec::new() }
    }

    /// The number of nodes in the arena.
    pub fn len(&self) -> (n: usize)
        ensures
            n == self@.len(),
    {
        self.nodes.len()
    }

    /// Appends a new leaf with an empty point list and hands back its index.
    fn create_node(&mut self, center: Point, size: Point, depth: i32) -> (index: usize)
        ensures
            index == old(self)@.len(),
            final(self)@ == old(self)@.push(
                NodeView {
                    center,
                    half_size: size,
                    depth: depth as int,
                    points: Some(Seq::empty()),
                    children: Seq::empty(),
                },
            ),
    {
        let index = self.nodes.len();
        self.nodes.push(
            QuadTreeNode { points: Some(Vec::new()), children: Vec::new(), center, size, depth },
        );
        assert(self@ =~= old(self)@.push(
            NodeView {
                center,
                half_size: size,
                depth: depth as int,
                points: Some(Seq::empty()),
                children: Seq::empty(),
            },
        ));
        index
    }

    /// Lists a point index at a leaf, unless the leaf lists it already.
    fn add_point_to_node(&mut self, index: usize, point_idx: usize)
        requires
            index < old(self)@.len(),
            old(self)@[index as int].points is Some,
        ensures
            final(self)@ == old(self)@.update(
                index as int,
                NodeView {
                    points: Some(
                        if own_points(old(self)@[index as int]).contains(point_idx) {
                            own_points(old(self)@[index as int])
                        } else {
                            own_points(old(self)@[index as int]).push(point_idx)
                        },
                    ),
                    ..old(self)@[index as int]
                },
            ),
    {
        let present = match &self.nodes[index].points {
            Some(list) => contains_index(list, point_idx),
            None => true,
        };
        if !present {
            match &mut self.nodes[index].points {
                Some(list) => {
                    list.push(point_idx);
                },
                None => {},
            }
        }
        assert(self@ =~= old(self)@.update(
            index as int,
            NodeView {
                points: Some(
                    if own_points(old(self)@[index as int]).contains(point_idx) {
                        own_points(old(self)@[index as int])
                    } else {
                        own_points(old(self)@[index as int]).push(point_idx)
                    },
                ),
                ..old(self)@[index as int]
            },
        ));
    }

    /// Appends a new empty leaf and makes it the next child of a node.
    fn add_child(&mut self, node_idx: usize, center: Point, size: Point, depth: i32)
        requires
            node_idx < old(self)@.len(),
        ensures
            final(self)@ == old(self)@.push(
                NodeView {
                    center,
                    half_size: size,
                    depth: depth as int,
                    points: Some(Seq::empty()),
                    children: Seq::empty(),
                },
            ).update(
                node_idx as int,
                NodeView {
                    children: old(self)@[node_idx as int].children.push(
                        old(self)@.len() as usize,
                    ),
                    ..old(self)@[node_idx as int]
                },
            ),
    {
        let child_idx = self.create_node(center, size, depth);
        let ghost mid = self@;
        let ghost before = self.nodes@;
        assert(before.len() == mid.len());
        assert(forall|i: int| 0 <= i < before.len() ==> mid[i] == (#[trigger] before[i])@);
        self.nodes[node_idx].children.push(child_idx);
        assert(self.nodes@.len() == before.len());
        assert(forall|i: int|
            0 <= i < before.len() && i != node_idx ==> #[trigger] self.nodes@[i] == before[i]);
        assert(self.nodes@[node_idx as int]@ == NodeView {
            children: mid[node_idx as int].children.push(child_idx),
            ..mid[node_idx as int]
        });
        assert(self@ =~= old(self)@.push(
            NodeView {
                center,
                half_size: size,
                depth: depth as int,
                points: Some(Seq::empty()),
                children: Seq::empty(),
            },
        ).update(
            node_idx as int,
            NodeView {
                children: old(self)@[node_idx as int].children.push(old(self)@.len() as usize),
                ..old(self)@[node_idx as int]
            },
        ));
    }

    /// Takes the point list away from a node, leaving it without one.
    fn take_points(&mut self, node_idx: usize) -> (points: Vec<usize>)
        requires
            node_idx < old(self)@.len(),
        ensures
            points@ == own_points(old(self)@[node_idx as int]),
            final(self)@ == old(self)@.update(
                node_idx as int,
                NodeView { points: None, ..old(self)@[node_idx as int] },
            ),
    {
        let taken = self.nodes[node_idx].points.take();
        assert(self@ =~= old(self)@.update(
            node_idx as int,
            NodeView { points: None, ..old(self)@[node_idx as int] },
        ));
        match taken {
            Some(list) => list,
            None => Vec::new(),
        }
    }

    /// Inserts a point index into the subtree of a node.
    ///
    /// At a leaf the index is listed, unless it is listed already; a leaf
    /// above the greatest depth that then holds more than `MAX` points is
    /// split. At an internal node the index goes to every child whose
    /// quadrant holds the point.
    ///
    /// The ghost set `s` holds the indices that the subtree has taken in so
    /// far, none of them above the new one; `bound` lies above every index
    /// that the tree lists. An index that the subtree has taken in already
    /// leaves the arena as it is.
    fn insert(
        &mut self,
        pt_index: usize,
        node_idx: usize,
        pts_ref: &Vec<Point>,
        Ghost(bound): Ghost<int>,
        Ghost(s): Ghost<Set<usize>>,
    )
        requires
            wf(old(self)@),
            node_idx < old(self)@.len(),
            pt_index < pts_ref@.len(),
            pt_index < bound,
            forall|x: usize| s.contains(x) ==> x <= pt_index,
            sound(old(self)@, pts_ref@, bound),
            minimal(old(self)@, pts_ref@, bound),
            covers(old(self)@[node_idx as int], pts_ref@[pt_index as int]),
            subtree_lists(old(self)@, pts_ref@, node_idx as int, s),
        ensures
            wf(final(self)@),
            extends(old(self)@, final(self)@),
            changed_within(old(self)@, final(self)@, node_idx as int),
            sound(final(self)@, pts_ref@, bound),
            minimal(final(self)@, pts_ref@, bound),
            grown_below(old(self)@, final(self)@, node_idx as int),
            subtree_lists(final(self)@, pts_ref@, node_idx as int, s.insert(pt_index)),
            s.contains(pt_index) ==> final(self)@ == old(self)@,
        decreases MAX_DEPTH - old(self)@[node_idx as int].depth, 2int,
    {
        let ghost t0 = self@;
        proof {
            self.lemma_view();
            assert(node_ok(t0, node_idx as int));
        }
        if self.nodes[node_idx].children.is_empty() {
            self.add_point_to_node(node_idx, pt_index);
            let ghost t1 = self@;
            let ghost list = own_points(t1[node_idx as int]);
            proof {
                let before = own_points(t0[node_idx as int]);
                assert(desc(t0, node_idx as int, node_idx as int));
                assert(leaf_lists(t0[node_idx as int], pts_ref@, s));
                assert(before.contains(pt_index) <==> s.contains(pt_index));
                if s.contains(pt_index) {
                    assert(list == before);
                    assert(t1 =~= t0);
                    assert(s.insert(pt_index) =~= s);
                    assert(leaf_fits(t0[node_idx as int]));
                } else {
                    assert(list == before.push(pt_index));
                }
                assert(increasing(list)) by {
                    assert forall|i: int, j: int| 0 <= i < j < list.len() implies list[i]
                        < list[j] by {
                        if j == before.len() {
                            assert(before.contains(before[i]));
                        }
                    }
                }
                lemma_leaf_relisted(t0, node_idx as int, list);
                assert(wf_except(t1, node_idx as int)) by {
                    assert forall|i: int| 0 <= i < t1.len() && i != node_idx implies leaf_fits(
                        #[trigger] t1[i],
                    ) by {
                        assert(leaf_fits(t0[i]));
                    }
                }
                assert(sound(t1, pts_ref@, bound)) by {
                    assert forall|m: int, j: int|
                        0 <= m < t1.len() && 0 <= j < own_points(t1[m]).len() implies {
                        let i = #[trigger] own_points(t1[m])[j];
                        i < bound && i < pts_ref@.len() && covers(t1[m], pts_ref@[i as int])
                    } by {
                        if m == node_idx && j == before.len() && !s.contains(pt_index) {
                        } else {
                            assert(own_points(t1[m])[j] == own_points(t0[m])[j]);
                        }
                    }
                }
                assert(minimal(t1, pts_ref@, bound)) by {
                    assert forall|m: int| 0 <= m < t1.len() && !is_leaf(
                        #[trigger] t1[m],
                    ) implies crowded(t1[m], pts_ref@, bound) by {
                        assert(t1[m] == t0[m]);
                    }
                }
                assert(leaf_lists(t1[node_idx as int], pts_ref@, s.insert(pt_index))) by {
                    assert forall|i: usize| #[trigger]
                        list.contains(i) <==> s.insert(pt_index).contains(i) && i
                            < pts_ref@.len() && covers(
                            t1[node_idx as int],
                            pts_ref@[i as int],
                        ) by {
                        assert(before.contains(i) <==> s.contains(i) && i < pts_ref@.len()
                            && covers(t0[node_idx as int], pts_ref@[i as int]));
                        if list.contains(i) {
                            let j = choose|j: int| 0 <= j < list.len() && list[j] == i;
                            if j < before.len() {
                                assert(before[j] == i);
                            }
                        }
                        if before.contains(i) {
                            let j = choose|j: int| 0 <= j < before.len() && before[j] == i;
                            assert(list[j] == i);
                        }
                        if !s.contains(pt_index) {
                            assert(list[before.len() as int] == pt_index);
                        }
                    }
                }
            }
            let points_len = self.get_points_length(node_idx);
            let depth = self.get_depth(node_idx);
            if points_len > MAX && depth < MAX_DEPTH {
                self.split(node_idx, pts_ref, Ghost(bound), Ghost(s.insert(pt_index)));
                proof {
                    let t2 = self@;
                    assert(extends(t0, t2));
                    assert(changed_within(t0, t2, node_idx as int)) by {
                        assert forall|m: int| 0 <= m < t0.len() && #[trigger] t2[m]
                            != t0[m] implies inside(t0[m], t0[node_idx as int]) by {
                            if t1[m] != t0[m] {
                            } else {
                                assert(t2[m] != t1[m]);
                            }
                        }
                    }
                }
            } else {
                proof {
                    assert(wf(t1)) by {
                        assert forall|i: int| 0 <= i < t1.len() implies leaf_fits(
                            #[trigger] t1[i],
                        ) by {
                            if i != node_idx {
                                assert(leaf_fits(t0[i]));
                            }
                        }
                    }
                    assert(subtree_lists(t1, pts_ref@, node_idx as int, s.insert(pt_index))) by {
                        assert forall|m: int|
                            0 <= m < t1.len() && #[trigger] desc(t1, node_idx as int, m)
                                && is_leaf(t1[m]) implies leaf_lists(
                            t1[m],
                            pts_ref@,
                            s.insert(pt_index),
                        ) by {
                            assert(!desc_below(t1, node_idx as int, m, 0));
                            assert(!desc_below(t1, node_idx as int, m, 1));
                            assert(!desc_below(t1, node_idx as int, m, 2));
                            assert(!desc_below(t1, node_idx as int, m, 3));
                        }
                    }
                }
            }
        } else {
            self.insert_into_children(pt_index, node_idx, pts_ref, Ghost(bound), Ghost(s));
        }
    }

    /// Hands a point index on to every child of an internal node whose
    /// quadrant holds the point: the lines through the center belong to the
    /// quadrants on both sides.
    fn insert_into_children(
        &mut self,
        pt_index: usize,
        node_idx: usize,
        pts_ref: &Vec<Point>,
        Ghost(bound): Ghost<int>,
        Ghost(s): Ghost<Set<usize>>,
    )
        requires
            wf(old(self)@),
            node_idx < old(self)@.len(),
            !is_leaf(old(self)@[node_idx as int]),
            pt_index < pts_ref@.len(),
            pt_index < bound,
            forall|x: usize| s.contains(x) ==> x <= pt_index,
            sound(old(self)@, pts_ref@, bound),
            minimal(old(self)@, pts_ref@, bound),
            covers(old(self)@[node_idx as int], pts_ref@[pt_index as int]),
            subtree_lists(old(self)@, pts_ref@, node_idx as int, s),
        ensures
            wf(final(self)@),
            extends(old(self)@, final(self)@),
            changed_within(old(self)@, final(self)@, node_idx as int),
            sound(final(self)@, pts_ref@, bound),
            minimal(final(self)@, pts_ref@, bound),
            grown_below(old(self)@, final(self)@, node_idx as int),
            subtree_lists(final(self)@, pts_ref@, node_idx as int, s.insert(pt_index)),
            s.contains(pt_index) ==> final(self)@ == old(self)@,
        decreases MAX_DEPTH - old(self)@[node_idx as int].depth, 0int,
    {
        let ghost t0 = self@;
        let ghost p = pts_ref@[pt_index as int];
        let (x, y) = pts_ref[pt_index];
        let (cx, cy) = self.get_center(node_idx);
        let child_idxs = self.get_children_idxs(node_idx);
        proof {
            assert(node_ok(t0, node_idx as int));
            assert forall|j: int| 0 <= j < 4 implies #[trigger] subtree_lists(
                t0,
                pts_ref@,
                t0[node_idx as int].children[j] as int,
                s,
            ) by {
                lemma_lists_to_child(t0, pts_ref@, node_idx as int, j, s);
            }
        }
        let mut k: usize = 0;
        while k < 4
            invariant
                k <= 4,
                node_idx < t0.len(),
                pt_index < pts_ref@.len(),
                pt_index < bound,
                forall|x: usize| s.contains(x) ==> x <= pt_index,
                p == pts_ref@[pt_index as int],
                p == (x, y),
                (cx, cy) == t0[node_idx as int].center,
                child_idxs@ == t0[node_idx as int].children,
                child_idxs@.len() == 4,
                !is_leaf(t0[node_idx as int]),
                covers(t0[node_idx as int], p),
                wf(t0),
                wf(self@),
                extends(t0, self@),
                changed_within(t0, self@, node_idx as int),
                sound(self@, pts_ref@, bound),
                minimal(self@, pts_ref@, bound),
                grown_below(t0, self@, node_idx as int),
                s.contains(pt_index) ==> self@ == t0,
                self@[node_idx as int] == t0[node_idx as int],
                forall|j: int|
                    0 <= j < k ==> #[trigger] subtree_lists(
                        self@,
                        pts_ref@,
                        t0[node_idx as int].children[j] as int,
                        s.insert(pt_index),
                    ),
                forall|j: int|
                    k <= j < 4 ==> #[trigger] subtree_lists(
                        self@,
                        pts_ref@,
                        t0[node_idx as int].children[j] as int,
                        s,
                    ),
                MAX_DEPTH - self@[node_idx as int].depth == MAX_DEPTH - old(self)@[node_idx as int].depth,
            decreases 4 - k,
        {
            let ghost ta = self@;
            let child = child_idxs[k];
            let goes = (if k < 2 {
                x <= cx
            } else {
                x >= cx
            }) && (if k % 2 == 0 {
                y <= cy
            } else {
                y >= cy
            });
            proof {
                assert(node_ok(ta, node_idx as int));
                assert(child_ok(ta, node_idx as int, k as int));
                lemma_child_region(ta, node_idx as int, k as int, p);
                assert(goes == in_quadrant(ta[node_idx as int], k as int, p));
                assert(subtree_lists(ta, pts_ref@, child as int, s));
            }
            if goes {
                self.insert(pt_index, child, pts_ref, Ghost(bound), Ghost(s));
            } else {
                proof {
                    lemma_lists_uncovered(ta, pts_ref@, child as int, s, pt_index);
                }
            }
            proof {
                let tb = self@;
                assert(extends(t0, tb));
                assert(tb[node_idx as int] == ta[node_idx as int]);
                assert(child_at(tb, node_idx as int, k as int) == Some(child as int));
                assert(desc(tb, child as int, child as int));
                assert(desc_below(tb, node_idx as int, child as int, k as int));
                lemma_grown_on(t0, ta, tb, node_idx as int, child as int);
                assert(changed_within(t0, tb, node_idx as int)) by {
                    assert forall|m: int| 0 <= m < t0.len() && #[trigger] tb[m]
                        != t0[m] implies inside(t0[m], t0[node_idx as int]) by {
                        if ta[m] != t0[m] {
                        } else {
                            assert(tb[m] != ta[m]);
                            assert(inside(ta[m], ta[child as int]));
                        }
                    }
                }
                assert forall|j: int| 0 <= j < 4 && j != k implies (subtree_lists(
                    ta,
                    pts_ref@,
                    t0[node_idx as int].children[j] as int,
                    s,
                ) ==> subtree_lists(tb, pts_ref@, t0[node_idx as int].children[j] as int, s))
                    && (subtree_lists(
                    ta,
                    pts_ref@,
                    t0[node_idx as int].children[j] as int,
                    s.insert(pt_index),
                ) ==> subtree_lists(
                    tb,
                    pts_ref@,
                    t0[node_idx as int].children[j] as int,
                    s.insert(pt_index),
                )) by {
                    let cj = t0[node_idx as int].children[j] as int;
                    assert(child_ok(ta, node_idx as int, j));
                    assert forall|i: int| 0 <= i < ta.len() && desc(ta, cj, i) implies tb[i]
                        == ta[i] by {
                        lemma_sibling_apart(ta, node_idx as int, j, k as int, i);
                    }
                    if subtree_lists(ta, pts_ref@, cj, s) {
                        lemma_lists_untouched(ta, tb, pts_ref@, cj, s);
                    }
                    if subtree_lists(ta, pts_ref@, cj, s.insert(pt_index)) {
                        lemma_lists_untouched(ta, tb, pts_ref@, cj, s.insert(pt_index));
                    }
                }
            }
            k += 1;
        }
        proof {
            lemma_lists_from_children(self@, pts_ref@, node_idx as int, s.insert(pt_index));
        }
    }

    /// Turns a leaf that holds more than `MAX` points into an internal node:
    /// its four quadrants become new leaves, one level deeper, the next
    /// four nodes of the arena in the order bottom-left, top-left,
    /// bottom-right, top-right, and every point it listed is handed on to
    /// them.
    fn split(
        &mut self,
        node_idx: usize,
        pts_ref: &Vec<Point>,
        Ghost(bound): Ghost<int>,
        Ghost(s): Ghost<Set<usize>>,
    )
        requires
            wf_except(old(self)@, node_idx as int),
            node_idx < old(self)@.len(),
            is_leaf(old(self)@[node_idx as int]),
            old(self)@[node_idx as int].depth < MAX_DEPTH,
            own_points(old(self)@[node_idx as int]).len() > MAX,
            sound(old(self)@, pts_ref@, bound),
            minimal(old(self)@, pts_ref@, bound),
            leaf_lists(old(self)@[node_idx as int], pts_ref@, s),
        ensures
            wf(final(self)@),
            extends(old(self)@, final(self)@),
            changed_within(old(self)@, final(self)@, node_idx as int),
            sound(final(self)@, pts_ref@, bound),
            minimal(final(self)@, pts_ref@, bound),
            grown_below(old(self)@, final(self)@, node_idx as int),
            split_at(old(self)@, final(self)@, node_idx as int),
            subtree_lists(final(self)@, pts_ref@, node_idx as int, s),
        decreases MAX_DEPTH - old(self)@[node_idx as int].depth, 1int,
    {
        let ghost t0 = self@;
        proof {
            self.lemma_view();
            assert(node_ok(t0, node_idx as int));
            lemma_cell_units(t0[node_idx as int].depth);
            lemma_cell_units(t0[node_idx as int].depth + 1);
        }
        let (w, h) = self.get_size(node_idx);
        let (x_center, y_center) = self.get_center(node_idx);
        let node_depth = self.get_depth(node_idx);
        let (hx, hy) = (w / 2, h / 2);
        self.add_child(node_idx, (x_center - hx, y_center - hy), (hx, hy), node_depth + 1);
        self.add_child(node_idx, (x_center - hx, y_center + hy), (hx, hy), node_depth + 1);
        self.add_child(node_idx, (x_center + hx, y_center - hy), (hx, hy), node_depth + 1);
        self.add_child(node_idx, (x_center + hx, y_center + hy), (hx, hy), node_depth + 1);
        let points = self.take_points(node_idx);
        let total = self.len();
        let ghost t1 = self@;
        proof {
            assert(total == t0.len() + 4);
            assert(t1 =~= split_shape(t0, node_idx as int)) by {
                assert(t1[node_idx as int].children =~= split_shape(
                    t0,
                    node_idx as int,
                )[node_idx as int].children);
            }
            lemma_split_shape(t0, node_idx as int);
            assert(wf(t1)) by {
                assert forall|i: int| 0 <= i < t1.len() implies leaf_fits(#[trigger] t1[i]) by {
                    if i < t0.len() && i != node_idx {
                        assert(leaf_fits(t0[i]));
                    } else if i >= t0.len() {
                        assert(t1[i] == quadrant_leaf(t0[node_idx as int], i - t0.len()));
                    }
                }
            }
            assert(sound(t1, pts_ref@, bound)) by {
                assert forall|m: int, j: int|
                    0 <= m < t1.len() && 0 <= j < own_points(t1[m]).len() implies {
                    let i = #[trigger] own_points(t1[m])[j];
                    i < bound && i < pts_ref@.len() && covers(t1[m], pts_ref@[i as int])
                } by {
                    if m < t0.len() && m != node_idx {
                        assert(own_points(t1[m])[j] == own_points(t0[m])[j]);
                    } else if m >= t0.len() {
                        assert(t1[m] == quadrant_leaf(t0[node_idx as int], m - t0.len()));
                    }
                }
            }
            assert(minimal(t1, pts_ref@, bound)) by {
                assert forall|m: int| 0 <= m < t1.len() && !is_leaf(
                    #[trigger] t1[m],
                ) implies crowded(t1[m], pts_ref@, bound) by {
                    if m == node_idx {
                        assert forall|j: int| 0 <= j < points@.len() implies (
                        #[trigger] points@[j]) < bound && points@[j] < pts_ref@.len() && covers(
                            t1[m],
                            pts_ref@[points@[j] as int],
                        ) by {
                            assert(own_points(t0[node_idx as int])[j] == points@[j]);
                        }
                        assert(witnesses(t1[m], pts_ref@, bound, points@));
                    } else if m < t0.len() {
                        assert(t1[m] == t0[m]);
                    } else {
                        assert(t1[m] == quadrant_leaf(t0[node_idx as int], m - t0.len()));
                    }
                }
            }
            assert(split_at(t0, t1, node_idx as int)) by {
                assert forall|k: int| 0 <= k < 4 implies (#[trigger] t1[t0.len() + k])
                    == quadrant_leaf(t0[node_idx as int], k) by {
                    assert(t1[node_idx as int].children[k] == t0.len() + k);
                }
            }
            assert(grown_below(t0, t1, node_idx as int)) by {
                assert forall|m: int| t0.len() <= m < t1.len() implies desc(
                    t1,
                    node_idx as int,
                    m,
                ) by {
                    let k = m - t0.len();
                    assert(t1[node_idx as int].children[k] == t0.len() + k);
                    assert(child_at(t1, node_idx as int, k) == Some(m));
                    assert(desc(t1, m, m));
                    assert(desc_below(t1, node_idx as int, m, k));
                }
            }
            assert(points@.take(0).to_set() =~= Set::<usize>::empty());
            assert forall|k: int| 0 <= k < 4 implies #[trigger] subtree_lists(
                t1,
                pts_ref@,
                t1[node_idx as int].children[k] as int,
                Set::<usize>::empty(),
            ) by {
                let c = t1[node_idx as int].children[k] as int;
                assert(t1[c] == quadrant_leaf(t0[node_idx as int], k));
                assert forall|m: int| 0 <= m < t1.len() && #[trigger] desc(t1, c, m) && is_leaf(
                    t1[m],
                ) implies leaf_lists(t1[m], pts_ref@, Set::<usize>::empty()) by {
                    assert(!desc_below(t1, c, m, 0));
                    assert(!desc_below(t1, c, m, 1));
                    assert(!desc_below(t1, c, m, 2));
                    assert(!desc_below(t1, c, m, 3));
                }
            }
            lemma_lists_from_children(t1, pts_ref@, node_idx as int, Set::<usize>::empty());
        }
        let mut j: usize = 0;
        while j < points.len()
            invariant
                j <= points@.len(),
                node_idx < t0.len(),
                points@ == own_points(t0[node_idx as int]),
                increasing(points@),
                sound(t0, pts_ref@, bound),
                wf(self@),
                extends(t0, self@),
                changed_within(t0, self@, node_idx as int),
                sound(self@, pts_ref@, bound),
                minimal(self@, pts_ref@, bound),
                grown_below(t0, self@, node_idx as int),
                split_at(t0, self@, node_idx as int),
                !is_leaf(self@[node_idx as int]),
                subtree_lists(self@, pts_ref@, node_idx as int, points@.take(j as int).to_set()),
                MAX_DEPTH - self@[node_idx as int].depth == MAX_DEPTH - old(self)@[node_idx as int].depth,
                old(self)@ == t0,
            decreases points.len() - j,
        {
            let ghost ta = self@;
            let point = points[j];
            proof {
                assert(own_points(t0[node_idx as int])[j as int] == point);
                lemma_take_set_step(points@, j as int);
                assert forall|x: usize| points@.take(j as int).to_set().contains(x) implies x
                    < point by {
                    let i = choose|i: int|
                        0 <= i < points@.take(j as int).len() && points@.take(j as int)[i] == x;
                    assert(points@[i] == x);
                }
            }
            self.insert_into_children(
                point,
                node_idx,
                pts_ref,
                Ghost(bound),
                Ghost(points@.take(j as int).to_set()),
            );
            proof {
                let tb = self@;
                assert(extends(t0, tb));
                assert(changed_within(t0, tb, node_idx as int)) by {
                    assert forall|m: int| 0 <= m < t0.len() && #[trigger] tb[m]
                        != t0[m] implies inside(t0[m], t0[node_idx as int]) by {
                        if ta[m] != t0[m] {
                        } else {
                            assert(tb[m] != ta[m]);
                        }
                    }
                }
                assert(desc(tb, node_idx as int, node_idx as int));
                lemma_grown_on(t0, ta, tb, node_idx as int, node_idx as int);
                assert(split_at(t0, tb, node_idx as int)) by {
                    assert(tb[node_idx as int] == ta[node_idx as int]);
                    assert forall|k: int| 0 <= k < 4 implies {
                        let child = #[trigger] tb[t0.len() + k];
                        &&& child.center == quadrant_leaf(t0[node_idx as int], k).center
                        &&& child.half_size == quadrant_leaf(t0[node_idx as int], k).half_size
                        &&& child.depth == t0[node_idx as int].depth + 1
                    } by {
                        assert(ta[t0.len() + k].center == quadrant_leaf(
                            t0[node_idx as int],
                            k,
                        ).center);
                    }
                }
            }
            j += 1;
        }
        proof {
            let t2 = self@;
            assert(points@.take(points@.len() as int) == points@);
            assert forall|m: int| 0 <= m < t2.len() && #[trigger] desc(t2, node_idx as int, m)
                && is_leaf(t2[m]) implies leaf_lists(t2[m], pts_ref@, s) by {
                assert(leaf_lists(t2[m], pts_ref@, points@.to_set()));
                assert forall|i: usize| #[trigger]
                    own_points(t2[m]).contains(i) <==> s.contains(i) && i < pts_ref@.len()
                        && covers(t2[m], pts_ref@[i as int]) by {
                    assert(own_points(t2[m]).contains(i) <==> points@.to_set().contains(i) && i
                        < pts_ref@.len() && covers(t2[m], pts_ref@[i as int]));
                    assert(points@.contains(i) <==> s.contains(i) && i < pts_ref@.len() && covers(
                        t0[node_idx as int],
                        pts_ref@[i as int],
                    ));
                    if i < pts_ref@.len() && covers(t2[m], pts_ref@[i as int]) {
                        lemma_covers_shrinks(t2, node_idx as int, m, pts_ref@[i as int]);
                    }
                }
            }
        }
    }

    /// Builds the tree from a point set: the root takes the whole domain,
    /// and the index of every point is inserted, in order.
    pub fn build_point_tree(&mut self, points: Vec<Point>)
        requires
            old(self)@.len() == 0,
        ensures
            built_from(final(self)@, points@),
    {
        self.create_node((0, 0), (ROOT_HALF_WIDTH, ROOT_HALF_HEIGHT), 0);
        proof {
            lemma_cell_units_root();
            let t = self@;
            assert(node_ok(t, 0));
            assert(wf(t));
            assert(subtree_lists(t, points@, 0, indices_below(0))) by {
                assert forall|m: int| 0 <= m < t.len() && #[trigger] desc(t, 0, m) && is_leaf(
                    t[m],
                ) implies leaf_lists(t[m], points@, indices_below(0)) by {}
            }
        }
        let mut index: usize = 0;
        while index < points.len()
            invariant
                index <= points@.len(),
                wf(self@),
                self@.len() > 0,
                connected(self@),
                sound(self@, points@, index as int),
                minimal(self@, points@, index as int),
                subtree_lists(self@, points@, 0, indices_below(index as int)),
            decreases points.len() - index,
        {
            let ghost before = self@;
            proof {
                lemma_cell_units_root();
                let t = self@;
                assert(node_ok(t, 0));
                assert(indices_below(index as int).insert(index) =~= indices_below(index as int + 1));
                assert(minimal(t, points@, index as int + 1)) by {
                    assert forall|m: int| 0 <= m < t.len() && !is_leaf(
                        #[trigger] t[m],
                    ) implies crowded(t[m], points@, index as int + 1) by {
                        assert(crowded(t[m], points@, index as int));
                        let w = choose|w: Seq<usize>| witnesses(t[m], points@, index as int, w);
                        assert(witnesses(t[m], points@, index as int + 1, w));
                    }
                }
            }
            self.insert(index, 0, &points, Ghost(index as int + 1), Ghost(indices_below(index as int)));
            proof {
                let after = self@;
                assert forall|m: int| 0 <= m < after.len() implies desc(after, 0, m) by {
                    if m < before.len() {
                        lemma_desc_extends(before, after, 0, m);
                    }
                }
            }
            index += 1;
        }
    }

    /// Appends to `results` every point index listed at or below a node.
    ///
    /// The walk keeps the nodes it has yet to visit on a stack of its own,
    /// so its depth does not grow with the tree. An index that several
    /// leaves list, because its point lies on a border between them, comes
    /// out once for each of them.
    pub fn collect_points(&self, results: &mut Vec<usize>, node_idx: usize)
        requires
            wf(self@),
            node_idx < self@.len(),
        ensures
            final(results)@ == old(results)@ + subtree_points(self@, node_idx as int),
    {
        let ghost t = self@;
        let ghost target = old(results)@ + subtree_points(t, node_idx as int);
        let mut stack: Vec<usize> = Vec::new();
        stack.push(node_idx);
        proof {
            lemma_pending_push(t, Seq::empty(), node_idx);
            assert(Seq::<usize>::empty().push(node_idx) == stack@);
            assert(pending_points(t, Seq::empty()) == Seq::<usize>::empty());
            assert(results@ + pending_points(t, stack@) == target);
        }
        while stack.len() > 0
            invariant
                t == self@,
                wf(t),
                forall|i: int| 0 <= i < stack@.len() ==> stack@[i] < t.len(),
                results@ + pending_points(t, stack@) == target,
            decreases pending_size(t, stack@),
        {
            let ghost before = stack@;
            let ghost found = results@;
            let current = stack.pop().unwrap();
            let ghost rest = stack@;
            proof {
                self.lemma_view();
                assert(rest == before.drop_last());
                assert(node_ok(t, current as int));
            }
            match &self.nodes[current].points {
                Some(list) => {
                    let mut i: usize = 0;
                    while i < list.len()
                        invariant
                            i <= list@.len(),
                            results@ == found + list@.take(i as int),
                        decreases list.len() - i,
                    {
                        results.push(list[i]);
                        assert(list@.take(i as int + 1) == list@.take(i as int).push(
                            list@[i as int],
                        ));
                        i += 1;
                    }
                    assert(list@.take(list@.len() as int) == list@);
                },
                None => {},
            }
            assert(results@ == found + own_points(t[current as int]));
            let children = &self.nodes[current].children;
            let mut k: usize = 0;
            while k < children.len()
                invariant
                    k <= children@.len(),
                    children@ == t[current as int].children,
                    current < t.len(),
                    node_ok(t, current as int),
                    forall|i: int| 0 <= i < stack@.len() ==> stack@[i] < t.len(),
                    stack@ == rest + children@.take(k as int),
                decreases children.len() - k,
            {
                proof {
                    assert(child_ok(t, current as int, k as int));
                    assert(children@.take(k as int + 1) == children@.take(k as int).push(
                        children@[k as int],
                    ));
                }
                stack.push(children[k]);
                k += 1;
            }
            proof {
                assert(children@.take(children@.len() as int) == children@);
                let own = own_points(t[current as int]);
                if is_leaf(t[current as int]) {
                    assert(stack@ == rest);
                    assert(child_at(t, current as int, 0) is None);
                    assert(child_at(t, current as int, 1) is None);
                    assert(child_at(t, current as int, 2) is None);
                    assert(child_at(t, current as int, 3) is None);
                    assert(subtree_points(t, current as int) == own);
                    assert(subtree_size(t, current as int) == 1);
                } else {
                    let c = children@;
                    assert(child_ok(t, current as int, 0));
                    assert(child_ok(t, current as int, 1));
                    assert(child_ok(t, current as int, 2));
                    assert(child_ok(t, current as int, 3));
                    assert(child_at(t, current as int, 0) == Some(c[0] as int));
                    assert(child_at(t, current as int, 1) == Some(c[1] as int));
                    assert(child_at(t, current as int, 2) == Some(c[2] as int));
                    assert(child_at(t, current as int, 3) == Some(c[3] as int));
                    assert(stack@ == rest.push(c[0]).push(c[1]).push(c[2]).push(c[3]));
                    lemma_pending_push(t, rest, c[0]);
                    lemma_pending_push(t, rest.push(c[0]), c[1]);
                    lemma_pending_push(t, rest.push(c[0]).push(c[1]), c[2]);
                    lemma_pending_push(t, rest.push(c[0]).push(c[1]).push(c[2]), c[3]);
                    assert(subtree_points(t, current as int) == own + subtree_points(
                        t,
                        c[3] as int,
                    ) + subtree_points(t, c[2] as int) + subtree_points(t, c[1] as int)
                        + subtree_points(t, c[0] as int));
                }
                assert(pending_points(t, before) == subtree_points(t, current as int)
                    + pending_points(t, rest));
                assert(results@ + pending_points(t, stack@) =~= found + pending_points(t, before));
            }
        }
        proof {
            assert(pending_points(t, stack@) == Seq::<usize>::empty());
            assert(results@ + Seq::<usize>::empty() =~= results@);
        }
    }

    /// Every point index listed at or below a node.
    pub fn find_nodes_in(&self, node_idx: usize) -> (results: Vec<usize>)
        requires
            wf(self@),
            node_idx < self@.len(),
        ensures
            results@ == subtree_points(self@, node_idx as int),
    {
        let mut results: Vec<usize> = Vec::new();
        self.collect_points(&mut results, node_idx);
        assert(Seq::<usize>::empty() + subtree_points(self@, node_idx as int) =~= subtree_points(
            self@,
            node_idx as int,
        ));
        results
    }

    /// The index of the stored point nearest to `query`, or `None` for a
    /// tree without points.
    ///
    /// Among points at the same least distance the one that the search
    /// meets first is returned.
    pub fn nearest_neighbor(&self, query: Point, quadtree_points: Vec<Point>) -> (nearest: Option<
        usize,
    >)
        requires
            wf(self@),
            sound(self@, quadtree_points@, quadtree_points@.len() as int),
        ensures
            nearest == nearest_spec(self@, query, quadtree_points@),
    {
        if self.nodes.len() == 0 {
            proof {
                self.lemma_view();
            }
            return None;
        }
        proof {
            self.lemma_view();
        }
        match self.nn_search(0, query, None, &quadtree_points) {
            Some(best) => Some(best.0),
            None => None,
        }
    }

    /// Lets the search go through a node, and hands back the best candidate
    /// after it.
    fn nn_search(
        &self,
        node_idx: usize,
        query: Point,
        best: Option<(usize, u128)>,
        quadtree_points: &Vec<Point>,
    ) -> (found: Option<(usize, u128)>)
        requires
            wf(self@),
            node_idx < self@.len(),
            sound(self@, quadtree_points@, quadtree_points@.len() as int),
        ensures
            best_view(found) == nn_search_spec(
                self@,
                node_idx as int,
                query,
                quadtree_points@,
                best_view(best),
            ),
        decreases self@.len() - node_idx,
    {
        let ghost t = self@;
        let ghost pts = quadtree_points@;
        proof {
            self.lemma_view();
            assert(node_ok(t, node_idx as int));
        }
        let node = &self.nodes[node_idx];
        match best {
            Some(b) => {
                if box_dist2(node.center, node.size, query) > b.1 {
                    return best;
                }
            },
            None => {},
        }
        match &node.points {
            Some(point_indices) => {
                let mut found = best;
                let mut i: usize = 0;
                while i < point_indices.len()
                    invariant
                        i <= point_indices@.len(),
                        node_idx < t.len(),
                        point_indices@ == own_points(t[node_idx as int]),
                        sound(t, pts, pts.len() as int),
                        pts == quadtree_points@,
                        best_view(found) == scan_points(
                            point_indices@,
                            pts,
                            query,
                            best_view(best),
                            i as nat,
                        ),
                    decreases point_indices.len() - i,
                {
                    let pi = point_indices[i];
                    assert(own_points(t[node_idx as int])[i as int] == pi);
                    let p = quadtree_points[pi];
                    let d2 = dist2(p, query);
                    match found {
                        Some(b) => {
                            if d2 < b.1 {
                                found = Some((pi, d2));
                            }
                        },
                        None => {
                            found = Some((pi, d2));
                        },
                    }
                    i += 1;
                }
                found
            },
            None => {
                let mut found = best;
                let mut k: usize = 0;
                while k < 4
                    invariant
                        k <= 4,
                        t == self@,
                        wf(t),
                        node_idx < t.len(),
                        !is_leaf(t[node_idx as int]),
                        node_ok(t, node_idx as int),
                        node.children@ == t[node_idx as int].children,
                        sound(t, pts, pts.len() as int),
                        pts == quadtree_points@,
                        best_view(found) == nn_children_spec(
                            t,
                            node_idx as int,
                            query,
                            pts,
                            best_view(best),
                            k as nat,
                        ),
                    decreases 4 - k,
                {
                    proof {
                        assert(child_ok(t, node_idx as int, k as int));
                    }
                    let child_idx = node.children[k];
                    found = self.nn_search(child_idx, query, found, quadtree_points);
                    k += 1;
                }
                found
            },
        }
    }

    /// The point indices that a polygon query finds at or below a node, each
    /// once. Without a polygon nothing is found, whatever the node index.
    ///
    /// A polygon whose vertices, sorted, are the four corners of the node's
    /// rectangle finds every index listed at or below the node, untested.
    /// Otherwise every listed point that the polygon contains, borders
    /// included, is found; where the point set lies in the domain nothing
    /// else is, and the result does not depend on how a cut is rounded. A
    /// listed point beyond the domain is found as well where the walk takes
    /// whole a node that lists it. The polygon is not checked for convexity:
    /// a point counts as inside by the vertical-slice test on the vertices
    /// as given. No error arises.
    pub fn query_polygon(
        &self,
        quadtree_points: Vec<Point>,
        node_idx: usize,
        polygon_points: Option<Vec<Point>>,
    ) -> (res: Result<HashSet<usize>, QhullError>)
        requires
            wf(self@),
            polygon_points is Some ==> node_idx < self@.len(),
            sound(self@, quadtree_points@, quadtree_points@.len() as int),
        ensures
            res matches Ok(found) && found@ == query_result(
                self@,
                quadtree_points@,
                node_idx as int,
                opt_view(polygon_points),
            ),
            res matches Ok(found) && (match opt_view(polygon_points) {
                Some(vertices) => {
                    &&& sorted_vertices(vertices) == rectangle_corners(self@[node_idx as int])
                        ==> found@ == subtree_points(self@, node_idx as int).to_set()
                    &&& all_in_domain(quadtree_points@) ==> found@ == inside_below(
                        self@,
                        quadtree_points@,
                        node_idx as int,
                        vertices,
                    )
                    &&& found_between(found@, self@, quadtree_points@, node_idx as int, vertices)
                },
                None => true,
            }),
    {
        let mut results: HashSet<usize> = HashSet::new();
        let polygon = match polygon_points {
            Some(vertices) => vertices,
            None => {
                return Ok(results);
            },
        };
        proof {
            self.lemma_view();
            lemma_query(self@, quadtree_points@, node_idx as int, polygon@);
        }
        let (low, high) = match find_bounds(&polygon) {
            Some(bounds) => bounds,
            None => {
                return Ok(results);
            },
        };
        let part = copy_points(&polygon);
        match self._query_polygon(&quadtree_points, node_idx, Some(part), &polygon, low, high, &mut results) {
            Ok(()) => {
                proof {
                    let found = walk_result(
                        self@,
                        quadtree_points@,
                        node_idx as int,
                        Some(polygon@),
                        polygon@,
                    );
                    assert(Set::<usize>::empty().union(found) =~= found);
                }
                Ok(results)
            },
            Err(e) => Err(e),
        }
    }

    /// Whether the polygon, whose bounding box reaches from `low` to `high`,
    /// reaches into the region of a node.
    fn reached(&self, node_idx: usize, polygon: &Vec<Point>, low: Point, high: Point) -> (reaches:
        bool)
        requires
            wf(self@),
            node_idx < self@.len(),
            is_box(polygon@, low, high),
        ensures
            reaches == polygon_reaches(self@[node_idx as int], polygon@),
    {
        proof {
            assert(node_ok(self@, node_idx as int));
            lemma_cell_units(self@[node_idx as int].depth);
            lemma_box_reaches(self@[node_idx as int], polygon@, low, high);
        }
        let (cx, cy) = self.get_center(node_idx);
        let (sx, sy) = self.get_size(node_idx);
        let left = cx - sx;
        let right = cx + sx;
        let bottom = cy - sy;
        let top = cy + sy;
        (left <= high.0 || left == -ROOT_HALF_WIDTH) && (low.0 <= right || right == ROOT_HALF_WIDTH)
            && (bottom <= high.1 || bottom == -ROOT_HALF_HEIGHT) && (low.1 <= top || top
            == ROOT_HALF_HEIGHT)
    }

    /// The part of the polygon with which a child is searched: its own part
    /// of the cut; or, where the cut gave it none although the polygon
    /// reaches into its region, the uncut part; or none.
    fn part_for(
        &self,
        child_idx: usize,
        part: Option<Vec<Point>>,
        uncut: &Vec<Point>,
        polygon: &Vec<Point>,
        low: Point,
        high: Point,
    ) -> (chosen: Option<Vec<Point>>)
        requires
            wf(self@),
            child_idx < self@.len(),
            is_box(polygon@, low, high),
        ensures
            opt_view(chosen) == chosen_part(
                opt_view(part),
                uncut@,
                polygon_reaches(self@[child_idx as int], polygon@),
            ),
    {
        match part {
            Some(vertices) => Some(vertices),
            None => {
                if self.reached(child_idx, polygon, low, high) {
                    Some(copy_points(uncut))
                } else {
                    None
                }
            },
        }
    }

    /// Adds to `results` what the walk finds at or below a node with the
    /// part of `polygon` that was cut for the node.
    ///
    /// Without a part nothing is added. Where the sorted vertices of the
    /// part are the corners of the node's rectangle and the polygon contains
    /// the four, the node is taken whole: every index at or below it is
    /// added, untested. At any other internal node the part is
    /// cut at the node's center, first along `x` and then each half along
    /// `y`, and each child is searched with the part in its quadrant. At a
    /// leaf the listed points are tested against the polygon.
    fn _query_polygon(
        &self,
        quadtree_points: &Vec<Point>,
        node_idx: usize,
        polygon_points: Option<Vec<Point>>,
        polygon: &Vec<Point>,
        low: Point,
        high: Point,
        results: &mut HashSet<usize>,
    ) -> (res: Result<(), QhullError>)
        requires
            wf(self@),
            polygon_points is Some ==> node_idx < self@.len(),
            sound(self@, quadtree_points@, quadtree_points@.len() as int),
            is_box(polygon@, low, high),
        ensures
            res is Ok,
            final(results)@ == old(results)@.union(
                walk_result(
                    self@,
                    quadtree_points@,
                    node_idx as int,
                    opt_view(polygon_points),
                    polygon@,
                ),
            ),
        decreases self@.len() - node_idx,
    {
        let ghost t = self@;
        let ghost pts = quadtree_points@;
        let ghost r0 = results@;
        let ghost a = node_idx as int;
        let mut points = match polygon_points {
            Some(p) => p,
            None => {
                assert(r0.union(Set::<usize>::empty()) =~= r0);
                return Ok(());
            },
        };
        sort_points(&mut points);
        let quadrant_points = self.quadrant_rectangle_points(node_idx);
        proof {
            self.lemma_view();
            assert(node_ok(t, a));
            assert forall|j: int| 0 <= j < subtree_points(t, a).len() implies (
            #[trigger] subtree_points(t, a)[j]) < pts.len() by {
                let x = subtree_points(t, a)[j];
                assert(subtree_points(t, a).contains(x));
                lemma_listed_is_covered(t, pts, a, x);
            }
        }
        if same_points(&points, &quadrant_points) && contains_all(polygon, &quadrant_points) {
            let found = self.find_nodes_in(node_idx);
            insert_all(results, &found);
            return Ok(());
        }
        if self.nodes[node_idx].children.len() != 0 {
            let (cx, cy) = self.get_center(node_idx);
            let children_idxs = self.get_children_idxs(node_idx);
            proof {
                assert(child_ok(t, a, 0));
                assert(child_ok(t, a, 1));
                assert(child_ok(t, a, 2));
                assert(child_ok(t, a, 3));
            }
            let (left_polygon, right_polygon) = match slice_in_two(Some(&points), cx, 0) {
                Ok(parts) => parts,
                Err(e) => {
                    return Err(e);
                },
            };
            let (q1_cut, q2_cut) = match slice_in_two(left_polygon.as_ref(), cy, 1) {
                Ok(parts) => parts,
                Err(e) => {
                    return Err(e);
                },
            };
            let (q3_cut, q4_cut) = match slice_in_two(right_polygon.as_ref(), cy, 1) {
                Ok(parts) => parts,
                Err(e) => {
                    return Err(e);
                },
            };
            let ghost w0 = walk_child(t, pts, a, 0, opt_view(q1_cut), points@, polygon@);
            let ghost w1 = walk_child(t, pts, a, 1, opt_view(q2_cut), points@, polygon@);
            let ghost w2 = walk_child(t, pts, a, 2, opt_view(q3_cut), points@, polygon@);
            let ghost w3 = walk_child(t, pts, a, 3, opt_view(q4_cut), points@, polygon@);
            let q1_polygon = self.part_for(children_idxs[0], q1_cut, &points, polygon, low, high);
            let q2_polygon = self.part_for(children_idxs[1], q2_cut, &points, polygon, low, high);
            let q3_polygon = self.part_for(children_idxs[2], q3_cut, &points, polygon, low, high);
            let q4_polygon = self.part_for(children_idxs[3], q4_cut, &points, polygon, low, high);
            match self._query_polygon(quadtree_points, children_idxs[0], q1_polygon, polygon, low, high, results) {
                Ok(()) => {},
                Err(e) => {
                    return Err(e);
                },
            }
            match self._query_polygon(quadtree_points, children_idxs[1], q2_polygon, polygon, low, high, results) {
                Ok(()) => {},
                Err(e) => {
                    return Err(e);
                },
            }
            match self._query_polygon(quadtree_points, children_idxs[2], q3_polygon, polygon, low, high, results) {
                Ok(()) => {},
                Err(e) => {
                    return Err(e);
                },
            }
            match self._query_polygon(quadtree_points, children_idxs[3], q4_polygon, polygon, low, high, results) {
                Ok(()) => {},
                Err(e) => {
                    return Err(e);
                },
            }
            proof {
                assert(results@ =~= r0.union(w0.union(w1).union(w2).union(w3)));
            }
            Ok(())
        } else {
            let list = self.get_point_idxs(node_idx);
            proof {
                lemma_leaf_subtree(t, a);
            }
            keep_contained(results, &list, quadtree_points, polygon);
            Ok(())
        }
    }

    /// The four corners of a node's rectangle: bottom-left, top-left,
    /// bottom-right, top-right.
    pub fn quadrant_rectangle_points(&self, node_idx: usize) -> (corners: Vec<Point>)
        requires
            wf(self@),
            node_idx < self@.len(),
        ensures
            corners@ == rectangle_corners(self@[node_idx as int]),
    {
        proof {
            assert(node_ok(self@, node_idx as int));
            lemma_cell_units(self@[node_idx as int].depth);
        }
        let (cx, cy) = self.get_center(node_idx);
        let (sx, sy) = self.get_size(node_idx);
        let mut corners: Vec<Point> = Vec::with_capacity(4);
        corners.push((cx - sx, cy - sy));
        corners.push((cx - sx, cy + sy));
        corners.push((cx + sx, cy - sy));
        corners.push((cx + sx, cy + sy));
        assert(corners@ =~= rectangle_corners(self@[node_idx as int]));
        corners
    }

    /// The least and the greatest corner of a node's rectangle.
    pub fn node_bbox_points(&self, node_idx: usize) -> (bbox: (Point, Point))
        requires
            wf(self@),
            node_idx < self@.len(),
        ensures
            bbox.0 == rectangle_corners(self@[node_idx as int])[0],
            bbox.1 == rectangle_corners(self@[node_idx as int])[3],
    {
        proof {
            assert(node_ok(self@, node_idx as int));
            lemma_cell_units(self@[node_idx as int].depth);
        }
        let (cx, cy) = self.get_center(node_idx);
        let (sx, sy) = self.get_size(node_idx);
        ((cx - sx, cy - sy), (cx + sx, cy + sy))
    }

    /// The center of a node's rectangle.
    pub fn get_center(&self, index: usize) -> (center: Point)
        requires
            index < self@.len(),
        ensures
            center == self@[index as int].center,
    {
        self.nodes[index].center
    }

    /// Half the width and half the height of a node's rectangle.
    pub fn get_size(&self, index: usize) -> (size: Point)
        requires
            index < self@.len(),
        ensures
            size == self@[index as int].half_size,
    {
        self.nodes[index].size
    }

    /// The depth of a node.
    pub fn get_depth(&self, index: usize) -> (depth: i32)
        requires
            index < self@.len(),
        ensures
            depth == self@[index as int].depth,
    {
        self.nodes[index].depth
    }

    /// How many points a node lists: none for an internal node.
    pub fn get_points_length(&self, index: usize) -> (count: usize)
        requires
            index < self@.len(),
        ensures
            count == own_points(self@[index as int]).len(),
    {
        match &self.nodes[index].points {
            Some(v) => v.len(),
            None => 0,
        }
    }

    /// The children of a node: four indices, or none for a leaf.
    pub fn get_children_idxs(&self, index: usize) -> (children: Vec<usize>)
        requires
            index < self@.len(),
        ensures
            children@ == self@[index as int].children,
    {
        copy_indices(&self.nodes[index].children)
    }

    /// The point indices that a node lists: none for an internal node.
    pub fn get_point_idxs(&self, node_idx: usize) -> (points: Vec<usize>)
        requires
            node_idx < self@.len(),
        ensures
            points@ == own_points(self@[node_idx as int]),
    {
        match &self.nodes[node_idx].points {
            Some(v) => copy_indices(v),
            None => Vec::new(),
        }
    }

    /// The point indices that a node lists: none for an internal node.
    pub fn get_node_items(&self, node_idx: usize) -> (points: Vec<usize>)
        requires
            node_idx < self@.len(),
        ensures
            points@ == own_points(self@[node_idx as int]),
    {
        self.get_point_idxs(node_idx)
    }
}

/// Whether the polygon contains every point of a list.
pub fn contains_all(polygon: &Vec<Point>, points: &Vec<Point>) -> (all: bool)
    ensures
        all == (forall|j: int| 0 <= j < points@.len() ==> contained(#[trigger] points@[j], polygon@)),
{
    let mut i: usize = 0;
    while i < points.len()
        invariant
            i <= points@.len(),
            forall|j: int| 0 <= j < i ==> contained(#[trigger] points@[j], polygon@),
        decreases points.len() - i,
    {
        if !is_contained_in(points[i], polygon.as_slice()) {
            return false;
        }
        i += 1;
    }
    true
}

/// Adds to a set every index of a list.
pub fn insert_all(results: &mut HashSet<usize>, list: &Vec<usize>)
    ensures
        final(results)@ == old(results)@.union(list@.to_set()),
{
    broadcast use vstd::std_specs::hash::group_hash_axioms;

    let ghost r0 = results@;
    let mut i: usize = 0;
    while i < list.len()
        invariant
            i <= list@.len(),
            results@ == r0.union(list@.take(i as int).to_set()),
        decreases list.len() - i,
    {
        let idx = list[i];
        results.insert(idx);
        proof {
            let before = list@.take(i as int);
            let after = list@.take(i as int + 1);
            assert(after == before.push(idx));
            assert forall|x: usize| #![auto] after.contains(x) <==> (before.contains(x) || x
                == idx) by {
                if before.contains(x) {
                    let j = choose|j: int| 0 <= j < before.len() && before[j] == x;
                    assert(after[j] == x);
                }
                assert(after[i as int] == idx);
            }
            assert(results@ =~= r0.union(after.to_set()));
        }
        i += 1;
    }
    proof {
        assert(list@.take(list@.len() as int) == list@);
    }
}

/// Adds to a set the indices of a list whose points the polygon contains.
pub fn keep_contained(
    results: &mut HashSet<usize>,
    list: &Vec<usize>,
    points: &Vec<Point>,
    polygon: &Vec<Point>,
)
    requires
        forall|j: int| 0 <= j < list@.len() ==> (#[trigger] list@[j]) < points@.len(),
    ensures
        final(results)@ == old(results)@.union(listed_inside(list@, points@, polygon@)),
{
    broadcast use vstd::std_specs::hash::group_hash_axioms;

    let ghost r0 = results@;
    let mut i: usize = 0;
    while i < list.len()
        invariant
            i <= list@.len(),
            forall|j: int| 0 <= j < list@.len() ==> (#[trigger] list@[j]) < points@.len(),
            results@ == r0.union(listed_inside(list@.take(i as int), points@, polygon@)),
        decreases list.len() - i,
    {
        let idx = list[i];
        let inside = is_contained_in(points[idx], polygon.as_slice());
        if inside {
            results.insert(idx);
        }
        proof {
            let before = list@.take(i as int);
            let after = list@.take(i as int + 1);
            assert(after == before.push(idx));
            assert forall|x: usize| #![auto] after.contains(x) <==> (before.contains(x) || x
                == idx) by {
                if before.contains(x) {
                    let j = choose|j: int| 0 <= j < before.len() && before[j] == x;
                    assert(after[j] == x);
                }
                assert(after[i as int] == idx);
            }
            assert(results@ =~= r0.union(listed_inside(after, points@, polygon@)));
        }
        i += 1;
    }
    proof {
        assert(list@.take(list@.len() as int) == list@);
    }
}

/// Whether a list of indices holds `x`.
pub fn contains_index(list: &Vec<usize>, x: usize) -> (found: bool)
    ensures
        found == list@.contains(x),
{
    let mut i: usize = 0;
    while i < list.len()
        invariant
            i <= list@.len(),
            forall|j: int| 0 <= j < i ==> list@[j] != x,
        decreases list.len() - i,
    {
        if list[i] == x {
            return true;
        }
        i += 1;
    }
    false
}

/// A copy of a list of indices.
pub fn copy_indices(list: &Vec<usize>) -> (copy: Vec<usize>)
    ensures
        copy@ == list@,
{
    let mut copy: Vec<usize> = Vec::with_capacity(list.len());
    let mut i: usize = 0;
    while i < list.len()
        invariant
            i <= list@.len(),
            copy@ == list@.take(i as int),
        decreases list.len() - i,
    {
        copy.push(list[i]);
        assert(list@.take(i as int + 1) == list@.take(i as int).push(list@[i as int]));
        i += 1;
    }
    assert(list@.take(list@.len() as int) == list@);
    copy
}

} // verus!
