//! The executable quadtree: a spatial index over the unit square that stores
//! positioned items, at most `capacity` per leaf, subdividing a full leaf into
//! its four quadrants until the configured maximum depth.
//!
//! Every operation is specified against the model of `crate::model`: a tree
//! that has accepted the insertion history `h` is structurally equal, through
//! its view, to `tree_of(root_code(), h)` — the tree is a pure function of its
//! insertion history.

use vstd::prelude::*;

verus! {

use crate::position::{LeafPos, ONE, root_code, lemma_quadrant, lemma_child_geometry,
    lemma_root_box};
use crate::model::{Item, NodeModel, in_square, in_unit, filter_quad, tree_of, locate_in,
    lemma_filter_quad_in_child, lemma_tree_of_ms, lemma_tree_of_wf, lemma_tree_of_code,
    lemma_locate_in_bounds};

/// The error returned when an item's position lies outside the unit square.
#[derive(Clone, Copy, Debug, PartialEq, Eq, Structural)]
pub struct OutOfBounds;

/// A region of the square: a leaf holding its items directly, or an internal
/// node owning one child per quadrant.
enum Node<T> {
    Leaf { code: LeafPos, items: Vec<Item<T>> },
    Internal {
        code: LeafPos,
        k0: Box<Node<T>>,
        k1: Box<Node<T>>,
        k2: Box<Node<T>>,
        k3: Box<Node<T>>,
    },
}

impl<T> Node<T> {
    /// The abstract shape of this node.
    spec fn model(self) -> NodeModel<T>
        decreases self,
    {
        match self {
            Node::Leaf { code, items } => NodeModel::Leaf { code, items: items@ },
            Node::Internal { code, k0, k1, k2, k3 } => NodeModel::Internal {
                code,
                kids: seq![k0.model(), k1.model(), k2.model(), k3.model()],
            },
        }
    }
}

/// The quadrant of the square centered at `(cx, cy)` that `(x, y)` belongs
/// to; a coordinate equal to the center takes the greater side.
fn quadrant_index(cx: u64, cy: u64, x: u64, y: u64, Ghost(c): Ghost<LeafPos>) -> (q: u8)
    requires
        cx == c.center_x(),
        cy == c.center_y(),
    ensures
        q == c.quadrant_of(x as int, y as int),
        q < 4,
{
    (if x >= cx {
        1u8
    } else {
        0u8
    }) + (if y >= cy {
        2u8
    } else {
        0u8
    })
}

/// Inserts an item into the subtree that canonically stores the history
/// `hist`, yielding the canonical subtree of the history extended by the
/// item. A leaf appends the item; a leaf thereby reaching its capacity while
/// its depth is short of the limit subdivides, redistributing every item into
/// the child of its quadrant; an internal node descends into the single child
/// whose quadrant contains the item's position.
fn insert_node<T>(
    node: Node<T>,
    it: Item<T>,
    cap: usize,
    maxd: u8,
    Ghost(hist): Ghost<Seq<Item<T>>>,
) -> (r: Node<T>)
    requires
        cap >= 1,
        maxd <= 31,
        node.model().code().wf(),
        node.model().code().depth <= maxd,
        node.model() == tree_of(node.model().code(), hist, cap as nat, maxd as nat),
        forall|j: int| 0 <= j < hist.len() ==> in_square(node.model().code(), #[trigger] hist[j]),
        in_square(node.model().code(), it),
    ensures
        r.model() == tree_of(node.model().code(), hist.push(it), cap as nat, maxd as nat),
    decreases maxd - node.model().code().depth,
{
    match node {
        Node::Leaf { code, mut items } => {
            proof {
                if !(hist.len() < cap as nat || code.depth as nat >= maxd as nat || code.depth
                    >= 31) {
                    assert(tree_of(code, hist, cap as nat, maxd as nat) is Internal);
                    assert(false);
                }
                assert(items@ == hist);
            }
            items.push(it);
            let ghost nh = hist.push(it);
            if items.len() >= cap && code.depth < maxd {
                let (cx, cy) = code.center();
                let mut c0 = Node::Leaf { code: code.child(0), items: Vec::new() };
                let mut c1 = Node::Leaf { code: code.child(1), items: Vec::new() };
                let mut c2 = Node::Leaf { code: code.child(2), items: Vec::new() };
                let mut c3 = Node::Leaf { code: code.child(3), items: Vec::new() };
                let ghost all = nh;
                let ghost i: int = 0;
                proof {
                    assert forall|q: int| 0 <= q < 4 implies filter_quad(
                        all.take(0),
                        code,
                        q,
                    ) =~= Seq::<Item<T>>::empty() by {
                        assert(all.take(0).len() == 0);
                    }
                    assert(c0.model() == tree_of(
                        code.spec_child(0),
                        filter_quad(all.take(0), code, 0),
                        cap as nat,
                        maxd as nat,
                    ));
                    assert(c1.model() == tree_of(
                        code.spec_child(1),
                        filter_quad(all.take(0), code, 1),
                        cap as nat,
                        maxd as nat,
                    ));
                    assert(c2.model() == tree_of(
                        code.spec_child(2),
                        filter_quad(all.take(0), code, 2),
                        cap as nat,
                        maxd as nat,
                    ));
                    assert(c3.model() == tree_of(
                        code.spec_child(3),
                        filter_quad(all.take(0), code, 3),
                        cap as nat,
                        maxd as nat,
                    ));
                    assert forall|j: int| 0 <= j < all.len() implies in_square(
                        code,
                        #[trigger] all[j],
                    ) by {
                        if j < hist.len() {
                            assert(all[j] == hist[j]);
                        } else {
                            assert(all[j] == it);
                        }
                    }
                }
                while items.len() > 0
                    invariant
                        cap >= 1,
                        maxd <= 31,
                        code.wf(),
                        code.depth < maxd,
                        node.model().code() == code,
                        cx == code.center_x(),
                        cy == code.center_y(),
                        0 <= i <= all.len(),
                        items@ == all.skip(i),
                        forall|j: int| 0 <= j < all.len() ==> in_square(code, #[trigger] all[j]),
                        c0.model() == tree_of(
                            code.spec_child(0),
                            filter_quad(all.take(i), code, 0),
                            cap as nat,
                            maxd as nat,
                        ),
                        c1.model() == tree_of(
                            code.spec_child(1),
                            filter_quad(all.take(i), code, 1),
                            cap as nat,
                            maxd as nat,
                        ),
                        c2.model() == tree_of(
                            code.spec_child(2),
                            filter_quad(all.take(i), code, 2),
                            cap as nat,
                            maxd as nat,
                        ),
                        c3.model() == tree_of(
                            code.spec_child(3),
                            filter_quad(all.take(i), code, 3),
                            cap as nat,
                            maxd as nat,
                        ),
                    decreases items.len(),
                {
                    let e = items.remove(0);
                    proof {
                        assert(all.skip(i)[0] == all[i]);
                        assert(e == all[i]);
                        assert(items@ =~= all.skip(i + 1));
                        assert(in_square(code, e));
                        lemma_quadrant(code, e.x as int, e.y as int);
                    }
                    let q = quadrant_index(cx, cy, e.x, e.y, Ghost(code));
                    proof {
                        lemma_child_geometry(code, q as int);
                        lemma_tree_of_code(
                            code.spec_child(0),
                            filter_quad(all.take(i), code, 0),
                            cap as nat,
                            maxd as nat,
                        );
                        lemma_tree_of_code(
                            code.spec_child(1),
                            filter_quad(all.take(i), code, 1),
                            cap as nat,
                            maxd as nat,
                        );
                        lemma_tree_of_code(
                            code.spec_child(2),
                            filter_quad(all.take(i), code, 2),
                            cap as nat,
                            maxd as nat,
                        );
                        lemma_tree_of_code(
                            code.spec_child(3),
                            filter_quad(all.take(i), code, 3),
                            cap as nat,
                            maxd as nat,
                        );
                        assert(code.spec_child(q as int).depth == code.depth + 1);
                        lemma_filter_quad_in_child(all.take(i), code, q as int);
                        assert(all.take(i + 1).drop_last() =~= all.take(i));
                        assert(all.take(i + 1).last() == all[i]);
                        assert(filter_quad(all.take(i + 1), code, q as int) == filter_quad(
                            all.take(i),
                            code,
                            q as int,
                        ).push(e));
                        assert(forall|qq: int|
                            0 <= qq < 4 && qq != q ==> filter_quad(all.take(i + 1), code, qq)
                                == filter_quad(all.take(i), code, qq));
                    }
                    if q == 0 {
                        c0 = insert_node(c0, e, cap, maxd, Ghost(filter_quad(all.take(i), code, 0)));
                    } else if q == 1 {
                        c1 = insert_node(c1, e, cap, maxd, Ghost(filter_quad(all.take(i), code, 1)));
                    } else if q == 2 {
                        c2 = insert_node(c2, e, cap, maxd, Ghost(filter_quad(all.take(i), code, 2)));
                    } else {
                        c3 = insert_node(c3, e, cap, maxd, Ghost(filter_quad(all.take(i), code, 3)));
                    }
                    proof {
                        i = i + 1;
                    }
                }
                let r = Node::Internal {
                    code,
                    k0: Box::new(c0),
                    k1: Box::new(c1),
                    k2: Box::new(c2),
                    k3: Box::new(c3),
                };
                proof {
                    assert(i == all.len());
                    assert(all.take(i) =~= all);
                    assert(!(nh.len() < cap as nat || code.depth as nat >= maxd as nat
                        || code.depth >= 31));
                    assert(r.model() =~= tree_of(code, nh, cap as nat, maxd as nat));
                }
                r
            } else {
                proof {
                    assert(nh.len() < cap as nat || code.depth as nat >= maxd as nat);
                    assert(tree_of(code, nh, cap as nat, maxd as nat) == NodeModel::Leaf {
                        code,
                        items: nh,
                    });
                }
                Node::Leaf { code, items }
            }
        },
        Node::Internal { code, k0, k1, k2, k3 } => {
            proof {
                if hist.len() < cap as nat || code.depth as nat >= maxd as nat || code.depth
                    >= 31 {
                    assert(tree_of(code, hist, cap as nat, maxd as nat) is Leaf);
                    assert(false);
                }
                let kids = seq![k0.model(), k1.model(), k2.model(), k3.model()];
                let kids2 = seq![
                    tree_of(code.spec_child(0), filter_quad(hist, code, 0), cap as nat, maxd as nat),
                    tree_of(code.spec_child(1), filter_quad(hist, code, 1), cap as nat, maxd as nat),
                    tree_of(code.spec_child(2), filter_quad(hist, code, 2), cap as nat, maxd as nat),
                    tree_of(code.spec_child(3), filter_quad(hist, code, 3), cap as nat, maxd as nat),
                ];
                assert(node.model() == NodeModel::Internal { code, kids });
                assert(tree_of(code, hist, cap as nat, maxd as nat) == NodeModel::Internal {
                    code,
                    kids: kids2,
                });
                assert(kids == kids2);
                assert(k0.model() == kids2[0] && k1.model() == kids2[1] && k2.model() == kids2[2]
                    && k3.model() == kids2[3]);
                lemma_tree_of_code(code.spec_child(0), filter_quad(hist, code, 0), cap as nat, maxd as nat);
                lemma_tree_of_code(code.spec_child(1), filter_quad(hist, code, 1), cap as nat, maxd as nat);
                lemma_tree_of_code(code.spec_child(2), filter_quad(hist, code, 2), cap as nat, maxd as nat);
                lemma_tree_of_code(code.spec_child(3), filter_quad(hist, code, 3), cap as nat, maxd as nat);
                lemma_quadrant(code, it.x as int, it.y as int);
            }
            let (cx, cy) = code.center();
            let q = quadrant_index(cx, cy, it.x, it.y, Ghost(code));
            proof {
                lemma_child_geometry(code, q as int);
                lemma_filter_quad_in_child(hist, code, q as int);
                assert(hist.push(it).drop_last() =~= hist);
                assert(hist.push(it).last() == it);
                assert(filter_quad(hist.push(it), code, q as int) == filter_quad(
                    hist,
                    code,
                    q as int,
                ).push(it));
                assert(forall|qq: int|
                    0 <= qq < 4 && qq != q ==> filter_quad(hist.push(it), code, qq) == filter_quad(
                        hist,
                        code,
                        qq,
                    ));
            }
            let r = if q == 0 {
                let n = insert_node(*k0, it, cap, maxd, Ghost(filter_quad(hist, code, 0)));
                Node::Internal { code, k0: Box::new(n), k1, k2, k3 }
            } else if q == 1 {
                let n = insert_node(*k1, it, cap, maxd, Ghost(filter_quad(hist, code, 1)));
                Node::Internal { code, k0, k1: Box::new(n), k2, k3 }
            } else if q == 2 {
                let n = insert_node(*k2, it, cap, maxd, Ghost(filter_quad(hist, code, 2)));
                Node::Internal { code, k0, k1, k2: Box::new(n), k3 }
            } else {
                let n = insert_node(*k3, it, cap, maxd, Ghost(filter_quad(hist, code, 3)));
                Node::Internal { code, k0, k1, k2, k3: Box::new(n) }
            };
            proof {
                assert(r.model() =~= tree_of(code, hist.push(it), cap as nat, maxd as nat));
            }
            r
        },
    }
}

/// The quadtree: the root node plus the two configuration constants. The
/// ghost insertion history ties the executable structure to the model.
pub struct Quadtree<T> {
    root: Node<T>,
    capacity: usize,
    max_depth: u8,
    hist: Ghost<Seq<Item<T>>>,
}

impl<T> Quadtree<T> {
    /// The tree is consistent: its configuration is in range, every accepted
    /// item lay in the unit square, and the structure is the canonical tree
    /// of the insertion history.
    pub closed spec fn wf(self) -> bool {
        &&& self.capacity >= 1
        &&& self.max_depth <= 31
        &&& self.root.model() == tree_of(
            root_code(),
            self.hist@,
            self.capacity as nat,
            self.max_depth as nat,
        )
        &&& forall|j: int| 0 <= j < self.hist@.len() ==> in_unit(#[trigger] self.hist@[j])
    }

    /// The items this tree has accepted, in arrival order.
    pub closed spec fn items(self) -> Seq<Item<T>> {
        self.hist@
    }

    /// The abstract shape of the whole tree.
    pub closed spec fn structure(self) -> NodeModel<T> {
        self.root.model()
    }

    /// The configured leaf capacity.
    pub closed spec fn cap(self) -> nat {
        self.capacity as nat
    }

    /// The configured maximum depth.
    pub closed spec fn depth_limit(self) -> nat {
        self.max_depth as nat
    }

    /// An empty tree over the unit square with the given leaf capacity and
    /// maximum depth. The depth limit of 31 is what the 64-bit path encoding
    /// of position codes can address.
    pub fn new(capacity: usize, max_depth: u8) -> (t: Self)
        requires
            capacity >= 1,
            max_depth <= 31,
        ensures
            t.wf(),
            t.items() == Seq::<Item<T>>::empty(),
            t.cap() == capacity,
            t.depth_limit() == max_depth,
            t.structure() == (NodeModel::Leaf { code: root_code(), items: Seq::<Item<T>>::empty() }),
    {
        let root = Node::Leaf { code: LeafPos::new(), items: Vec::new() };
        proof {
            assert(root.model() == tree_of(
                root_code(),
                Seq::<Item<T>>::empty(),
                capacity as nat,
                max_depth as nat,
            ));
        }
        Quadtree { root, capacity, max_depth, hist: Ghost(Seq::empty()) }
    }

    /// The configured leaf capacity.
    pub fn capacity(&self) -> (r: usize)
        ensures
            r == self.cap(),
    {
        self.capacity
    }

    /// The configured maximum depth.
    pub fn max_depth(&self) -> (r: u8)
        ensures
            r == self.depth_limit(),
    {
        self.max_depth
    }

    /// Inserts an item. A position inside the unit square is accepted and
    /// appended to the insertion history; one outside it is rejected with
    /// `OutOfBounds` and the tree is unchanged.
    pub fn insert(&mut self, item: Item<T>) -> (r: Result<(), OutOfBounds>)
        requires
            old(self).wf(),
        ensures
            final(self).wf(),
            final(self).cap() == old(self).cap(),
            final(self).depth_limit() == old(self).depth_limit(),
            in_unit(item) ==> r == Ok::<(), OutOfBounds>(()) && final(self).items() == old(
                self,
            ).items().push(item),
            !in_unit(item) ==> r == Err::<(), OutOfBounds>(OutOfBounds) && final(self).items()
                == old(self).items(),
    {
        if item.x >= ONE || item.y >= ONE {
            return Err(OutOfBounds);
        }
        proof {
            lemma_root_box(item.x as int, item.y as int);
            assert forall|j: int| 0 <= j < self.hist@.len() implies in_square(
                root_code(),
                #[trigger] self.hist@[j],
            ) by {
                lemma_root_box(self.hist@[j].x as int, self.hist@[j].y as int);
            }
            lemma_tree_of_code(
                root_code(),
                self.hist@,
                self.capacity as nat,
                self.max_depth as nat,
            );
        }
        let mut tmp = Node::Leaf { code: LeafPos::new(), items: Vec::new() };
        core::mem::swap(&mut self.root, &mut tmp);
        tmp = insert_node(tmp, item, self.capacity, self.max_depth, Ghost(self.hist@));
        self.root = tmp;
        self.hist = Ghost(self.hist@.push(item));
        Ok(())
    }

    /// The number of items stored, over all leaves.
    pub fn count(&self) -> (r: usize)
        requires
            self.wf(),
            self.items().len() <= usize::MAX,
        ensures
            r == self.items().len(),
    {
        proof {
            broadcast use vstd::seq_lib::group_to_multiset_ensures;

            lemma_tree_of_ms(
                root_code(),
                self.hist@,
                self.capacity as nat,
                self.max_depth as nat,
            );
        }
        node_count(&self.root)
    }

    /// The code of the leaf whose square contains the given position, found
    /// by quadrant descent, or `None` for a position outside the unit square.
    pub fn locate(&self, x: u64, y: u64) -> (r: Option<LeafPos>)
        requires
            self.wf(),
        ensures
            (x < ONE && y < ONE) ==> r == Some(locate_in(self.structure(), x as int, y as int))
                && locate_in(self.structure(), x as int, y as int).contains_pt(
                x as int,
                y as int,
            ),
            !(x < ONE && y < ONE) ==> r is None,
    {
        if x < ONE && y < ONE {
            proof {
                lemma_root_box(x as int, y as int);
                assert forall|j: int| 0 <= j < self.hist@.len() implies in_square(
                    root_code(),
                    #[trigger] self.hist@[j],
                ) by {
                    lemma_root_box(self.hist@[j].x as int, self.hist@[j].y as int);
                }
                lemma_tree_of_wf(
                    root_code(),
                    self.hist@,
                    self.capacity as nat,
                    self.max_depth as nat,
                );
                lemma_locate_in_bounds(
                    self.root.model(),
                    x as int,
                    y as int,
                    self.capacity as nat,
                    self.max_depth as nat,
                );
            }
            Some(locate_node(&self.root, x, y, Ghost(self.capacity as nat), Ghost(self.max_depth as nat)))
        } else {
            None
        }
    }

    /// Whether the root has subdivided.
    pub fn root_is_internal(&self) -> (r: bool)
        ensures
            r == (self.structure() is Internal),
    {
        match &self.root {
            Node::Internal { .. } => true,
            Node::Leaf { .. } => false,
        }
    }
}

/// The number of items stored in the subtree.
fn node_count<T>(node: &Node<T>) -> (r: usize)
    requires
        node.model().ms().len() <= usize::MAX,
    ensures
        r == node.model().ms().len(),
    decreases *node,
{
    broadcast use vstd::multiset::group_multiset_axioms;

    match node {
        Node::Leaf { items, .. } => {
            proof {
                broadcast use vstd::seq_lib::group_to_multiset_ensures;

                assert(items@.to_multiset().len() == items@.len());
            }
            items.len()
        },
        Node::Internal { k0, k1, k2, k3, .. } => {
            let n0 = node_count(k0);
            let n1 = node_count(k1);
            let n2 = node_count(k2);
            let n3 = node_count(k3);
            n0 + n1 + n2 + n3
        },
    }
}

/// The code of the leaf reached from this subtree by quadrant descent.
fn locate_node<T>(
    node: &Node<T>,
    x: u64,
    y: u64,
    Ghost(cap): Ghost<nat>,
    Ghost(maxd): Ghost<nat>,
) -> (r: LeafPos)
    requires
        node.model().wf(cap, maxd),
    ensures
        r == locate_in(node.model(), x as int, y as int),
    decreases *node,
{
    match node {
        Node::Leaf { code, .. } => *code,
        Node::Internal { code, k0, k1, k2, k3 } => {
            let (cx, cy) = code.center();
            let q = quadrant_index(cx, cy, x, y, Ghost(*code));
            if q == 0 {
                locate_node(k0, x, y, Ghost(cap), Ghost(maxd))
            } else if q == 1 {
                locate_node(k1, x, y, Ghost(cap), Ghost(maxd))
            } else if q == 2 {
                locate_node(k2, x, y, Ghost(cap), Ghost(maxd))
            } else {
                locate_node(k3, x, y, Ghost(cap), Ghost(maxd))
            }
        },
    }
}

impl<T> Default for Quadtree<T> {
    /// An empty tree with the default capacity of 8 and maximum depth of 4.
    fn default() -> (t: Self)
        ensures
            t.wf(),
            t.items() == Seq::<Item<T>>::empty(),
            t.cap() == 8,
            t.depth_limit() == 4,
            t.structure() == (NodeModel::Leaf { code: root_code(), items: Seq::<Item<T>>::empty() }),
    {
        Self::new(8, 4)
    }
}

/// The public face of the tree's invariant: a consistent tree's structure is
/// exactly the canonical tree of its accepted items, rooted at the root code
/// (path 0, depth 0, covering the whole unit square), under its stored
/// configuration — a capacity of at least 1 and a depth limit of at most 31.
pub proof fn lemma_canonical_structure<T>(t: Quadtree<T>)
    requires
        t.wf(),
    ensures
        t.structure() == tree_of(root_code(), t.items(), t.cap(), t.depth_limit()),
        t.structure().code() == root_code(),
        t.cap() >= 1,
        t.depth_limit() <= 31,
{
    lemma_tree_of_code(root_code(), t.items(), t.cap(), t.depth_limit());
}

/// A tree that has accepted nothing is a single empty leaf at the root code:
/// a fresh tree, or one whose every insert was rejected, has not subdivided
/// and holds no item.
pub proof fn lemma_empty_structure<T>(t: Quadtree<T>)
    requires
        t.wf(),
        t.items().len() == 0,
    ensures
        t.structure() == (NodeModel::Leaf { code: root_code(), items: Seq::<Item<T>>::empty() }),
{
    assert(t.items() =~= Seq::<Item<T>>::empty());
}

/// Conservation: a tree stores exactly the items it has accepted — visiting
/// every leaf finds each inserted item exactly once, so the total over all
/// leaves equals the number of accepted insertions.
pub proof fn lemma_conservation<T>(t: Quadtree<T>)
    requires
        t.wf(),
    ensures
        t.structure().ms() == t.items().to_multiset(),
        t.structure().ms().len() == t.items().len(),
{
    broadcast use vstd::seq_lib::group_to_multiset_ensures;

    lemma_tree_of_ms(root_code(), t.items(), t.cap(), t.depth_limit());
}

/// Structural soundness: the shape of a consistent tree is well formed — in
/// every leaf each item lies within the leaf's half-open square, every leaf
/// short of the depth limit holds fewer items than the capacity (one at the
/// limit may hold any number), and every internal node has exactly its four
/// quadrant children.
pub proof fn lemma_well_formed<T>(t: Quadtree<T>)
    requires
        t.wf(),
    ensures
        t.structure().wf(t.cap(), t.depth_limit()),
        t.structure().code() == root_code(),
{
    assert forall|j: int| 0 <= j < t.items().len() implies in_square(
        root_code(),
        #[trigger] t.items()[j],
    ) by {
        lemma_root_box(t.items()[j].x as int, t.items()[j].y as int);
    }
    lemma_root_box(0, 0);
    lemma_tree_of_wf(root_code(), t.items(), t.cap(), t.depth_limit());
}

/// Determinism: two trees with the same configuration that accepted the same
/// insertion history are structurally identical, so in particular the same
/// item inserted into both lands on the same leaf path.
pub proof fn lemma_deterministic<T>(a: Quadtree<T>, b: Quadtree<T>)
    requires
        a.wf(),
        b.wf(),
        a.items() == b.items(),
        a.cap() == b.cap(),
        a.depth_limit() == b.depth_limit(),
    ensures
        a.structure() == b.structure(),
        forall|x: int, y: int|
            #[trigger] locate_in(a.structure(), x, y) == locate_in(b.structure(), x, y),
{
}

} // verus!
