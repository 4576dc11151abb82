//! The mathematical model of the quadtree: an abstract node is either a leaf
//! holding the sequence of its items in arrival order, or an internal node
//! holding its four quadrant children.
//!
//! The model's centerpiece is `tree_of`: the canonical tree that a given
//! insertion history produces. The executable tree is proved equal, through
//! its view, to `tree_of` of its history, so every structural question about
//! the data structure reduces to a question about this one spec function.

use vstd::prelude::*;

verus! {

use vstd::multiset::Multiset;
use crate::position::{LeafPos, lemma_child_geometry, lemma_quadrant};

/// A stored item: a payload of any type tagged with its fixed-point position.
pub struct Item<T> {
    pub x: u64,
    pub y: u64,
    pub data: T,
}

impl<T> Item<T> {
    /// An item at the given fixed-point position.
    pub fn new(x: u64, y: u64, data: T) -> (r: Self)
        ensures
            r.x == x,
            r.y == y,
            r.data == data,
    {
        Item { x, y, data }
    }

    /// The item's x coordinate.
    pub fn x(&self) -> (r: u64)
        ensures
            r == self.x,
    {
        self.x
    }

    /// The item's y coordinate.
    pub fn y(&self) -> (r: u64)
        ensures
            r == self.y,
    {
        self.y
    }

    /// The item's position.
    pub fn pos(&self) -> (r: (u64, u64))
        ensures
            r.0 == self.x,
            r.1 == self.y,
    {
        (self.x, self.y)
    }
}

/// A ready-made tagged payload for storing values of several kinds in one
/// tree: instantiate the tree at `Payload` and each leaf may mix them. Any
/// other payload type works as well, since the tree never reads the payload.
#[derive(Clone, Debug, PartialEq, Eq)]
pub enum Payload {
    Int(i64),
    Text(String),
    Flag(bool),
}

/// Whether an item's position lies in the square of the given code.
pub open spec fn in_square<T>(c: LeafPos, it: Item<T>) -> bool {
    c.contains_pt(it.x as int, it.y as int)
}

/// Whether an item's position lies in the unit square.
pub open spec fn in_unit<T>(it: Item<T>) -> bool {
    it.x < crate::position::ONE && it.y < crate::position::ONE
}

/// The quadrant of `c` that the item's position belongs to.
pub open spec fn quad_of<T>(c: LeafPos, it: Item<T>) -> int {
    c.quadrant_of(it.x as int, it.y as int)
}

/// The abstract shape of a node: a leaf with its items in arrival order, or
/// an internal node with its four children in quadrant order.
#[verifier::ext_equal]
pub enum NodeModel<T> {
    Leaf { code: LeafPos, items: Seq<Item<T>> },
    Internal { code: LeafPos, kids: Seq<NodeModel<T>> },
}

impl<T> NodeModel<T> {
    /// The position code of this node.
    pub open spec fn code(self) -> LeafPos {
        match self {
            NodeModel::Leaf { code, .. } => code,
            NodeModel::Internal { code, .. } => code,
        }
    }

    /// All items stored in this subtree, as a multiset: the order in which
    /// leaves list them is not part of the statement.
    pub open spec fn ms(self) -> Multiset<Item<T>>
        decreases self,
    {
        match self {
            NodeModel::Leaf { items, .. } => items.to_multiset(),
            NodeModel::Internal { kids, .. } => {
                if kids.len() == 4 {
                    kids[0].ms().add(kids[1].ms()).add(kids[2].ms()).add(kids[3].ms())
                } else {
                    Multiset::empty()
                }
            },
        }
    }

    /// Well-formedness of a subtree under the given capacity and depth limit:
    /// every code is valid and at most `maxd` deep; every leaf short of the
    /// depth limit holds fewer items than the capacity, while a leaf at the
    /// limit may hold any number; every item of a leaf lies in that leaf's
    /// square; and an internal node sits short of the depth limit and has
    /// exactly the four children of its quadrant codes.
    pub open spec fn wf(self, cap: nat, maxd: nat) -> bool
        decreases self,
    {
        match self {
            NodeModel::Leaf { code, items } => {
                &&& code.wf()
                &&& maxd <= 31
                &&& code.depth <= maxd
                &&& (code.depth < maxd ==> items.len() < cap)
                &&& forall|j: int| 0 <= j < items.len() ==> in_square(code, #[trigger] items[j])
            },
            NodeModel::Internal { code, kids } => {
                &&& code.wf()
                &&& maxd <= 31
                &&& code.depth < maxd
                &&& kids.len() == 4
                &&& forall|q: int| 0 <= q < 4 ==> (#[trigger] kids[q]).code() == code.spec_child(q)
                &&& kids[0].wf(cap, maxd)
                &&& kids[1].wf(cap, maxd)
                &&& kids[2].wf(cap, maxd)
                &&& kids[3].wf(cap, maxd)
            },
        }
    }
}

/// The subsequence of `items`, in order, whose positions belong to quadrant
/// `q` of the node with code `c`.
pub open spec fn filter_quad<T>(items: Seq<Item<T>>, c: LeafPos, q: int) -> Seq<Item<T>>
    decreases items.len(),
{
    if items.len() == 0 {
        Seq::empty()
    } else {
        let rest = filter_quad(items.drop_last(), c, q);
        if quad_of(c, items.last()) == q {
            rest.push(items.last())
        } else {
            rest
        }
    }
}

/// The canonical tree at `c` for the items inserted there, in arrival order:
/// a leaf while the items number fewer than the capacity, and otherwise an
/// internal node whose children are the canonical trees of the items split by
/// quadrant. A node at the depth limit stays a leaf however many items it
/// holds; so does one at the deepest level the path encoding can address,
/// which is never reached while the depth limit is at most 31.
pub open spec fn tree_of<T>(c: LeafPos, items: Seq<Item<T>>, cap: nat, maxd: nat) -> NodeModel<T>
    decreases 31 - c.depth,
{
    if items.len() < cap || c.depth as nat >= maxd || c.depth >= 31 {
        NodeModel::Leaf { code: c, items }
    } else {
        NodeModel::Internal {
            code: c,
            kids: seq![
                tree_of(c.spec_child(0), filter_quad(items, c, 0), cap, maxd),
                tree_of(c.spec_child(1), filter_quad(items, c, 1), cap, maxd),
                tree_of(c.spec_child(2), filter_quad(items, c, 2), cap, maxd),
                tree_of(c.spec_child(3), filter_quad(items, c, 3), cap, maxd),
            ],
        }
    }
}

/// The code of the leaf that the point would reach by quadrant descent.
pub open spec fn locate_in<T>(n: NodeModel<T>, x: int, y: int) -> LeafPos
    decreases n,
{
    match n {
        NodeModel::Leaf { code, .. } => code,
        NodeModel::Internal { code, kids } => {
            if kids.len() == 4 {
                locate_in(kids[code.quadrant_of(x, y)], x, y)
            } else {
                code
            }
        },
    }
}

/// The canonical tree of a history sits at the code it was built for.
pub proof fn lemma_tree_of_code<T>(c: LeafPos, items: Seq<Item<T>>, cap: nat, maxd: nat)
    ensures
        tree_of(c, items, cap, maxd).code() == c,
{
}

/// Quadrant descent through a well-formed tree ends at a leaf whose square
/// contains the point it descended by.
pub proof fn lemma_locate_in_bounds<T>(n: NodeModel<T>, x: int, y: int, cap: nat, maxd: nat)
    requires
        n.wf(cap, maxd),
        n.code().contains_pt(x, y),
    ensures
        locate_in(n, x, y).contains_pt(x, y),
    decreases n,
{
    match n {
        NodeModel::Leaf { .. } => {},
        NodeModel::Internal { code, kids } => {
            let q = code.quadrant_of(x, y);
            lemma_quadrant(code, x, y);
            assert(kids[q].code() == code.spec_child(q));
            assert(kids[q].wf(cap, maxd));
            lemma_locate_in_bounds(kids[q], x, y, cap, maxd);
        },
    }
}

/// Every item that the quadrant filter keeps comes from the filtered
/// sequence and belongs to the selected quadrant.
pub proof fn lemma_filter_quad_props<T>(items: Seq<Item<T>>, c: LeafPos, q: int)
    ensures
        forall|k: int|
            0 <= k < filter_quad(items, c, q).len() ==> items.contains(
                #[trigger] filter_quad(items, c, q)[k],
            ) && quad_of(c, filter_quad(items, c, q)[k]) == q,
    decreases items.len(),
{
    if items.len() > 0 {
        let s = items.drop_last();
        let e = items.last();
        lemma_filter_quad_props(s, c, q);
        assert(items =~= s.push(e));
        let f = filter_quad(items, c, q);
        let fs = filter_quad(s, c, q);
        assert forall|k: int| 0 <= k < f.len() implies items.contains(#[trigger] f[k]) && quad_of(
            c,
            f[k],
        ) == q by {
            if quad_of(c, e) == q && k == fs.len() {
                assert(f[k] == e);
                assert(items[items.len() - 1] == e);
            } else {
                assert(f[k] == fs[k]);
                assert(s.contains(fs[k]));
                let j = choose|j: int| 0 <= j < s.len() && s[j] == fs[k];
                assert(items[j] == fs[k]);
            }
        }
    }
}

/// The four quadrant filters of a sequence partition it: together they hold
/// exactly the items of the sequence, each exactly once.
pub proof fn lemma_filter_quad_partition<T>(items: Seq<Item<T>>, c: LeafPos)
    ensures
        filter_quad(items, c, 0).to_multiset().add(filter_quad(items, c, 1).to_multiset()).add(
            filter_quad(items, c, 2).to_multiset(),
        ).add(filter_quad(items, c, 3).to_multiset()) == items.to_multiset(),
    decreases items.len(),
{
    broadcast use vstd::seq_lib::group_to_multiset_ensures;

    if items.len() == 0 {
        assert(filter_quad(items, c, 0).to_multiset().add(
            filter_quad(items, c, 1).to_multiset(),
        ).add(filter_quad(items, c, 2).to_multiset()).add(filter_quad(items, c, 3).to_multiset())
            =~= items.to_multiset());
    } else {
        let s = items.drop_last();
        let e = items.last();
        lemma_filter_quad_partition(s, c);
        let q = quad_of(c, e);
        assert(0 <= q < 4);
        assert(items =~= s.push(e));
        assert(items.to_multiset() =~= s.to_multiset().insert(e));
        assert(filter_quad(items, c, q).to_multiset() =~= filter_quad(
            s,
            c,
            q,
        ).to_multiset().insert(e));
        assert(forall|qq: int|
            0 <= qq < 4 && qq != q ==> filter_quad(items, c, qq) == filter_quad(s, c, qq));
        assert(filter_quad(items, c, 0).to_multiset().add(
            filter_quad(items, c, 1).to_multiset(),
        ).add(filter_quad(items, c, 2).to_multiset()).add(filter_quad(items, c, 3).to_multiset())
            =~= s.to_multiset().insert(e));
    }
}

/// Items of a quadrant filter lie in the square of the child of that
/// quadrant, whenever the filtered items lie in the parent's square.
pub proof fn lemma_filter_quad_in_child<T>(items: Seq<Item<T>>, c: LeafPos, q: int)
    requires
        c.wf(),
        c.depth < 31,
        0 <= q < 4,
        forall|j: int| 0 <= j < items.len() ==> in_square(c, #[trigger] items[j]),
    ensures
        forall|k: int|
            0 <= k < filter_quad(items, c, q).len() ==> in_square(
                c.spec_child(q),
                #[trigger] filter_quad(items, c, q)[k],
            ),
{
    lemma_filter_quad_props(items, c, q);
    assert forall|k: int| 0 <= k < filter_quad(items, c, q).len() implies in_square(
        c.spec_child(q),
        #[trigger] filter_quad(items, c, q)[k],
    ) by {
        let e = filter_quad(items, c, q)[k];
        assert(items.contains(e));
        let j = choose|j: int| 0 <= j < items.len() && items[j] == e;
        assert(in_square(c, e));
        lemma_quadrant(c, e.x as int, e.y as int);
    }
}

/// Conservation: the canonical tree of an insertion history stores exactly
/// the items of the history, each exactly once.
pub proof fn lemma_tree_of_ms<T>(c: LeafPos, items: Seq<Item<T>>, cap: nat, maxd: nat)
    ensures
        tree_of(c, items, cap, maxd).ms() == items.to_multiset(),
    decreases 31 - c.depth,
{
    if !(items.len() < cap || c.depth as nat >= maxd || c.depth >= 31) {
        lemma_tree_of_ms(c.spec_child(0), filter_quad(items, c, 0), cap, maxd);
        lemma_tree_of_ms(c.spec_child(1), filter_quad(items, c, 1), cap, maxd);
        lemma_tree_of_ms(c.spec_child(2), filter_quad(items, c, 2), cap, maxd);
        lemma_tree_of_ms(c.spec_child(3), filter_quad(items, c, 3), cap, maxd);
        lemma_filter_quad_partition(items, c);
    }
}

/// Well-formedness: the canonical tree of a history of items lying in the
/// square of `c` is well formed — every leaf above the depth limit holds
/// fewer items than the capacity, and every leaf's items lie in its square.
pub proof fn lemma_tree_of_wf<T>(c: LeafPos, items: Seq<Item<T>>, cap: nat, maxd: nat)
    requires
        c.wf(),
        c.depth <= maxd,
        maxd <= 31,
        cap >= 1,
        forall|j: int| 0 <= j < items.len() ==> in_square(c, #[trigger] items[j]),
    ensures
        tree_of(c, items, cap, maxd).wf(cap, maxd),
        tree_of(c, items, cap, maxd).code() == c,
    decreases 31 - c.depth,
{
    if !(items.len() < cap || c.depth as nat >= maxd || c.depth >= 31) {
        assert forall|q: int| 0 <= q < 4 implies {
            &&& c.spec_child(q).wf()
            &&& c.spec_child(q).depth == c.depth + 1
            &&& forall|k: int|
                0 <= k < filter_quad(items, c, q).len() ==> in_square(
                    c.spec_child(q),
                    #[trigger] filter_quad(items, c, q)[k],
                )
        } by {
            lemma_child_geometry(c, q);
            lemma_filter_quad_in_child(items, c, q);
        }
        lemma_tree_of_wf(c.spec_child(0), filter_quad(items, c, 0), cap, maxd);
        lemma_tree_of_wf(c.spec_child(1), filter_quad(items, c, 1), cap, maxd);
        lemma_tree_of_wf(c.spec_child(2), filter_quad(items, c, 2), cap, maxd);
        lemma_tree_of_wf(c.spec_child(3), filter_quad(items, c, 3), cap, maxd);
    }
}

} // verus!
