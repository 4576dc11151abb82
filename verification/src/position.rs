//! Position codes: the path of quadrant choices that identifies a node of the
//! quadtree, together with the node's square region of the unit square.
//!
//! Coordinates are fixed-point fractions of the unit square: a coordinate `v`
//! stands for the real number `v / 2^32`, so the unit square `[0, 1) x [0, 1)`
//! is exactly the set of pairs below `ONE = 2^32` on both axes.

use vstd::prelude::*;

verus! {

use vstd::arithmetic::power2::{
    pow2, lemma_pow2_pos, lemma_pow2_unfold, lemma_pow2_adds, lemma_pow2_strictly_increases,
    lemma2_to64, lemma2_to64_rest,
};
use vstd::arithmetic::div_mod::lemma_fundamental_div_mod_converse;

/// One unit-square side length, in fixed-point coordinates.
pub const ONE: u64 = 0x100000000;

/// Half a unit-square side length: the coordinate of the root's center.
pub const HALF: u64 = 0x80000000;

/// The deepest level a path integer of 62 usable bits can address while its
/// square still has a positive half-extent.
pub const MAX_DEPTH_LIMIT: u8 = 31;

/// `4^e`, the number of distinct paths of `e` quadrant choices.
pub open spec fn pow4(e: nat) -> nat {
    pow2(2 * e)
}

/// The half-extent of a node square at a given depth: `2^(31 - depth)`,
/// i.e. `HALF` halved once per level.
pub open spec fn half_ext(depth: nat) -> int
    recommends
        depth <= 31,
{
    pow2((31 - depth) as nat) as int
}

/// The x coordinate of the center of the node addressed by `path` at `depth`.
/// The quadrant choice of the deepest level occupies the topmost two used bits
/// of `path`; peeling it off moves from the parent's center by the child's
/// half-extent, to the right when the low bit of the choice is set.
pub open spec fn cx(path: int, depth: nat) -> int
    decreases depth,
{
    if depth == 0 {
        HALF as int
    } else {
        let p = pow4((depth - 1) as nat) as int;
        let q = path / p;
        cx(path % p, (depth - 1) as nat) + if q % 2 == 1 {
            half_ext(depth)
        } else {
            -half_ext(depth)
        }
    }
}

/// The y coordinate of the center of the node addressed by `path` at `depth`:
/// as `cx`, but moving down when the high bit of the quadrant choice is set.
pub open spec fn cy(path: int, depth: nat) -> int
    decreases depth,
{
    if depth == 0 {
        HALF as int
    } else {
        let p = pow4((depth - 1) as nat) as int;
        let q = path / p;
        cy(path % p, (depth - 1) as nat) + if q / 2 % 2 == 1 {
            half_ext(depth)
        } else {
            -half_ext(depth)
        }
    }
}

/// A node's location in the tree: the sequence of quadrant choices taken from
/// the root, packed two bits per level with level 0 in the least significant
/// bits, plus the number of levels.
#[derive(Clone, Copy, Debug, PartialEq, Eq, Structural)]
pub struct LeafPos {
    pub path: u64,
    pub depth: u8,
}

/// The code of the root node: the empty path.
pub open spec fn root_code() -> LeafPos {
    LeafPos { path: 0, depth: 0 }
}

impl LeafPos {
    /// A code is well formed when its depth is addressable and its path uses
    /// only the two bits of each of its `depth` levels.
    pub open spec fn wf(self) -> bool {
        self.depth <= 31 && (self.path as nat) < pow4(self.depth as nat)
    }

    /// The x coordinate of this node's center.
    pub open spec fn center_x(self) -> int {
        cx(self.path as int, self.depth as nat)
    }

    /// The y coordinate of this node's center.
    pub open spec fn center_y(self) -> int {
        cy(self.path as int, self.depth as nat)
    }

    /// This node's half-extent.
    pub open spec fn half(self) -> int {
        half_ext(self.depth as nat)
    }

    /// Whether the point lies in this node's half-open square
    /// `[center - half, center + half)` on both axes.
    pub open spec fn contains_pt(self, x: int, y: int) -> bool {
        &&& self.center_x() - self.half() <= x < self.center_x() + self.half()
        &&& self.center_y() - self.half() <= y < self.center_y() + self.half()
    }

    /// The quadrant of this node that the point belongs to: bit 0 set when the
    /// point is on or right of the center, bit 1 set when on or below it, so
    /// that a coordinate equal to the center always takes the greater side.
    pub open spec fn quadrant_of(self, x: int, y: int) -> int {
        (if x >= self.center_x() {
            1int
        } else {
            0int
        }) + (if y >= self.center_y() {
            2int
        } else {
            0int
        })
    }

    /// The code of this node's child in quadrant `q`: one level deeper, with
    /// the choice `q` appended at the new deepest level.
    pub open spec fn spec_child(self, q: int) -> LeafPos {
        LeafPos {
            path: (self.path + q * pow4(self.depth as nat)) as u64,
            depth: (self.depth + 1) as u8,
        }
    }

    /// The code of the root node.
    pub fn new() -> (r: Self)
        ensures
            r == root_code(),
            r.wf(),
    {
        proof {
            lemma2_to64();
        }
        LeafPos { path: 0, depth: 0 }
    }

    /// The code of this node's child in the given quadrant.
    pub fn child(&self, quadrant: u8) -> (r: Self)
        requires
            self.wf(),
            quadrant < 4,
            self.depth < MAX_DEPTH_LIMIT,
        ensures
            r == self.spec_child(quadrant as int),
            r.wf(),
    {
        proof {
            lemma_child_geometry(*self, quadrant as int);
        }
        let p4: u64 = pow2_u64(2 * self.depth);
        LeafPos { path: self.path + (quadrant as u64) * p4, depth: self.depth + 1 }
    }

    /// The center of this node's square, as a fixed-point coordinate pair.
    pub fn center(&self) -> (r: (u64, u64))
        requires
            self.wf(),
        ensures
            r.0 == self.center_x(),
            r.1 == self.center_y(),
            self.half() <= r.0,
            r.0 + self.half() <= ONE,
            self.half() <= r.1,
            r.1 + self.half() <= ONE,
        decreases self.depth,
    {
        proof {
            lemma2_to64();
            lemma2_to64_rest();
        }
        if self.depth == 0 {
            (HALF, HALF)
        } else {
            let p4: u64 = pow2_u64(2 * (self.depth - 1));
            proof {
                lemma_pow2_pos((2 * (self.depth - 1)) as nat);
            }
            let q: u64 = self.path / p4;
            let rest: u64 = self.path % p4;
            let parent = LeafPos { path: rest, depth: self.depth - 1 };
            proof {
                assert(parent.wf());
            }
            let (px, py) = parent.center();
            let h: u64 = pow2_u64(31 - self.depth);
            proof {
                lemma_pow2_unfold((31 - (self.depth - 1)) as nat);
                assert(2 * half_ext(self.depth as nat) == half_ext((self.depth - 1) as nat));
            }
            let x: u64 = if q % 2 == 1 {
                px + h
            } else {
                px - h
            };
            let y: u64 = if (q / 2) % 2 == 1 {
                py + h
            } else {
                py - h
            };
            proof {
                lemma_quad_in_range(*self);
            }
            (x, y)
        }
    }

    /// This node's half-extent, as a fixed-point length.
    pub fn half_extent(&self) -> (r: u64)
        requires
            self.wf(),
        ensures
            r == self.half(),
    {
        pow2_u64(31 - self.depth)
    }
}

/// The quadrant choice of the deepest level of a well-formed, non-root code
/// is one of the four valid choices.
proof fn lemma_quad_in_range(c: LeafPos)
    requires
        c.wf(),
        c.depth > 0,
    ensures
        0 <= (c.path as int) / (pow4((c.depth - 1) as nat) as int) < 4,
{
    let d1 = (c.depth - 1) as nat;
    let p = pow4(d1) as int;
    lemma_pow2_pos(2 * d1);
    lemma_pow2_adds(2 * d1, 2);
    lemma2_to64();
    assert(pow4(c.depth as nat) == 4 * pow4(d1));
    assert((c.path as int) / p < 4) by {
        assert(c.path < p * 4) by (nonlinear_arith)
            requires
                (c.path as int) < 4 * p,
        ;
        vstd::arithmetic::div_mod::lemma_multiply_divide_lt(c.path as int, p, 4);
    }
    vstd::arithmetic::div_mod::lemma_div_pos_is_pos(c.path as int, p);
}

/// `2^e` as a machine word.
fn pow2_u64(e: u8) -> (r: u64)
    requires
        e <= 63,
    ensures
        r == pow2(e as nat),
{
    proof {
        lemma2_to64();
    }
    let mut r: u64 = 1;
    let mut i: u8 = 0;
    while i < e
        invariant
            i <= e <= 63,
            r == pow2(i as nat),
        decreases e - i,
    {
        proof {
            lemma_pow2_unfold((i + 1) as nat);
            if (i + 1) < 64 {
                lemma_pow2_strictly_increases((i + 1) as nat, 64);
            }
            lemma2_to64_rest();
        }
        r = r * 2;
        i = i + 1;
    }
    r
}

/// How a child's square relates to its parent's: the path gains the quadrant
/// choice at the new deepest level, the half-extent halves, and the center
/// moves by the child's half-extent in the direction each choice bit selects.
pub proof fn lemma_child_geometry(c: LeafPos, q: int)
    requires
        c.wf(),
        c.depth < 31,
        0 <= q < 4,
    ensures
        c.spec_child(q).wf(),
        c.spec_child(q).depth == c.depth + 1,
        c.spec_child(q).path == c.path + q * pow4(c.depth as nat),
        2 * c.spec_child(q).half() == c.half(),
        c.spec_child(q).center_x() == c.center_x() + (if q % 2 == 1 {
            c.spec_child(q).half()
        } else {
            -c.spec_child(q).half()
        }),
        c.spec_child(q).center_y() == c.center_y() + (if q / 2 % 2 == 1 {
            c.spec_child(q).half()
        } else {
            -c.spec_child(q).half()
        }),
{
    let d = c.depth as nat;
    let p = pow4(d) as int;
    lemma_pow2_pos(2 * d);
    lemma_pow2_adds(2 * d, 2);
    lemma2_to64();
    lemma2_to64_rest();
    assert(pow4(d + 1) == 4 * pow4(d));
    let v = c.path + q * p;
    assert(q * p <= 3 * p) by (nonlinear_arith)
        requires
            q <= 3,
            p > 0,
    ;
    assert(0 <= q * p) by (nonlinear_arith)
        requires
            q >= 0,
            p > 0,
    ;
    assert(v < pow4(d + 1));
    if 2 * d + 2 < 62 {
        lemma_pow2_strictly_increases(2 * d + 2, 62);
    }
    assert(v < pow2(64));
    let k = c.spec_child(q);
    assert(k.path == v);
    assert(k.depth == c.depth + 1);
    assert((k.path as nat) < pow4(k.depth as nat));
    lemma_fundamental_div_mod_converse(v, p, q, c.path as int);
    assert(v / p == q && v % p == c.path as int);
    lemma_pow2_unfold((31 - d) as nat);
    assert(2 * half_ext(d + 1) == half_ext(d));
    assert(k.center_x() == cx(c.path as int, d) + (if q % 2 == 1 {
        half_ext(d + 1)
    } else {
        -half_ext(d + 1)
    }));
    assert(k.center_y() == cy(c.path as int, d) + (if q / 2 % 2 == 1 {
        half_ext(d + 1)
    } else {
        -half_ext(d + 1)
    }));
}

/// A point inside a node's square lies inside the square of the child in the
/// quadrant that `quadrant_of` assigns it to.
pub proof fn lemma_quadrant(c: LeafPos, x: int, y: int)
    requires
        c.wf(),
        c.depth < 31,
        c.contains_pt(x, y),
    ensures
        0 <= c.quadrant_of(x, y) < 4,
        c.spec_child(c.quadrant_of(x, y)).contains_pt(x, y),
{
    let q = c.quadrant_of(x, y);
    lemma_child_geometry(c, q);
}

/// The root's square is exactly the unit square.
pub proof fn lemma_root_box(x: int, y: int)
    ensures
        root_code().wf(),
        root_code().contains_pt(x, y) <==> (0 <= x < ONE && 0 <= y < ONE),
{
    lemma2_to64();
    assert(root_code().center_x() == HALF);
    assert(root_code().center_y() == HALF);
    assert(root_code().half() == pow2(31));
}

} // verus!
