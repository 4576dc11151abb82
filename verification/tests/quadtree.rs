use quadtree::model::Item;
use quadtree::model::Payload;
use quadtree::position::LeafPos;
use quadtree::tree::{OutOfBounds, Quadtree};

/// The fixed-point value of one unit-square side.
const ONE: u64 = 0x100000000;
const HALF: u64 = 0x80000000;

/// A real coordinate as a fixed-point coordinate.
fn c(v: f64) -> u64 {
    (v * 4294967296.0) as u64
}

/// The root quadrant a position belongs to, by the tie-break convention.
fn root_quadrant(x: u64, y: u64) -> u64 {
    (if x >= HALF { 1 } else { 0 }) + (if y >= HALF { 2 } else { 0 })
}

#[test]
fn position_code_encoding() {
    let root = LeafPos::new();
    assert_eq!(root.path, 0);
    assert_eq!(root.depth, 0);
    let se = root.child(3);
    assert_eq!(se.path, 3);
    assert_eq!(se.depth, 1);
    let nested = root.child(1).child(2);
    assert_eq!(nested.path, 1 + 2 * 4);
    assert_eq!(nested.depth, 2);
}

#[test]
fn position_code_geometry() {
    let root = LeafPos::new();
    assert_eq!(root.center(), (HALF, HALF));
    assert_eq!(root.half_extent(), HALF);
    let se = root.child(3);
    assert_eq!(se.center(), (3221225472, 3221225472));
    assert_eq!(se.half_extent(), 1073741824);
    let ne = root.child(1);
    assert_eq!(ne.center(), (3221225472, 1073741824));
    let nested = ne.child(2);
    assert_eq!(nested.center(), (2684354560, 1610612736));
    assert_eq!(nested.half_extent(), 536870912);
}

#[test]
fn item_accessors() {
    let it = Item::new(5, 7, String::from("payload"));
    assert_eq!(it.x(), 5);
    assert_eq!(it.y(), 7);
    assert_eq!(it.pos(), (5, 7));
    assert_eq!(it.data, String::from("payload"));
}

#[test]
fn configuration_getters() {
    let t: Quadtree<i64> = Quadtree::default();
    assert_eq!(t.capacity(), 8);
    assert_eq!(t.max_depth(), 4);
    let u: Quadtree<i64> = Quadtree::new(3, 5);
    assert_eq!(u.capacity(), 3);
    assert_eq!(u.max_depth(), 5);
    assert_eq!(u.count(), 0);
    assert!(!u.root_is_internal());
}

#[test]
fn out_of_bounds_rejected() {
    let mut t: Quadtree<i64> = Quadtree::default();
    let r = t.insert(Item::new(c(1.5), c(0.2), 1));
    assert_eq!(r, Err(OutOfBounds));
    assert_eq!(t.count(), 0);
    assert!(!t.root_is_internal());
    // The boundary itself is outside the half-open square.
    assert_eq!(t.insert(Item::new(ONE, 0, 2)), Err(OutOfBounds));
    assert_eq!(t.insert(Item::new(0, ONE, 3)), Err(OutOfBounds));
    assert_eq!(t.count(), 0);
    // Rejection leaves no trace: a corner point is still accepted afterwards.
    assert_eq!(t.insert(Item::new(0, 0, 4)), Ok(()));
    assert_eq!(t.count(), 1);
}

#[test]
fn boundary_tie_break() {
    let mut t: Quadtree<i64> = Quadtree::new(1, 4);
    assert_eq!(t.insert(Item::new(c(0.5), c(0.5), 1)), Ok(()));
    let first = t.locate(c(0.5), c(0.5)).unwrap();
    // A coordinate equal to the center takes the greater side on both axes.
    assert_eq!(first.path % 4, 3);
    assert_eq!(t.insert(Item::new(c(0.6), c(0.6), 2)), Ok(()));
    assert!(t.root_is_internal());
    assert_eq!(t.count(), 2);
    let a = t.locate(c(0.5), c(0.5)).unwrap();
    let b = t.locate(c(0.6), c(0.6)).unwrap();
    assert!(a.depth >= 1);
    assert!(b.depth >= 1);
    // Both points live under the root quadrant whose bits are set on both axes.
    assert_eq!(a.path % 4, 3);
    assert_eq!(b.path % 4, 3);
}

#[test]
fn subdivision_spreads_items() {
    let mut t: Quadtree<usize> = Quadtree::new(8, 4);
    let points = [
        (c(0.1), c(0.1)),
        (c(0.4), c(0.1)),
        (c(0.7), c(0.1)),
        (c(0.1), c(0.4)),
        (c(0.4), c(0.4)),
        (c(0.7), c(0.4)),
        (c(0.1), c(0.7)),
        (c(0.4), c(0.7)),
        (c(0.7), c(0.7)),
    ];
    for (k, (x, y)) in points.iter().enumerate() {
        assert_eq!(t.insert(Item::new(*x, *y, k)), Ok(()));
    }
    assert!(t.root_is_internal());
    assert_eq!(t.count(), 9);
    for (x, y) in points.iter() {
        let leaf = t.locate(*x, *y).unwrap();
        // Each item sits under the root child whose quadrant holds it ...
        assert!(leaf.depth >= 1);
        assert_eq!(leaf.path % 4, root_quadrant(*x, *y));
        // ... and the leaf's half-open square contains the position.
        let (cx, cy) = leaf.center();
        let h = leaf.half_extent();
        assert!(cx - h <= *x && *x < cx + h);
        assert!(cy - h <= *y && *y < cy + h);
    }
}

#[test]
fn conservation_many_duplicates() {
    // Twenty items at one position cascade to a single over-capacity leaf at
    // the maximum depth; none is lost or duplicated.
    let mut t: Quadtree<i64> = Quadtree::default();
    for k in 0..20 {
        assert_eq!(t.insert(Item::new(c(0.2), c(0.0), k)), Ok(()));
    }
    assert_eq!(t.count(), 20);
    assert!(t.root_is_internal());
    let leaf = t.locate(c(0.2), c(0.0)).unwrap();
    assert_eq!(leaf.depth, 4);
}

#[test]
fn overflow_at_max_depth() {
    let mut t: Quadtree<i64> = Quadtree::new(2, 1);
    for k in 0..5 {
        assert_eq!(t.insert(Item::new(c(0.9), c(0.9), k)), Ok(()));
    }
    assert_eq!(t.count(), 5);
    assert!(t.root_is_internal());
    // The leaf at the depth limit holds all five items, over capacity.
    let leaf = t.locate(c(0.9), c(0.9)).unwrap();
    assert_eq!(leaf.depth, 1);
}

#[test]
fn heterogeneous_payloads() {
    let mut t: Quadtree<Payload> = Quadtree::default();
    assert_eq!(t.insert(Item::new(c(0.1), c(0.1), Payload::Int(-4))), Ok(()));
    assert_eq!(
        t.insert(Item::new(c(0.11), c(0.11), Payload::Text(String::from("tag")))),
        Ok(())
    );
    assert_eq!(t.insert(Item::new(c(0.12), c(0.12), Payload::Flag(true))), Ok(()));
    assert_eq!(t.count(), 3);
    // All three kinds share one leaf: the tree has not subdivided.
    assert!(!t.root_is_internal());
    let it = Item::new(1, 2, Payload::Text(String::from("tag")));
    assert_eq!(it.data, Payload::Text(String::from("tag")));
}

#[test]
fn deterministic_assignment() {
    let points = [
        (c(0.12), c(0.34)),
        (c(0.56), c(0.78)),
        (c(0.5), c(0.5)),
        (c(0.99), c(0.01)),
        (c(0.33), c(0.33)),
    ];
    let mut a: Quadtree<u32> = Quadtree::new(2, 6);
    let mut b: Quadtree<u32> = Quadtree::new(2, 6);
    for (k, (x, y)) in points.iter().enumerate() {
        assert_eq!(a.insert(Item::new(*x, *y, k as u32)), Ok(()));
        assert_eq!(b.insert(Item::new(*x, *y, k as u32)), Ok(()));
    }
    assert_eq!(a.count(), b.count());
    for (x, y) in points.iter() {
        let la = a.locate(*x, *y).unwrap();
        let lb = b.locate(*x, *y).unwrap();
        assert_eq!(la, lb);
    }
    assert_eq!(a.locate(ONE, 0), None);
}
