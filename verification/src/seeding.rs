//! Where island seeds may go: the cells that no seed is too close to, and why a map always
//! has room for as many seeds as it has cells (5a, 5b).
use vstd::prelude::*;

verus! {

/// Seeds closer than this, in both directions, are too close to each other.
pub const MIN_DISTANCE: usize = 2;

/// `a` and `b` differ by at most `d` in both row and column.
pub open spec fn within(a: (usize, usize), b: (usize, usize), d: int) -> bool {
    &&& -d <= a.0 - b.0 <= d
    &&& -d <= a.1 - b.1 <= d
}

/// Some seed is too close to `x`.
pub open spec fn near_a_seed(seeds: Seq<(usize, usize)>, x: (usize, usize)) -> bool {
    exists|i: int| 0 <= i < seeds.len() && within(#[trigger] seeds[i], x, MIN_DISTANCE as int)
}

/// The cell lies on a `size` by `size` map.
pub open spec fn on_map(x: (usize, usize), size: int) -> bool {
    x.0 < size && x.1 < size
}

/// Number of multiples of five below `size`: the side of the lattice of cells (5a, 5b).
pub open spec fn lattice_side(size: int) -> int {
    (size + 4) / 5
}

/// How many seeds a `size` by `size` map has room for, wherever the earlier seeds fell: the
/// number of its cells (5a, 5b). Seeds on such cells are never too close to each other, and
/// a seed is too close to at most one of them.
pub open spec fn seed_room(size: int) -> int {
    lattice_side(size) * lattice_side(size)
}

/// A lattice cell: both coordinates are multiples of five.
pub open spec fn on_lattice(p: (usize, usize)) -> bool {
    p.0 % 5 == 0 && p.1 % 5 == 0
}

/// The lattice cells (5a, 5b) with `a < rows`, row by row.
proof fn lemma_lattice(size: int, rows: int) -> (pts: Seq<(usize, usize)>)
    requires
        0 <= size <= usize::MAX,
        0 <= rows <= lattice_side(size),
    ensures
        pts.len() == rows * lattice_side(size),
        pts.no_duplicates(),
        forall|j: int| 0 <= j < pts.len() ==> on_map(#[trigger] pts[j], size),
        forall|j: int| 0 <= j < pts.len() ==> on_lattice(#[trigger] pts[j]),
        forall|j: int| 0 <= j < pts.len() ==> (#[trigger] pts[j]).0 < 5 * rows,
    decreases rows,
{
    let side = lattice_side(size);
    if rows == 0 {
        let pts = Seq::<(usize, usize)>::empty();
        assert(pts.len() == rows * side);
        pts
    } else {
        let prev = lemma_lattice(size, rows - 1);
        let r = 5 * (rows - 1);
        assert(5 * side <= size + 4);
        let row = Seq::new(side as nat, |b: int| (r as usize, (5 * b) as usize));
        let pts = prev + row;
        assert((rows - 1) * side + side == rows * side) by (nonlinear_arith);
        assert forall|j: int| 0 <= j < pts.len() implies on_map(#[trigger] pts[j], size) && on_lattice(pts[j]) && pts[j].0 < 5 * rows by {
            if j < prev.len() {
                assert(pts[j] == prev[j]);
                assert(on_map(prev[j], size));
                assert(on_lattice(prev[j]));
            } else {
                assert(pts[j] == row[j - prev.len()]);
            }
        }
        assert forall|i: int, j: int| 0 <= i < pts.len() && 0 <= j < pts.len() && i != j implies pts[i] != pts[j] by {
            if i < prev.len() && j < prev.len() {
                assert(pts[i] == prev[i] && pts[j] == prev[j]);
            } else if i < prev.len() {
                assert(pts[i] == prev[i]);
                assert(on_map(prev[i], size));
                assert(pts[j] == row[j - prev.len()]);
            } else if j < prev.len() {
                assert(pts[j] == prev[j]);
                assert(on_map(prev[j], size));
                assert(pts[i] == row[i - prev.len()]);
            } else {
                assert(pts[i] == row[i - prev.len()]);
                assert(pts[j] == row[j - prev.len()]);
            }
        }
        assert(pts.len() == rows * side);
        assert(pts.no_duplicates());
        pts
    }
}

/// With fewer seeds than points, and each seed blocking at most one point, some point is
/// blocked by no seed.
proof fn lemma_free_point<A, B>(seeds: Seq<A>, pts: Seq<B>, blocks: spec_fn(A, B) -> bool) -> (j: int)
    requires
        pts.no_duplicates(),
        seeds.len() < pts.len(),
        forall|s: A, p: B, q: B| #[trigger] blocks(s, p) && #[trigger] blocks(s, q) ==> p == q,
    ensures
        0 <= j < pts.len(),
        forall|k: int| 0 <= k < seeds.len() ==> !blocks(#[trigger] seeds[k], pts[j]),
    decreases seeds.len(),
{
    if seeds.len() == 0 {
        0
    } else {
        let s = seeds.last();
        let rest = seeds.drop_last();
        if exists|i: int| 0 <= i < pts.len() && #[trigger] blocks(s, pts[i]) {
            let i0 = choose|i: int| 0 <= i < pts.len() && #[trigger] blocks(s, pts[i]);
            let others = pts.remove(i0);
            assert forall|a: int, b: int| 0 <= a < others.len() && 0 <= b < others.len() && a != b implies others[a] != others[b] by {
                let a0 = if a < i0 { a } else { a + 1 };
                let b0 = if b < i0 { b } else { b + 1 };
                assert(others[a] == pts[a0] && others[b] == pts[b0]);
            }
            let j1 = lemma_free_point(rest, others, blocks);
            let j = if j1 < i0 { j1 } else { j1 + 1 };
            assert(others[j1] == pts[j]);
            assert(j != i0);
            assert forall|k: int| 0 <= k < seeds.len() implies !blocks(#[trigger] seeds[k], pts[j]) by {
                if k < rest.len() {
                    assert(rest[k] == seeds[k]);
                } else if blocks(seeds[k], pts[j]) {
                    assert(seeds[k] == s);
                    assert(pts[j] == pts[i0]);
                }
            }
            j
        } else {
            let j = lemma_free_point(rest, pts, blocks);
            assert forall|k: int| 0 <= k < seeds.len() implies !blocks(#[trigger] seeds[k], pts[j]) by {
                if k < rest.len() {
                    assert(rest[k] == seeds[k]);
                }
            }
            j
        }
    }
}

/// While fewer seeds than the map has room for are placed, some cell of the map is not too
/// close to any seed.
pub proof fn lemma_room_left(seeds: Seq<(usize, usize)>, size: int) -> (p: (usize, usize))
    requires
        0 <= size <= usize::MAX,
        seeds.len() < seed_room(size),
    ensures
        on_map(p, size),
        !near_a_seed(seeds, p),
{
    let side = lattice_side(size);
    let pts = lemma_lattice(size, side);
    let blocks = |s: (usize, usize), p: (usize, usize)| within(s, p, MIN_DISTANCE as int) && on_lattice(p);
    assert forall|s: (usize, usize), p: (usize, usize), q: (usize, usize)| #[trigger] blocks(s, p) && #[trigger] blocks(s, q) implies p == q by {
        assert(p.0 == q.0) by (nonlinear_arith)
            requires
                -4 <= p.0 - q.0 <= 4,
                p.0 % 5 == 0,
                q.0 % 5 == 0,
        ;
        assert(p.1 == q.1) by (nonlinear_arith)
            requires
                -4 <= p.1 - q.1 <= 4,
                p.1 % 5 == 0,
                q.1 % 5 == 0,
        ;
    }
    let j = lemma_free_point(seeds, pts, blocks);
    let p = pts[j];
    assert(on_map(p, size) && on_lattice(p));
    assert forall|i: int| 0 <= i < seeds.len() implies !within(#[trigger] seeds[i], p, MIN_DISTANCE as int) by {
        assert(!blocks(seeds[i], pts[j]));
    }
    p
}

/// Every cell of a `size` by `size` map, row by row.
pub fn all_cells(size: usize) -> (cells: Vec<(usize, usize)>)
    ensures
        forall|x: (usize, usize)| cells@.contains(x) <==> on_map(x, size as int),
{
    let mut cells: Vec<(usize, usize)> = Vec::new();
    let mut r: usize = 0;
    while r < size
        invariant
            r <= size,
            forall|x: (usize, usize)| #[trigger] cells@.contains(x) <==> on_map(x, size as int) && x.0 < r,
        decreases size - r,
    {
        let mut c: usize = 0;
        assert forall|x: (usize, usize)| #[trigger] cells@.contains(x) <==> on_map(x, size as int) && (x.0 < r || (x.0 == r && x.1 < c)) by {
            assert(cells@.contains(x) <==> on_map(x, size as int) && x.0 < r);
        }
        while c < size
            invariant
                r < size,
                c <= size,
                forall|x: (usize, usize)| #[trigger] cells@.contains(x) <==> on_map(x, size as int) && (x.0 < r || (x.0 == r && x.1 < c)),
            decreases size - c,
        {
            let ghost before = cells@;
            cells.push((r, c));
            proof {
                assert forall|x: (usize, usize)| #[trigger] cells@.contains(x) <==> on_map(x, size as int) && (x.0 < r || (x.0 == r && x.1 < c + 1)) by {
                    assert(before.contains(x) <==> on_map(x, size as int) && (x.0 < r || (x.0 == r && x.1 < c)));
                    if x == (r, c) {
                        assert(cells@[cells@.len() - 1] == x);
                    } else if cells@.contains(x) {
                        let i = choose|i: int| 0 <= i < cells@.len() && cells@[i] == x;
                        assert(before[i] == x);
                    } else if before.contains(x) {
                        let i = choose|i: int| 0 <= i < before.len() && before[i] == x;
                        assert(cells@[i] == x);
                    }
                }
            }
            c = c + 1;
        }
        assert forall|x: (usize, usize)| #[trigger] cells@.contains(x) <==> on_map(x, size as int) && x.0 < r + 1 by {
            assert(cells@.contains(x) <==> on_map(x, size as int) && (x.0 < r || (x.0 == r && x.1 < c)));
        }
        r = r + 1;
    }
    cells
}

/// The cells that stay allowed once a seed is placed at `s`: those not too close to it.
pub fn drop_near(cells: &Vec<(usize, usize)>, s: (usize, usize)) -> (kept: Vec<(usize, usize)>)
    ensures
        forall|x: (usize, usize)| kept@.contains(x) <==> cells@.contains(x) && !within(s, x, MIN_DISTANCE as int),
{
    let mut kept: Vec<(usize, usize)> = Vec::new();
    let mut i: usize = 0;
    while i < cells.len()
        invariant
            i <= cells@.len(),
            forall|x: (usize, usize)| #[trigger] kept@.contains(x) <==> (exists|j: int| 0 <= j < i && cells@[j] == x) && !within(s, x, MIN_DISTANCE as int),
        decreases cells@.len() - i,
    {
        let x = cells[i];
        let (r, c) = x;
        let dr: i128 = (s.0 as i128) - (r as i128);
        let dc: i128 = (s.1 as i128) - (c as i128);
        let d: i128 = MIN_DISTANCE as i128;
        let ghost before = kept@;
        let far = !(-d <= dr && dr <= d && -d <= dc && dc <= d);
        assert(far == !within(s, x, MIN_DISTANCE as int));
        if far {
            kept.push(x);
        }
        proof {
            assert forall|y: (usize, usize)| #[trigger] kept@.contains(y) <==> (exists|j: int| 0 <= j < i + 1 && cells@[j] == y) && !within(s, y, MIN_DISTANCE as int) by {
                assert(before.contains(y) <==> (exists|j: int| 0 <= j < i && cells@[j] == y) && !within(s, y, MIN_DISTANCE as int));
                if exists|j: int| 0 <= j < i + 1 && cells@[j] == y {
                    let j = choose|j: int| 0 <= j < i + 1 && cells@[j] == y;
                    if j < i {
                        if before.contains(y) {
                            let k = choose|k: int| 0 <= k < before.len() && before[k] == y;
                            assert(kept@[k] == y);
                        }
                    } else if !within(s, y, MIN_DISTANCE as int) {
                        assert(kept@[kept@.len() - 1] == y);
                    }
                }
                if kept@.contains(y) {
                    let k = choose|k: int| 0 <= k < kept@.len() && kept@[k] == y;
                    if k < before.len() {
                        assert(before[k] == y);
                        assert(before.contains(y));
                        let j = choose|j: int| 0 <= j < i && cells@[j] == y;
                        assert(0 <= j < i + 1 && cells@[j] == y);
                    } else {
                        assert(far && y == x);
                        assert(cells@[i as int] == y);
                    }
                }
            }
        }
        i = i + 1;
    }
    kept
}

} // verus!
