//! The number of islands does not depend on how a map is turned: transposing it,
//! turning it upside down or mirroring it left to right keeps the count.
use vstd::prelude::*;
use crate::grid::{
    adjacent, connected, is_island_start, is_land, is_path, island_count, lemma_connected_ends,
    lemma_connected_symm, lemma_connected_trans, law_islands_counted_by_representatives,
    one_per_island, precedes, starts_before_row, starts_in_row,
};

verus! {

/// Every row of `g` has exactly `cols` cells.
pub open spec fn is_rectangle(g: Seq<Seq<bool>>, cols: int) -> bool {
    forall|r: int| 0 <= r < g.len() ==> #[trigger] g[r].len() == cols
}

/// The map with rows and columns swapped: row `c` of the result is column `c` of `g`.
pub open spec fn transposed(g: Seq<Seq<bool>>, cols: int) -> Seq<Seq<bool>> {
    Seq::new(cols as nat, |c: int| Seq::new(g.len(), |r: int| g[r][c]))
}

/// The map with its rows in reverse order.
pub open spec fn upside_down(g: Seq<Seq<bool>>) -> Seq<Seq<bool>> {
    g.reverse()
}

/// The map with each row reversed.
pub open spec fn mirrored(g: Seq<Seq<bool>>) -> Seq<Seq<bool>> {
    Seq::new(g.len(), |r: int| g[r].reverse())
}

/// Among the cells connected to `x`, one in the lowest row.
proof fn lemma_lowest_row(g: Seq<Seq<bool>>, cols: int, x: (int, int), b: (int, int)) -> (m: (int, int))
    requires
        connected(g, cols, x, b),
    ensures
        connected(g, cols, x, m),
        forall|y: (int, int)| #[trigger] connected(g, cols, x, y) ==> y.0 >= m.0,
    decreases b.0,
{
    lemma_connected_ends(g, cols, x, b);
    if exists|y: (int, int)| #[trigger] connected(g, cols, x, y) && y.0 < b.0 {
        let y = choose|y: (int, int)| #[trigger] connected(g, cols, x, y) && y.0 < b.0;
        lemma_connected_ends(g, cols, x, y);
        lemma_lowest_row(g, cols, x, y)
    } else {
        b
    }
}

/// Among the cells connected to `x` in row `row`, which holds no lower cell, the leftmost.
proof fn lemma_leftmost_in_row(g: Seq<Seq<bool>>, cols: int, x: (int, int), row: int, b: (int, int)) -> (m: (int, int))
    requires
        connected(g, cols, x, b),
        b.0 == row,
    ensures
        connected(g, cols, x, m),
        m.0 == row,
        forall|y: (int, int)| #[trigger] connected(g, cols, x, y) && y.0 == row ==> y.1 >= m.1,
    decreases b.1,
{
    lemma_connected_ends(g, cols, x, b);
    if exists|y: (int, int)| #[trigger] connected(g, cols, x, y) && y.0 == row && y.1 < b.1 {
        let y = choose|y: (int, int)| #[trigger] connected(g, cols, x, y) && y.0 == row && y.1 < b.1;
        lemma_connected_ends(g, cols, x, y);
        lemma_leftmost_in_row(g, cols, x, row, y)
    } else {
        b
    }
}

/// Every land cell lies on an island whose first cell is an island start.
proof fn lemma_start_of_island(g: Seq<Seq<bool>>, cols: int, x: (int, int)) -> (m: (int, int))
    requires
        is_land(g, cols, x),
    ensures
        is_island_start(g, cols, m),
        connected(g, cols, m, x),
{
    crate::grid::lemma_connected_self(g, cols, x);
    let low = lemma_lowest_row(g, cols, x, x);
    let m = lemma_leftmost_in_row(g, cols, x, low.0, low);
    lemma_connected_ends(g, cols, x, m);
    assert forall|b: (int, int)| #[trigger] connected(g, cols, m, b) implies !precedes(b, m) by {
        lemma_connected_trans(g, cols, x, m, b);
    }
    lemma_connected_symm(g, cols, x, m);
    m
}

/// The island starts before cell (`r`, `c`), in row-major order.
proof fn lemma_starts_before(g: Seq<Seq<bool>>, cols: int, r: int, c: int) -> (reps: Seq<(int, int)>)
    requires
        0 <= r,
        0 <= c <= cols,
    ensures
        reps.len() == starts_before_row(g, cols, r) + starts_in_row(g, cols, r, c),
        forall|j: int| 0 <= j < reps.len() ==> #[trigger] is_island_start(g, cols, reps[j]) && precedes(reps[j], (r, c)),
        forall|i: int, j: int| 0 <= i < j < reps.len() ==> precedes(#[trigger] reps[i], #[trigger] reps[j]),
        forall|x: (int, int)| #[trigger] is_island_start(g, cols, x) && precedes(x, (r, c)) ==> exists|j: int| 0 <= j < reps.len() && reps[j] == x,
    decreases r, c,
{
    if c > 0 {
        let prev = lemma_starts_before(g, cols, r, c - 1);
        let here = (r, c - 1);
        let reps = if is_island_start(g, cols, here) {
            prev.push(here)
        } else {
            prev
        };
        assert forall|j: int| 0 <= j < reps.len() implies #[trigger] is_island_start(g, cols, reps[j]) && precedes(reps[j], (r, c)) by {
            if j < prev.len() {
                assert(reps[j] == prev[j]);
                assert(is_island_start(g, cols, prev[j]));
            }
        }
        assert forall|i: int, j: int| 0 <= i < j < reps.len() implies precedes(#[trigger] reps[i], #[trigger] reps[j]) by {
            assert(reps[i] == prev[i]);
            if j < prev.len() {
                assert(reps[j] == prev[j]);
            } else {
                assert(is_island_start(g, cols, prev[i]));
            }
        }
        assert forall|x: (int, int)| #[trigger] is_island_start(g, cols, x) && precedes(x, (r, c)) implies exists|j: int| 0 <= j < reps.len() && reps[j] == x by {
            if precedes(x, here) {
                let j = choose|j: int| 0 <= j < prev.len() && prev[j] == x;
                assert(reps[j] == x);
            } else {
                assert(x == here);
                assert(reps[reps.len() - 1] == x);
            }
        }
        reps
    } else if r > 0 {
        let reps = lemma_starts_before(g, cols, r - 1, cols);
        assert forall|x: (int, int)| #[trigger] is_island_start(g, cols, x) && precedes(x, (r, c)) implies exists|j: int| 0 <= j < reps.len() && reps[j] == x by {
            assert(precedes(x, (r - 1, cols)));
        }
        assert forall|j: int| 0 <= j < reps.len() implies #[trigger] is_island_start(g, cols, reps[j]) && precedes(reps[j], (r, c)) by {
            assert(is_island_start(g, cols, reps[j]));
        }
        reps
    } else {
        Seq::empty()
    }
}

/// The island starts of a map, in row-major order, hold one cell of each island.
proof fn lemma_island_starts(g: Seq<Seq<bool>>, cols: int) -> (reps: Seq<(int, int)>)
    requires
        0 <= cols,
    ensures
        one_per_island(g, cols, reps),
        reps.len() == island_count(g, cols),
{
    let reps = lemma_starts_before(g, cols, g.len() as int, 0);
    assert forall|j: int| 0 <= j < reps.len() implies is_land(g, cols, #[trigger] reps[j]) by {
        assert(is_island_start(g, cols, reps[j]));
    }
    assert forall|j: int, k: int|
        0 <= j < reps.len() && 0 <= k < reps.len() && j != k implies !connected(g, cols, #[trigger] reps[j], #[trigger] reps[k]) by {
        if connected(g, cols, reps[j], reps[k]) {
            assert(is_island_start(g, cols, reps[j]));
            assert(is_island_start(g, cols, reps[k]));
            lemma_connected_symm(g, cols, reps[j], reps[k]);
            if j < k {
                assert(precedes(reps[j], reps[k]));
            } else {
                assert(precedes(reps[k], reps[j]));
            }
        }
    }
    assert forall|x: (int, int)| #[trigger] is_land(g, cols, x) implies exists|j: int| 0 <= j < reps.len() && #[trigger] connected(g, cols, reps[j], x) by {
        let m = lemma_start_of_island(g, cols, x);
        assert(precedes(m, (g.len() as int, 0)));
        let j = choose|j: int| 0 <= j < reps.len() && reps[j] == m;
        assert(connected(g, cols, reps[j], x));
    }
    reps
}

/// A walk over land in `g` maps to a walk over land in `h` under a map of cells that keeps
/// land and side neighbours.
proof fn lemma_connected_map(
    g: Seq<Seq<bool>>,
    c1: int,
    h: Seq<Seq<bool>>,
    c2: int,
    f: spec_fn((int, int)) -> (int, int),
    a: (int, int),
    b: (int, int),
)
    requires
        forall|x: (int, int)| #[trigger] is_land(g, c1, x) ==> is_land(h, c2, f(x)),
        forall|x: (int, int), y: (int, int)| #[trigger] adjacent(x, y) ==> adjacent(f(x), f(y)),
        connected(g, c1, a, b),
    ensures
        connected(h, c2, f(a), f(b)),
{
    let p = choose|p: Seq<(int, int)>| #[trigger] is_path(g, c1, p) && p[0] == a && p[p.len() - 1] == b;
    let q = p.map_values(f);
    assert forall|i: int| 0 <= i < q.len() implies is_land(h, c2, #[trigger] q[i]) by {
        assert(is_land(g, c1, p[i]));
    }
    assert forall|i: int| 0 <= i < q.len() - 1 implies #[trigger] adjacent(q[i], q[i + 1]) by {
        assert(adjacent(p[i], p[i + 1]));
    }
    assert(is_path(h, c2, q));
}

/// Two maps whose land cells correspond one to one, through maps of cells that keep side
/// neighbours both ways, have the same number of islands.
proof fn lemma_count_transfer(
    g: Seq<Seq<bool>>,
    c1: int,
    h: Seq<Seq<bool>>,
    c2: int,
    f: spec_fn((int, int)) -> (int, int),
    finv: spec_fn((int, int)) -> (int, int),
)
    requires
        0 <= c1,
        0 <= c2,
        forall|x: (int, int)| #[trigger] is_land(g, c1, x) ==> is_land(h, c2, f(x)) && finv(f(x)) == x,
        forall|y: (int, int)| #[trigger] is_land(h, c2, y) ==> is_land(g, c1, finv(y)) && f(finv(y)) == y,
        forall|x: (int, int), y: (int, int)| #[trigger] adjacent(x, y) ==> adjacent(f(x), f(y)),
        forall|x: (int, int), y: (int, int)| #[trigger] adjacent(x, y) ==> adjacent(finv(x), finv(y)),
    ensures
        island_count(h, c2) == island_count(g, c1),
{
    let reps = lemma_island_starts(g, c1);
    let images = reps.map_values(f);
    assert forall|j: int| 0 <= j < images.len() implies is_land(h, c2, #[trigger] images[j]) by {
        assert(is_land(g, c1, reps[j]));
    }
    assert forall|j: int, k: int|
        0 <= j < images.len() && 0 <= k < images.len() && j != k implies !connected(h, c2, #[trigger] images[j], #[trigger] images[k]) by {
        if connected(h, c2, images[j], images[k]) {
            assert(is_land(g, c1, reps[j]) && is_land(g, c1, reps[k]));
            lemma_connected_map(h, c2, g, c1, finv, images[j], images[k]);
            assert(!connected(g, c1, reps[j], reps[k]));
        }
    }
    assert forall|y: (int, int)| #[trigger] is_land(h, c2, y) implies exists|j: int| 0 <= j < images.len() && #[trigger] connected(h, c2, images[j], y) by {
        let x = finv(y);
        assert(is_land(g, c1, x));
        let j = choose|j: int| 0 <= j < reps.len() && #[trigger] connected(g, c1, reps[j], x);
        lemma_connected_map(g, c1, h, c2, f, reps[j], x);
        assert(connected(h, c2, images[j], y));
    }
    law_islands_counted_by_representatives(h, c2, images);
}

/// Transposing a map keeps its number of islands. Of a map with at least one row and one
/// column, all rows as long as the first, the island counter reports the same count for the
/// map and for its transpose.
pub proof fn law_transpose_keeps_island_count(g: Seq<Seq<bool>>)
    requires
        g.len() > 0,
        g[0].len() > 0,
        is_rectangle(g, g[0].len() as int),
    ensures
        transposed(g, g[0].len() as int).len() == g[0].len(),
        is_rectangle(transposed(g, g[0].len() as int), g.len() as int),
        island_count(transposed(g, g[0].len() as int), transposed(g, g[0].len() as int)[0].len() as int)
            == island_count(g, g[0].len() as int),
{
    let cols = g[0].len() as int;
    let rows = g.len() as int;
    let t = transposed(g, cols);
    let f = |x: (int, int)| (x.1, x.0);
    assert(t[0].len() == rows);
    assert forall|x: (int, int)| #[trigger] is_land(g, cols, x) implies is_land(t, rows, f(x)) && f(f(x)) == x by {
        assert(t[x.1][x.0] == g[x.0][x.1]);
    }
    assert forall|y: (int, int)| #[trigger] is_land(t, rows, y) implies is_land(g, cols, f(y)) && f(f(y)) == y by {
        assert(t[y.0][y.1] == g[y.1][y.0]);
    }
    lemma_count_transfer(g, cols, t, rows, f, f);
}

/// Turning a map upside down keeps its number of islands, for a map whose rows all have the
/// same length.
pub proof fn law_upside_down_keeps_island_count(g: Seq<Seq<bool>>)
    requires
        g.len() > 0,
        is_rectangle(g, g[0].len() as int),
    ensures
        upside_down(g).len() == g.len(),
        is_rectangle(upside_down(g), g[0].len() as int),
        island_count(upside_down(g), upside_down(g)[0].len() as int) == island_count(g, g[0].len() as int),
{
    let cols = g[0].len() as int;
    let rows = g.len() as int;
    let u = upside_down(g);
    let f = |x: (int, int)| (rows - 1 - x.0, x.1);
    assert(u.len() == rows);
    assert forall|r: int| 0 <= r < rows implies #[trigger] u[r] == g[rows - 1 - r] by {
    }
    assert(u[0].len() == cols);
    assert forall|x: (int, int)| #[trigger] is_land(g, cols, x) implies is_land(u, cols, f(x)) && f(f(x)) == x by {
        assert(u[rows - 1 - x.0] == g[x.0]);
    }
    assert forall|y: (int, int)| #[trigger] is_land(u, cols, y) implies is_land(g, cols, f(y)) && f(f(y)) == y by {
        assert(u[y.0] == g[rows - 1 - y.0]);
    }
    lemma_count_transfer(g, cols, u, cols, f, f);
}

/// Mirroring a map left to right keeps its number of islands, for a map whose rows all have
/// the same length.
pub proof fn law_mirror_keeps_island_count(g: Seq<Seq<bool>>)
    requires
        g.len() > 0,
        is_rectangle(g, g[0].len() as int),
    ensures
        mirrored(g).len() == g.len(),
        is_rectangle(mirrored(g), g[0].len() as int),
        island_count(mirrored(g), mirrored(g)[0].len() as int) == island_count(g, g[0].len() as int),
{
    let cols = g[0].len() as int;
    let rows = g.len() as int;
    let m = mirrored(g);
    let f = |x: (int, int)| (x.0, cols - 1 - x.1);
    assert forall|r: int| 0 <= r < rows implies #[trigger] m[r].len() == cols by {
        assert(m[r] == g[r].reverse());
    }
    assert forall|x: (int, int)| #[trigger] is_land(g, cols, x) implies is_land(m, cols, f(x)) && f(f(x)) == x by {
        assert(m[x.0] == g[x.0].reverse());
        assert(m[x.0][cols - 1 - x.1] == g[x.0][x.1]);
    }
    assert forall|y: (int, int)| #[trigger] is_land(m, cols, y) implies is_land(g, cols, f(y)) && f(f(y)) == y by {
        assert(m[y.0] == g[y.0].reverse());
        assert(m[y.0][y.1] == g[y.0][cols - 1 - y.1]);
    }
    lemma_count_transfer(g, cols, m, cols, f, f);
}

} // verus!
