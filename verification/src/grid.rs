//! The mathematical model of a boolean map: land cells, 4-neighbour paths,
//! islands, and the counts that the solvers compute.
use vstd::prelude::*;

verus! {

/// `a` is a land cell of the map `g` when only the first `cols` columns count.
pub open spec fn is_land(g: Seq<Seq<bool>>, cols: int, a: (int, int)) -> bool {
    &&& 0 <= a.0 < g.len()
    &&& 0 <= a.1 < cols
    &&& a.1 < g[a.0].len()
    &&& g[a.0][a.1]
}

/// Two cells share a side.
pub open spec fn adjacent(a: (int, int), b: (int, int)) -> bool {
    ||| a.0 == b.0 && (a.1 == b.1 + 1 || a.1 + 1 == b.1)
    ||| a.1 == b.1 && (a.0 == b.0 + 1 || a.0 + 1 == b.0)
}

/// A non-empty walk over land cells in which each step goes to a side neighbour.
pub open spec fn is_path(g: Seq<Seq<bool>>, cols: int, p: Seq<(int, int)>) -> bool {
    &&& p.len() > 0
    &&& forall|i: int| 0 <= i < p.len() ==> is_land(g, cols, #[trigger] p[i])
    &&& forall|i: int| 0 <= i < p.len() - 1 ==> #[trigger] adjacent(p[i], p[i + 1])
}

/// `b` can be reached from `a` by walking over land.
pub open spec fn connected(g: Seq<Seq<bool>>, cols: int, a: (int, int), b: (int, int)) -> bool {
    exists|p: Seq<(int, int)>| #[trigger] is_path(g, cols, p) && p[0] == a && p[p.len() - 1] == b
}

/// Row-major order on cells.
pub open spec fn precedes(a: (int, int), b: (int, int)) -> bool {
    a.0 < b.0 || (a.0 == b.0 && a.1 < b.1)
}

/// `a` is the first cell, in row-major order, of its island.
/// Every island has exactly one such cell, so these cells count the islands.
pub open spec fn is_island_start(g: Seq<Seq<bool>>, cols: int, a: (int, int)) -> bool {
    &&& is_land(g, cols, a)
    &&& forall|b: (int, int)| #[trigger] connected(g, cols, a, b) ==> !precedes(b, a)
}

/// Number of island starts among the first `c` cells of row `r`.
pub open spec fn starts_in_row(g: Seq<Seq<bool>>, cols: int, r: int, c: int) -> nat
    decreases c,
{
    if c <= 0 {
        0
    } else {
        starts_in_row(g, cols, r, c - 1) + if is_island_start(g, cols, (r, c - 1)) {
            1nat
        } else {
            0nat
        }
    }
}

/// Number of island starts in the rows before row `r`.
pub open spec fn starts_before_row(g: Seq<Seq<bool>>, cols: int, r: int) -> nat
    decreases r,
{
    if r <= 0 {
        0
    } else {
        starts_before_row(g, cols, r - 1) + starts_in_row(g, cols, r - 1, cols)
    }
}

/// Number of islands of the map, where only the first `cols` columns count.
pub open spec fn island_count(g: Seq<Seq<bool>>, cols: int) -> nat {
    starts_before_row(g, cols, g.len() as int)
}

/// Number of `true` cells among the first `c` cells of a row.
pub open spec fn count_true_prefix(row: Seq<bool>, c: int) -> nat
    decreases c,
{
    if c <= 0 {
        0
    } else {
        count_true_prefix(row, c - 1) + if c - 1 < row.len() && row[c - 1] {
            1nat
        } else {
            0nat
        }
    }
}

/// Number of land cells in the rows before row `r`, first `cols` columns only.
pub open spec fn land_before_row(g: Seq<Seq<bool>>, cols: int, r: int) -> nat
    decreases r,
{
    if r <= 0 {
        0
    } else {
        land_before_row(g, cols, r - 1) + count_true_prefix(g[r - 1], cols)
    }
}

/// Number of land cells, first `cols` columns only.
pub open spec fn land_count(g: Seq<Seq<bool>>, cols: int) -> nat {
    land_before_row(g, cols, g.len() as int)
}

/// Number of `true` cells in the rows before row `r`, every column counted.
pub open spec fn true_before_row(g: Seq<Seq<bool>>, r: int) -> nat
    decreases r,
{
    if r <= 0 {
        0
    } else {
        true_before_row(g, r - 1) + count_true_prefix(g[r - 1], g[r - 1].len() as int)
    }
}

/// Number of `true` cells of the whole map.
pub open spec fn true_count(g: Seq<Seq<bool>>) -> nat {
    true_before_row(g, g.len() as int)
}

/// The boolean map held in a vector of rows.
pub open spec fn grid_view(g: &Vec<Vec<bool>>) -> Seq<Seq<bool>> {
    g@.map_values(|row: Vec<bool>| row@)
}

/// The map after the island that holds `start` has been turned to water.
pub open spec fn remove_island(g: Seq<Seq<bool>>, cols: int, start: (int, int)) -> Seq<Seq<bool>> {
    Seq::new(
        g.len(),
        |r: int| Seq::new(g[r].len(), |c: int| g[r][c] && !connected(g, cols, start, (r, c))),
    )
}

/// Every row has at least `cols` cells.
pub open spec fn rows_cover(g: Seq<Seq<bool>>, cols: int) -> bool {
    forall|r: int| 0 <= r < g.len() ==> #[trigger] g[r].len() >= cols
}

pub proof fn lemma_connected_self(g: Seq<Seq<bool>>, cols: int, a: (int, int))
    requires
        is_land(g, cols, a),
    ensures
        connected(g, cols, a, a),
{
    let p = seq![a];
    assert(is_path(g, cols, p));
}

pub proof fn lemma_connected_ends(g: Seq<Seq<bool>>, cols: int, a: (int, int), b: (int, int))
    requires
        connected(g, cols, a, b),
    ensures
        is_land(g, cols, a),
        is_land(g, cols, b),
{
    let p = choose|p: Seq<(int, int)>| #[trigger]
        is_path(g, cols, p) && p[0] == a && p[p.len() - 1] == b;
    assert(is_land(g, cols, p[0]));
    assert(is_land(g, cols, p[p.len() - 1]));
}

pub proof fn lemma_connected_step(
    g: Seq<Seq<bool>>,
    cols: int,
    a: (int, int),
    b: (int, int),
    c: (int, int),
)
    requires
        connected(g, cols, a, b),
        adjacent(b, c),
        is_land(g, cols, c),
    ensures
        connected(g, cols, a, c),
{
    let p = choose|p: Seq<(int, int)>| #[trigger]
        is_path(g, cols, p) && p[0] == a && p[p.len() - 1] == b;
    let q = p.push(c);
    assert forall|i: int| 0 <= i < q.len() - 1 implies #[trigger] adjacent(q[i], q[i + 1]) by {
        if i < p.len() - 1 {
            assert(adjacent(p[i], p[i + 1]));
        }
    }
    assert forall|i: int| 0 <= i < q.len() implies is_land(g, cols, #[trigger] q[i]) by {
        if i < p.len() {
            assert(is_land(g, cols, p[i]));
        }
    }
    assert(is_path(g, cols, q));
}

pub proof fn lemma_connected_trans(
    g: Seq<Seq<bool>>,
    cols: int,
    a: (int, int),
    b: (int, int),
    c: (int, int),
)
    requires
        connected(g, cols, a, b),
        connected(g, cols, b, c),
    ensures
        connected(g, cols, a, c),
{
    let p = choose|p: Seq<(int, int)>| #[trigger]
        is_path(g, cols, p) && p[0] == a && p[p.len() - 1] == b;
    let q = choose|q: Seq<(int, int)>| #[trigger]
        is_path(g, cols, q) && q[0] == b && q[q.len() - 1] == c;
    let r = p + q.drop_first();
    assert forall|i: int| 0 <= i < r.len() implies is_land(g, cols, #[trigger] r[i]) by {
        if i < p.len() {
            assert(is_land(g, cols, p[i]));
        } else {
            assert(r[i] == q[i - p.len() + 1]);
            assert(is_land(g, cols, q[i - p.len() + 1]));
        }
    }
    assert forall|i: int| 0 <= i < r.len() - 1 implies #[trigger] adjacent(r[i], r[i + 1]) by {
        if i < p.len() - 1 {
            assert(adjacent(p[i], p[i + 1]));
        } else if i == p.len() - 1 {
            let k = 0int;
            assert(adjacent(q[k], q[k + 1]));
        } else {
            let j = i - p.len() + 1;
            assert(adjacent(q[j], q[j + 1]));
        }
    }
    assert(is_path(g, cols, r));
    assert(r[r.len() - 1] == c);
}

pub proof fn lemma_connected_symm(g: Seq<Seq<bool>>, cols: int, a: (int, int), b: (int, int))
    requires
        connected(g, cols, a, b),
    ensures
        connected(g, cols, b, a),
{
    let p = choose|p: Seq<(int, int)>| #[trigger]
        is_path(g, cols, p) && p[0] == a && p[p.len() - 1] == b;
    let n = p.len();
    let q = Seq::new(n, |i: int| p[n - 1 - i]);
    assert forall|i: int| 0 <= i < q.len() implies is_land(g, cols, #[trigger] q[i]) by {
        assert(is_land(g, cols, p[n - 1 - i]));
    }
    assert forall|i: int| 0 <= i < q.len() - 1 implies #[trigger] adjacent(q[i], q[i + 1]) by {
        let j = n - 2 - i;
        assert(adjacent(p[j], p[j + 1]));
    }
    assert(is_path(g, cols, q));
}

/// Every cell on a path is connected to the path's first cell.
pub proof fn lemma_path_prefix(g: Seq<Seq<bool>>, cols: int, p: Seq<(int, int)>, i: int)
    requires
        is_path(g, cols, p),
        0 <= i < p.len(),
    ensures
        connected(g, cols, p[0], p[i]),
{
    let q = p.take(i + 1);
    assert forall|k: int| 0 <= k < q.len() implies is_land(g, cols, #[trigger] q[k]) by {
        assert(is_land(g, cols, p[k]));
    }
    assert forall|k: int| 0 <= k < q.len() - 1 implies #[trigger] adjacent(q[k], q[k + 1]) by {
        assert(adjacent(p[k], p[k + 1]));
    }
    assert(is_path(g, cols, q));
}

/// Removing land can only disconnect cells.
pub proof fn lemma_connected_shrink(
    m: Seq<Seq<bool>>,
    g: Seq<Seq<bool>>,
    cols: int,
    a: (int, int),
    b: (int, int),
)
    requires
        forall|x: (int, int)| #[trigger] is_land(m, cols, x) ==> is_land(g, cols, x),
        connected(m, cols, a, b),
    ensures
        connected(g, cols, a, b),
{
    let p = choose|p: Seq<(int, int)>| #[trigger]
        is_path(m, cols, p) && p[0] == a && p[p.len() - 1] == b;
    assert forall|i: int| 0 <= i < p.len() implies is_land(g, cols, #[trigger] p[i]) by {
        assert(is_land(m, cols, p[i]));
    }
    assert(is_path(g, cols, p));
}

/// A path in `g` stays a path in `m` when `m` keeps every cell reachable from its start.
pub proof fn lemma_connected_keep(
    g: Seq<Seq<bool>>,
    m: Seq<Seq<bool>>,
    cols: int,
    a: (int, int),
    b: (int, int),
)
    requires
        connected(g, cols, a, b),
        forall|x: (int, int)| #[trigger] connected(g, cols, a, x) ==> is_land(m, cols, x),
    ensures
        connected(m, cols, a, b),
{
    let p = choose|p: Seq<(int, int)>| #[trigger]
        is_path(g, cols, p) && p[0] == a && p[p.len() - 1] == b;
    assert forall|i: int| 0 <= i < p.len() implies is_land(m, cols, #[trigger] p[i]) by {
        lemma_path_prefix(g, cols, p, i);
    }
    assert(is_path(m, cols, p));
}

/// A set of land cells that holds `a` and is closed under stepping to neighbouring
/// land holds every cell connected to `a`.
pub proof fn lemma_closed_set_covers(
    g: Seq<Seq<bool>>,
    cols: int,
    a: (int, int),
    b: (int, int),
    s: spec_fn((int, int)) -> bool,
)
    requires
        s(a),
        forall|x: (int, int), y: (int, int)|
            #![trigger s(x), adjacent(x, y)]
            s(x) && is_land(g, cols, x) && adjacent(x, y) && is_land(g, cols, y) ==> s(y),
        connected(g, cols, a, b),
    ensures
        s(b),
{
    let p = choose|p: Seq<(int, int)>| #[trigger]
        is_path(g, cols, p) && p[0] == a && p[p.len() - 1] == b;
    lemma_path_in_closed_set(g, cols, p, s, p.len() - 1);
}

proof fn lemma_path_in_closed_set(
    g: Seq<Seq<bool>>,
    cols: int,
    p: Seq<(int, int)>,
    s: spec_fn((int, int)) -> bool,
    i: int,
)
    requires
        is_path(g, cols, p),
        s(p[0]),
        forall|x: (int, int), y: (int, int)|
            #![trigger s(x), adjacent(x, y)]
            s(x) && is_land(g, cols, x) && adjacent(x, y) && is_land(g, cols, y) ==> s(y),
        0 <= i < p.len(),
    ensures
        s(p[i]),
    decreases i,
{
    if i > 0 {
        lemma_path_in_closed_set(g, cols, p, s, i - 1);
        let j = i - 1;
        assert(adjacent(p[j], p[j + 1]));
        assert(is_land(g, cols, p[i - 1]));
        assert(is_land(g, cols, p[i]));
    }
}

/// Clearing one cell of a row lowers its count by one when the cell was set and lies in the prefix.
pub proof fn lemma_count_true_prefix_clear(row: Seq<bool>, i: int, c: int)
    requires
        0 <= i < row.len(),
    ensures
        count_true_prefix(row.update(i, false), c) + (if i < c && row[i] {
            1int
        } else {
            0int
        }) == count_true_prefix(row, c),
    decreases c,
{
    if c > 0 {
        lemma_count_true_prefix_clear(row, i, c - 1);
    }
}

pub proof fn lemma_land_before_row_clear(g: Seq<Seq<bool>>, cols: int, r: int, c: int, k: int)
    requires
        0 <= r < g.len(),
        0 <= c < g[r].len(),
        k <= g.len(),
    ensures
        land_before_row(g.update(r, g[r].update(c, false)), cols, k) + (if r < k && c < cols
            && g[r][c] {
            1int
        } else {
            0int
        }) == land_before_row(g, cols, k),
    decreases k,
{
    if k > 0 {
        lemma_land_before_row_clear(g, cols, r, c, k - 1);
        let h = g.update(r, g[r].update(c, false));
        if k - 1 == r {
            lemma_count_true_prefix_clear(g[r], c, cols);
            assert(h[k - 1] == g[r].update(c, false));
        } else if k - 1 < g.len() {
            assert(h[k - 1] == g[k - 1]);
        }
    }
}


/// Island `j` (the one of `reps[j]`) has a land cell before `pos`.
pub open spec fn island_seen(g: Seq<Seq<bool>>, cols: int, reps: Seq<(int, int)>, j: int, pos: (int, int)) -> bool {
    exists|b: (int, int)| #[trigger] connected(g, cols, reps[j], b) && precedes(b, pos)
}

/// Number of the islands `reps[0..k]` that have a land cell before `pos`.
pub open spec fn count_seen(g: Seq<Seq<bool>>, cols: int, reps: Seq<(int, int)>, k: int, pos: (int, int)) -> nat
    decreases k,
{
    if k <= 0 {
        0
    } else {
        count_seen(g, cols, reps, k - 1, pos) + if island_seen(g, cols, reps, k - 1, pos) {
            1nat
        } else {
            0nat
        }
    }
}

/// `reps` holds one cell of each island, and no two cells of the same island.
pub open spec fn one_per_island(g: Seq<Seq<bool>>, cols: int, reps: Seq<(int, int)>) -> bool {
    &&& forall|j: int| 0 <= j < reps.len() ==> is_land(g, cols, #[trigger] reps[j])
    &&& forall|j: int, k: int|
        0 <= j < reps.len() && 0 <= k < reps.len() && j != k ==> !connected(g, cols, #[trigger] reps[j], #[trigger] reps[k])
    &&& forall|x: (int, int)| #[trigger] is_land(g, cols, x) ==> exists|j: int| 0 <= j < reps.len() && #[trigger] connected(g, cols, reps[j], x)
}

proof fn lemma_count_seen_same(g: Seq<Seq<bool>>, cols: int, reps: Seq<(int, int)>, k: int, p: (int, int), q: (int, int))
    requires
        forall|j: int| 0 <= j < k ==> (island_seen(g, cols, reps, j, p) <==> island_seen(g, cols, reps, j, q)),
    ensures
        count_seen(g, cols, reps, k, p) == count_seen(g, cols, reps, k, q),
    decreases k,
{
    if k > 0 {
        lemma_count_seen_same(g, cols, reps, k - 1, p, q);
    }
}

proof fn lemma_count_seen_one_more(g: Seq<Seq<bool>>, cols: int, reps: Seq<(int, int)>, k: int, j0: int, p: (int, int), q: (int, int))
    requires
        0 <= j0 < k,
        !island_seen(g, cols, reps, j0, p),
        island_seen(g, cols, reps, j0, q),
        forall|j: int| 0 <= j < k && j != j0 ==> (island_seen(g, cols, reps, j, p) <==> island_seen(g, cols, reps, j, q)),
    ensures
        count_seen(g, cols, reps, k, q) == count_seen(g, cols, reps, k, p) + 1,
    decreases k,
{
    if k - 1 == j0 {
        lemma_count_seen_same(g, cols, reps, k - 1, p, q);
    } else {
        lemma_count_seen_one_more(g, cols, reps, k - 1, j0, p, q);
    }
}

/// Advancing the scan over cell `p` to `q`: the islands seen before `q` are those seen before
/// `p` and the island of `p`; `p` starts an island exactly when its island was not seen.
proof fn lemma_scan_over_cell(g: Seq<Seq<bool>>, cols: int, reps: Seq<(int, int)>, p: (int, int), q: (int, int))
    requires
        one_per_island(g, cols, reps),
        forall|b: (int, int)| is_land(g, cols, b) ==> (precedes(b, q) <==> precedes(b, p) || b == p),
    ensures
        count_seen(g, cols, reps, reps.len() as int, q) == count_seen(g, cols, reps, reps.len() as int, p) + if is_island_start(g, cols, p) {
            1nat
        } else {
            0nat
        },
{
    let m = reps.len() as int;
    if !is_land(g, cols, p) {
        assert forall|j: int| 0 <= j < m implies (island_seen(g, cols, reps, j, p) <==> island_seen(g, cols, reps, j, q)) by {
            if island_seen(g, cols, reps, j, q) {
                let b = choose|b: (int, int)| #[trigger] connected(g, cols, reps[j], b) && precedes(b, q);
                lemma_connected_ends(g, cols, reps[j], b);
            }
            if island_seen(g, cols, reps, j, p) {
                let b = choose|b: (int, int)| #[trigger] connected(g, cols, reps[j], b) && precedes(b, p);
                lemma_connected_ends(g, cols, reps[j], b);
            }
        }
        lemma_count_seen_same(g, cols, reps, m, p, q);
    } else {
        let j0 = choose|j: int| 0 <= j < m && #[trigger] connected(g, cols, reps[j], p);
        assert forall|j: int| 0 <= j < m && j != j0 implies (island_seen(g, cols, reps, j, p) <==> island_seen(g, cols, reps, j, q)) by {
            if island_seen(g, cols, reps, j, q) {
                let b = choose|b: (int, int)| #[trigger] connected(g, cols, reps[j], b) && precedes(b, q);
                lemma_connected_ends(g, cols, reps[j], b);
                if b == p {
                    lemma_connected_symm(g, cols, reps[j], p);
                    lemma_connected_trans(g, cols, reps[j0], p, reps[j]);
                    assert(!connected(g, cols, reps[j0], reps[j]));
                }
            }
            if island_seen(g, cols, reps, j, p) {
                let b = choose|b: (int, int)| #[trigger] connected(g, cols, reps[j], b) && precedes(b, p);
                lemma_connected_ends(g, cols, reps[j], b);
            }
        }
        assert(island_seen(g, cols, reps, j0, q));
        if island_seen(g, cols, reps, j0, p) {
            let b = choose|b: (int, int)| #[trigger] connected(g, cols, reps[j0], b) && precedes(b, p);
            lemma_connected_symm(g, cols, reps[j0], p);
            lemma_connected_trans(g, cols, p, reps[j0], b);
            assert(!is_island_start(g, cols, p));
            assert forall|j: int| 0 <= j < m implies (island_seen(g, cols, reps, j, p) <==> island_seen(g, cols, reps, j, q)) by {
                if j == j0 {
                    lemma_connected_ends(g, cols, reps[j0], b);
                    assert(precedes(b, q));
                }
            }
            lemma_count_seen_same(g, cols, reps, m, p, q);
        } else {
            assert forall|b: (int, int)| #[trigger] connected(g, cols, p, b) implies !precedes(b, p) by {
                lemma_connected_trans(g, cols, reps[j0], p, b);
            }
            assert(is_island_start(g, cols, p));
            lemma_count_seen_one_more(g, cols, reps, m, j0, p, q);
        }
    }
}

proof fn lemma_scan_count(g: Seq<Seq<bool>>, cols: int, reps: Seq<(int, int)>, r: int, c: int)
    requires
        one_per_island(g, cols, reps),
        0 <= r <= g.len(),
        0 <= c <= cols,
        r == g.len() ==> c == 0,
    ensures
        starts_before_row(g, cols, r) + starts_in_row(g, cols, r, c) == count_seen(g, cols, reps, reps.len() as int, (r, c)),
    decreases r, c,
{
    if c > 0 {
        lemma_scan_count(g, cols, reps, r, c - 1);
        lemma_scan_over_cell(g, cols, reps, (r, c - 1), (r, c));
    } else if r > 0 {
        lemma_scan_count(g, cols, reps, r - 1, cols);
        assert forall|j: int| 0 <= j < reps.len() implies (island_seen(g, cols, reps, j, (r - 1, cols)) <==> island_seen(g, cols, reps, j, (r, 0))) by {
            if island_seen(g, cols, reps, j, (r, 0)) {
                let b = choose|b: (int, int)| #[trigger] connected(g, cols, reps[j], b) && precedes(b, (r, 0));
                lemma_connected_ends(g, cols, reps[j], b);
            }
            if island_seen(g, cols, reps, j, (r - 1, cols)) {
                let b = choose|b: (int, int)| #[trigger] connected(g, cols, reps[j], b) && precedes(b, (r - 1, cols));
                lemma_connected_ends(g, cols, reps[j], b);
            }
        }
        lemma_count_seen_same(g, cols, reps, reps.len() as int, (r - 1, cols), (r, 0));
    } else {
        assert forall|j: int| 0 <= j < reps.len() implies !island_seen(g, cols, reps, j, (0, 0)) by {
            if island_seen(g, cols, reps, j, (0, 0)) {
                let b = choose|b: (int, int)| #[trigger] connected(g, cols, reps[j], b) && precedes(b, (0, 0));
                lemma_connected_ends(g, cols, reps[j], b);
            }
        }
        lemma_count_seen_zero(g, cols, reps, reps.len() as int, (0, 0));
    }
}

proof fn lemma_count_seen_zero(g: Seq<Seq<bool>>, cols: int, reps: Seq<(int, int)>, k: int, p: (int, int))
    requires
        forall|j: int| 0 <= j < k ==> !island_seen(g, cols, reps, j, p),
    ensures
        count_seen(g, cols, reps, k, p) == 0,
    decreases k,
{
    if k > 0 {
        lemma_count_seen_zero(g, cols, reps, k - 1, p);
    }
}

proof fn lemma_count_seen_all(g: Seq<Seq<bool>>, cols: int, reps: Seq<(int, int)>, k: int, p: (int, int))
    requires
        0 <= k,
        forall|j: int| 0 <= j < k ==> island_seen(g, cols, reps, j, p),
    ensures
        count_seen(g, cols, reps, k, p) == k,
    decreases k,
{
    if k > 0 {
        lemma_count_seen_all(g, cols, reps, k - 1, p);
    }
}

/// A map has as many islands as there are cells in a set that holds exactly one cell of
/// each island.
pub proof fn law_islands_counted_by_representatives(g: Seq<Seq<bool>>, cols: int, reps: Seq<(int, int)>)
    requires
        0 <= cols,
        one_per_island(g, cols, reps),
    ensures
        island_count(g, cols) == reps.len(),
{
    let end = (g.len() as int, 0int);
    lemma_scan_count(g, cols, reps, g.len() as int, 0);
    assert forall|j: int| 0 <= j < reps.len() implies island_seen(g, cols, reps, j, end) by {
        lemma_connected_self(g, cols, reps[j]);
        assert(connected(g, cols, reps[j], reps[j]));
    }
    lemma_count_seen_all(g, cols, reps, reps.len() as int, end);
}

} // verus!
