//! The solvers: island counting, island size, largest window, test problem.
use vstd::prelude::*;
use crate::grid::{
    adjacent, connected, grid_view, is_island_start, is_land, island_count, land_count,
    lemma_closed_set_covers, lemma_connected_ends, lemma_connected_keep, lemma_connected_self,
    lemma_connected_shrink, lemma_connected_step, lemma_connected_symm, lemma_connected_trans,
    lemma_land_before_row_clear, precedes, remove_island, rows_cover, starts_before_row,
    starts_in_row, count_true_prefix, true_before_row, true_count,
};
use crate::solver::{SolveRequest, SolveResponse};

verus! {

broadcast use vstd::string::group_string_axioms;

/// The map that the island counter walks, with its dimensions.
struct IslandMap {
    row_c: usize,
    col_c: usize,
    grid: Vec<Vec<bool>>,
}

impl IslandMap {
    spec fn cells(&self) -> Seq<Seq<bool>> {
        grid_view(&self.grid)
    }

    spec fn wf(&self) -> bool {
        &&& self.grid@.len() == self.row_c
        &&& rows_cover(self.cells(), self.col_c as int)
    }

    /// The neighbour of `p` in direction `dir`, if it lies on the map and is land.
    fn check(&self, p: (usize, usize), dir: (isize, isize)) -> (res: Option<(usize, usize)>)
        requires
            self.wf(),
            p.0 < self.row_c,
            p.1 < self.col_c,
            is_direction(dir.0 as int, dir.1 as int),
        ensures
            ({
                let q = (p.0 + dir.0, p.1 + dir.1);
                match res {
                    Some(n) => n.0 == q.0 && n.1 == q.1 && is_land(self.cells(), self.col_c as int, q),
                    None => !is_land(self.cells(), self.col_c as int, q),
                }
            }),
    {
        let rc: usize = if dir.0 < 0 {
            if p.0 == 0 {
                return None;
            }
            p.0 - 1
        } else if dir.0 > 0 {
            if p.0 + 1 >= self.row_c {
                return None;
            }
            p.0 + 1
        } else {
            p.0
        };
        let cc: usize = if dir.1 < 0 {
            if p.1 == 0 {
                return None;
            }
            p.1 - 1
        } else if dir.1 > 0 {
            if p.1 + 1 >= self.col_c {
                return None;
            }
            p.1 + 1
        } else {
            p.1
        };
        assert(self.cells()[rc as int] == self.grid@[rc as int]@);
        if !self.grid[rc][cc] {
            return None;
        }
        Some((rc, cc))
    }
}

/// The four side directions, as (row step, column step).
pub open spec fn is_direction(dr: int, dc: int) -> bool {
    (dr == 0 && (dc == 1 || dc == -1)) || (dc == 0 && (dr == 1 || dr == -1))
}

pub open spec fn direction_spec(k: int) -> (int, int) {
    if k == 0 {
        (1, 0)
    } else if k == 1 {
        (-1, 0)
    } else if k == 2 {
        (0, 1)
    } else {
        (0, -1)
    }
}

fn direction(k: usize) -> (d: (isize, isize))
    requires
        k < 4,
    ensures
        d.0 == direction_spec(k as int).0,
        d.1 == direction_spec(k as int).1,
        is_direction(d.0 as int, d.1 as int),
{
    if k == 0 {
        (1, 0)
    } else if k == 1 {
        (-1, 0)
    } else if k == 2 {
        (0, 1)
    } else {
        (0, -1)
    }
}

/// The cell `x`, land in `g`, has each land neighbour cleared in `m`.
spec fn closed_in(g: Seq<Seq<bool>>, m: Seq<Seq<bool>>, cols: int, x: (int, int)) -> bool {
    forall|y: (int, int)| adjacent(x, y) && is_land(g, cols, y) ==> !#[trigger] is_land(m, cols, y)
}

spec fn in_queue(q: Seq<(usize, usize)>, x: (int, int)) -> bool {
    exists|i: int| 0 <= i < q.len() && #[trigger] q[i].0 == x.0 && q[i].1 == x.1
}

spec fn same_shape(a: Seq<Seq<bool>>, b: Seq<Seq<bool>>) -> bool {
    &&& a.len() == b.len()
    &&& forall|r: int| 0 <= r < a.len() ==> #[trigger] a[r].len() == b[r].len()
}

proof fn lemma_adjacent_is_direction(x: (int, int), y: (int, int)) -> (k: int)
    requires
        adjacent(x, y),
    ensures
        0 <= k < 4,
        y.0 == x.0 + direction_spec(k).0,
        y.1 == x.1 + direction_spec(k).1,
{
    if y.0 == x.0 + 1 && y.1 == x.1 {
        0
    } else if y.0 == x.0 - 1 && y.1 == x.1 {
        1
    } else if y.1 == x.1 + 1 {
        2
    } else {
        3
    }
}

/// Turns the island that holds (`row`, `col`) to water, walking it breadth first.
fn delete_island(row: usize, col: usize, map: &mut IslandMap)
    requires
        old(map).wf(),
        row < old(map).row_c,
        col < old(map).col_c,
        is_land(old(map).cells(), old(map).col_c as int, (row as int, col as int)),
    ensures
        final(map).wf(),
        final(map).row_c == old(map).row_c,
        final(map).col_c == old(map).col_c,
        final(map).cells() == remove_island(
            old(map).cells(),
            old(map).col_c as int,
            (row as int, col as int),
        ),
{
    let ghost g0 = map.cells();
    let ghost cols = map.col_c as int;
    let ghost start = (row as int, col as int);
    let mut queue: std::collections::VecDeque<(usize, usize)> = std::collections::VecDeque::new();
    queue.push_back((row, col));
    map.grid[row][col] = false;
    proof {
        lemma_connected_self(g0, cols, start);
        assert(same_shape(map.cells(), g0));
        assert forall|x: (int, int)| #[trigger] is_land(g0, cols, x) && !is_land(map.cells(), cols, x) implies x == start by {
            if x != start {
                assert(map.cells()[x.0][x.1] == g0[x.0][x.1]);
            }
        }
        assert(in_queue(queue@, start)) by {
            assert(queue@[0].0 == start.0 && queue@[0].1 == start.1);
        }
        lemma_land_before_row_clear(g0, cols, row as int, col as int, g0.len() as int);
        assert(map.cells() =~= g0.update(row as int, g0[row as int].update(col as int, false)));
    }
    while queue.len() > 0
        invariant
            map.wf(),
            map.row_c == old(map).row_c,
            map.col_c == old(map).col_c,
            cols == map.col_c,
            g0 == old(map).cells(),
            start == (row as int, col as int),
            is_land(g0, cols, start),
            same_shape(map.cells(), g0),
            forall|x: (int, int)| #[trigger] is_land(map.cells(), cols, x) ==> is_land(g0, cols, x),
            forall|r: int, c: int|
                0 <= r < g0.len() && cols <= c < g0[r].len() ==> #[trigger] map.cells()[r][c]
                    == g0[r][c],
            forall|x: (int, int)| #[trigger]
                is_land(g0, cols, x) && !is_land(map.cells(), cols, x) ==> connected(
                    g0,
                    cols,
                    start,
                    x,
                ),
            !is_land(map.cells(), cols, start),
            forall|i: int|
                0 <= i < queue@.len() ==> {
                    let q = (#[trigger] queue@[i].0 as int, queue@[i].1 as int);
                    is_land(g0, cols, q) && !is_land(map.cells(), cols, q)
                },
            forall|x: (int, int)| #[trigger]
                is_land(g0, cols, x) && !is_land(map.cells(), cols, x) && !in_queue(queue@, x)
                    ==> closed_in(g0, map.cells(), cols, x),
        decreases 2 * land_count(map.cells(), cols) + queue@.len(),
    {
        let ghost measure = 2 * land_count(map.cells(), cols) + queue@.len();
        let ghost old_queue = queue@;
        let p = queue.pop_front().unwrap();
        let ghost pp = (p.0 as int, p.1 as int);
        assert(old_queue[0] == p);
        assert(is_land(g0, cols, pp) && !is_land(map.cells(), cols, pp));
        assert forall|x: (int, int)| #[trigger]
            is_land(g0, cols, x) && !is_land(map.cells(), cols, x) && !in_queue(queue@, x) && x != pp
            implies closed_in(g0, map.cells(), cols, x) by {
            if in_queue(old_queue, x) {
                let i = choose|i: int| 0 <= i < old_queue.len() && #[trigger] old_queue[i].0 == x.0 && old_queue[i].1 == x.1;
                if i > 0 {
                    assert(queue@[i - 1] == old_queue[i]);
                }
            }
        }
        let mut k: usize = 0;
        while k < 4
            invariant
                map.wf(),
                map.row_c == old(map).row_c,
                map.col_c == old(map).col_c,
                cols == map.col_c,
                g0 == old(map).cells(),
                start == (row as int, col as int),
                is_land(g0, cols, start),
                pp == (p.0 as int, p.1 as int),
                is_land(g0, cols, pp),
                k <= 4,
                same_shape(map.cells(), g0),
                forall|x: (int, int)| #[trigger] is_land(map.cells(), cols, x) ==> is_land(g0, cols, x),
                forall|r: int, c: int|
                    0 <= r < g0.len() && cols <= c < g0[r].len() ==> #[trigger] map.cells()[r][c]
                        == g0[r][c],
                forall|x: (int, int)| #[trigger]
                    is_land(g0, cols, x) && !is_land(map.cells(), cols, x) ==> connected(
                        g0,
                        cols,
                        start,
                        x,
                    ),
                !is_land(map.cells(), cols, start),
                !is_land(map.cells(), cols, pp),
                forall|i: int|
                    0 <= i < queue@.len() ==> {
                        let q = (#[trigger] queue@[i].0 as int, queue@[i].1 as int);
                        is_land(g0, cols, q) && !is_land(map.cells(), cols, q)
                    },
                forall|x: (int, int)| #[trigger]
                    is_land(g0, cols, x) && !is_land(map.cells(), cols, x) && !in_queue(queue@, x)
                        && x != pp ==> closed_in(g0, map.cells(), cols, x),
                forall|j: int|
                    0 <= j < k ==> {
                        let y = (pp.0 + #[trigger] direction_spec(j).0, pp.1 + direction_spec(j).1);
                        is_land(g0, cols, y) ==> !is_land(map.cells(), cols, y)
                    },
                2 * land_count(map.cells(), cols) + queue@.len() < measure,
            decreases 4 - k,
        {
            let d = direction(k);
            let ghost before = map.cells();
            let ghost before_queue = queue@;
            if let Some(np) = map.check(p, d) {
                queue.push_back(np);
                map.grid[np.0][np.1] = false;
                proof {
                    let y = (np.0 as int, np.1 as int);
                    lemma_land_before_row_clear(before, cols, y.0, y.1, before.len() as int);
                    assert(map.cells() =~= before.update(y.0, before[y.0].update(y.1, false)));
                    assert(connected(g0, cols, start, pp));
                    lemma_connected_step(g0, cols, start, pp, y);
                    assert forall|x: (int, int)| #[trigger] is_land(map.cells(), cols, x) implies is_land(before, cols, x) by {
                        if x != y {
                            assert(map.cells()[x.0][x.1] == before[x.0][x.1]);
                        }
                    }
                    assert forall|x: (int, int)| #[trigger] is_land(before, cols, x) && x != y implies is_land(map.cells(), cols, x) by {
                        assert(map.cells()[x.0][x.1] == before[x.0][x.1]);
                    }
                    assert(in_queue(queue@, y)) by {
                        assert(queue@[queue@.len() - 1] == np);
                    }
                    assert forall|x: (int, int)| #[trigger]
                        is_land(g0, cols, x) && !is_land(map.cells(), cols, x) && !in_queue(queue@, x) && x != pp
                        implies closed_in(g0, map.cells(), cols, x) by {
                        if in_queue(before_queue, x) {
                            let i = choose|i: int| 0 <= i < before_queue.len() && #[trigger] before_queue[i].0 == x.0 && before_queue[i].1 == x.1;
                            assert(queue@[i] == before_queue[i]);
                        }
                        assert(closed_in(g0, before, cols, x));
                    }
                    assert forall|i: int| 0 <= i < queue@.len() implies {
                        let q = (#[trigger] queue@[i].0 as int, queue@[i].1 as int);
                        is_land(g0, cols, q) && !is_land(map.cells(), cols, q)
                    } by {
                        if i < before_queue.len() {
                            assert(queue@[i] == before_queue[i]);
                        }
                    }
                    assert forall|r: int, c: int|
                        0 <= r < g0.len() && cols <= c < g0[r].len() implies #[trigger] map.cells()[r][c]
                            == g0[r][c] by {
                        assert(map.cells()[r][c] == before[r][c]);
                    }
                }
            }
            k = k + 1;
        }
        proof {
            assert forall|y: (int, int)| adjacent(pp, y) && is_land(g0, cols, y) implies !#[trigger] is_land(map.cells(), cols, y) by {
                let j = lemma_adjacent_is_direction(pp, y);
                assert(y == (pp.0 + direction_spec(j).0, pp.1 + direction_spec(j).1));
            }
            assert(closed_in(g0, map.cells(), cols, pp));
        }
    }
    proof {
        let m = map.cells();
        let s = |x: (int, int)| is_land(g0, cols, x) && !is_land(m, cols, x);
        assert forall|x: (int, int), y: (int, int)|
            #![trigger s(x), adjacent(x, y)]
            s(x) && is_land(g0, cols, x) && adjacent(x, y) && is_land(g0, cols, y) implies s(y) by {
            assert(!in_queue(queue@, x));
            assert(closed_in(g0, m, cols, x));
        }
        let target = remove_island(g0, cols, start);
        assert forall|r: int| 0 <= r < m.len() implies #[trigger] m[r] =~= target[r] by {
            assert forall|c: int| 0 <= c < m[r].len() implies m[r][c] == target[r][c] by {
                if connected(g0, cols, start, (r, c)) {
                    lemma_closed_set_covers(g0, cols, start, (r, c), s);
                } else if c < cols {
                    if g0[r][c] && !m[r][c] {
                        assert(is_land(g0, cols, (r, c)));
                    }
                    if m[r][c] {
                        assert(is_land(m, cols, (r, c)));
                    }
                }
            }
        }
        assert(m =~= target);
    }
}

/// Counts the islands of a map: groups of `true` cells joined through their sides.
/// Only the columns of the first row count; an empty map is refused.
pub fn solve_count_islands(data: Vec<Vec<bool>>) -> (res: SolveResponse)
    requires
        data@.len() > 0 ==> rows_cover(grid_view(&data), data@[0]@.len() as int),
        data@.len() > 0 ==> island_count(grid_view(&data), data@[0]@.len() as int) <= i64::MAX,
    ensures
        data@.len() == 0 ==> (res matches SolveResponse::BadData(m) && m@ == "Received empty grid"@),
        data@.len() > 0 ==> res == SolveResponse::Solved(
            island_count(grid_view(&data), data@[0]@.len() as int) as i64,
        ),
{
    let row_count = data.len();
    if row_count == 0 {
        return SolveResponse::BadData("Received empty grid".to_string());
    }
    let col_count = data[0].len();
    let ghost g = grid_view(&data);
    let ghost cols = col_count as int;
    let mut map = IslandMap { row_c: row_count, col_c: col_count, grid: data };
    let mut count: i64 = 0;
    let mut row: usize = 0;
    proof {
        assert forall|x: (int, int)| #[trigger] is_land(g, cols, x) implies (is_land(map.cells(), cols, x)
            <==> no_earlier(g, cols, x, (0, 0))) by {
            if is_land(map.cells(), cols, x) {
                assert forall|b: (int, int)| #[trigger] connected(g, cols, x, b) implies !precedes(b, (0, 0)) by {
                    lemma_connected_ends(g, cols, x, b);
                }
            }
        }
    }
    while row < row_count
        invariant
            map.wf(),
            map.row_c == row_count,
            map.col_c == col_count,
            cols == col_count,
            g.len() == row_count,
            rows_cover(g, cols),
            row <= row_count,
            scan_inv(g, map.cells(), cols, (row as int, 0)),
            count == starts_before_row(g, cols, row as int),
            island_count(g, cols) <= i64::MAX,
        decreases row_count - row,
    {
        let mut col: usize = 0;
        while col < col_count
            invariant
                map.wf(),
                map.row_c == row_count,
                map.col_c == col_count,
                cols == col_count,
                g.len() == row_count,
                rows_cover(g, cols),
                row < row_count,
                col <= col_count,
                scan_inv(g, map.cells(), cols, (row as int, col as int)),
                count == starts_before_row(g, cols, row as int) + starts_in_row(g, cols, row as int, col as int),
                island_count(g, cols) <= i64::MAX,
            decreases col_count - col,
        {
            let ghost pos = (row as int, col as int);
            let ghost m = map.cells();
            proof {
                lemma_start_iff_kept(g, m, cols, pos);
                lemma_starts_bounded(g, cols, row as int, col as int + 1);
            }
            assert(m[row as int] == map.grid@[row as int]@);
            if map.grid[row][col] {
                delete_island(row, col, &mut map);
                proof {
                    lemma_scan_advance_removed(g, m, cols, pos);
                }
                count += 1;
            } else {
                proof {
                    lemma_scan_advance_kept(g, m, cols, pos);
                }
            }
            col += 1;
        }
        proof {
            lemma_scan_next_row(g, map.cells(), cols, row as int);
        }
        row += 1;
    }
    SolveResponse::Solved(count)
}

/// No cell of the island of `x` comes before `q` in row-major order.
spec fn no_earlier(g: Seq<Seq<bool>>, cols: int, x: (int, int), q: (int, int)) -> bool {
    forall|b: (int, int)| #[trigger] connected(g, cols, x, b) ==> !precedes(b, q)
}

/// While scanning at `q`, the islands that start before `q` have been removed and the others kept.
spec fn scan_inv(g: Seq<Seq<bool>>, m: Seq<Seq<bool>>, cols: int, q: (int, int)) -> bool {
    &&& same_shape(m, g)
    &&& forall|x: (int, int)| #[trigger] is_land(m, cols, x) ==> is_land(g, cols, x)
    &&& forall|x: (int, int)| #[trigger]
        is_land(g, cols, x) ==> (is_land(m, cols, x) <==> no_earlier(g, cols, x, q))
}

proof fn lemma_start_iff_kept(g: Seq<Seq<bool>>, m: Seq<Seq<bool>>, cols: int, pos: (int, int))
    requires
        scan_inv(g, m, cols, pos),
    ensures
        is_land(m, cols, pos) <==> is_island_start(g, cols, pos),
{
    if is_island_start(g, cols, pos) {
        assert(is_land(g, cols, pos));
        assert forall|b: (int, int)| #[trigger] connected(g, cols, pos, b) implies !precedes(b, pos) by {
        }
    }
}

/// Within a scan, the island of `pos` in the current map is its island in the scanned map.
proof fn lemma_kept_island_same(g: Seq<Seq<bool>>, m: Seq<Seq<bool>>, cols: int, pos: (int, int), x: (int, int))
    requires
        scan_inv(g, m, cols, pos),
        is_land(m, cols, pos),
    ensures
        connected(m, cols, pos, x) <==> connected(g, cols, pos, x),
{
    if connected(m, cols, pos, x) {
        lemma_connected_shrink(m, g, cols, pos, x);
    }
    if connected(g, cols, pos, x) {
        assert forall|y: (int, int)| #[trigger] connected(g, cols, pos, y) implies is_land(m, cols, y) by {
            lemma_connected_ends(g, cols, pos, y);
            assert forall|b: (int, int)| #[trigger] connected(g, cols, y, b) implies !precedes(b, pos) by {
                lemma_connected_trans(g, cols, pos, y, b);
            }
        }
        lemma_connected_keep(g, m, cols, pos, x);
    }
}

proof fn lemma_scan_advance_removed(g: Seq<Seq<bool>>, m: Seq<Seq<bool>>, cols: int, pos: (int, int))
    requires
        scan_inv(g, m, cols, pos),
        is_land(m, cols, pos),
        rows_cover(g, cols),
    ensures
        scan_inv(g, remove_island(m, cols, pos), cols, (pos.0, pos.1 + 1)),
{
    let m2 = remove_island(m, cols, pos);
    let next = (pos.0, pos.1 + 1);
    assert forall|x: (int, int)| #[trigger] is_land(m2, cols, x) implies is_land(g, cols, x) by {
        assert(is_land(m, cols, x));
    }
    assert forall|x: (int, int)| #[trigger] is_land(g, cols, x) implies (is_land(m2, cols, x)
        <==> no_earlier(g, cols, x, next)) by {
        lemma_kept_island_same(g, m, cols, pos, x);
        if connected(g, cols, pos, x) {
            lemma_connected_symm(g, cols, pos, x);
        }
        if connected(g, cols, x, pos) {
            lemma_connected_symm(g, cols, x, pos);
        }
        if no_earlier(g, cols, x, pos) && !connected(g, cols, x, pos) {
            assert forall|b: (int, int)| #[trigger] connected(g, cols, x, b) implies !precedes(b, next) by {
            }
        }
        if no_earlier(g, cols, x, next) {
            assert forall|b: (int, int)| #[trigger] connected(g, cols, x, b) implies !precedes(b, pos) by {
                assert(!precedes(b, next));
            }
        }
        if is_land(m2, cols, x) {
            assert(m2[x.0][x.1]);
            assert(is_land(m, cols, x));
        } else if is_land(m, cols, x) {
            assert(!m2[x.0][x.1]);
        }
    }
}

proof fn lemma_scan_advance_kept(g: Seq<Seq<bool>>, m: Seq<Seq<bool>>, cols: int, pos: (int, int))
    requires
        scan_inv(g, m, cols, pos),
        !is_land(m, cols, pos),
        0 <= pos.0 < g.len(),
        0 <= pos.1 < cols,
    ensures
        scan_inv(g, m, cols, (pos.0, pos.1 + 1)),
{
    let next = (pos.0, pos.1 + 1);
    assert forall|x: (int, int)| #[trigger] is_land(g, cols, x) implies (is_land(m, cols, x)
        <==> no_earlier(g, cols, x, next)) by {
        if no_earlier(g, cols, x, pos) {
            if connected(g, cols, x, pos) {
                lemma_connected_ends(g, cols, x, pos);
                lemma_start_iff_kept(g, m, cols, pos);
                let b = choose|b: (int, int)| #[trigger] connected(g, cols, pos, b) && precedes(b, pos);
                lemma_connected_trans(g, cols, x, pos, b);
            }
            assert forall|b: (int, int)| #[trigger] connected(g, cols, x, b) implies !precedes(b, next) by {
            }
        }
        if no_earlier(g, cols, x, next) {
            assert forall|b: (int, int)| #[trigger] connected(g, cols, x, b) implies !precedes(b, pos) by {
                assert(!precedes(b, next));
            }
        }
    }
}

proof fn lemma_scan_next_row(g: Seq<Seq<bool>>, m: Seq<Seq<bool>>, cols: int, row: int)
    requires
        scan_inv(g, m, cols, (row, cols)),
    ensures
        scan_inv(g, m, cols, (row + 1, 0)),
{
    assert forall|x: (int, int)| #[trigger] is_land(g, cols, x) implies (is_land(m, cols, x)
        <==> no_earlier(g, cols, x, (row + 1, 0))) by {
        if no_earlier(g, cols, x, (row, cols)) {
            assert forall|b: (int, int)| #[trigger] connected(g, cols, x, b) implies !precedes(b, (row + 1, 0)) by {
                lemma_connected_ends(g, cols, x, b);
            }
        }
        if no_earlier(g, cols, x, (row + 1, 0)) {
            assert forall|b: (int, int)| #[trigger] connected(g, cols, x, b) implies !precedes(b, (row, cols)) by {
                lemma_connected_ends(g, cols, x, b);
            }
        }
    }
}

proof fn lemma_starts_in_row_mono(g: Seq<Seq<bool>>, cols: int, r: int, c: int, d: int)
    requires
        c <= d,
    ensures
        starts_in_row(g, cols, r, c) <= starts_in_row(g, cols, r, d),
    decreases d - c,
{
    if c < d {
        lemma_starts_in_row_mono(g, cols, r, c, d - 1);
    }
}

proof fn lemma_starts_before_row_mono(g: Seq<Seq<bool>>, cols: int, r: int, s: int)
    requires
        r <= s,
    ensures
        starts_before_row(g, cols, r) <= starts_before_row(g, cols, s),
    decreases s - r,
{
    if r < s {
        lemma_starts_before_row_mono(g, cols, r, s - 1);
    }
}

/// The starts counted up to cell (`r`, `c`) never exceed the islands of the map.
proof fn lemma_starts_bounded(g: Seq<Seq<bool>>, cols: int, r: int, c: int)
    requires
        0 <= r < g.len(),
        0 <= c <= cols,
    ensures
        starts_before_row(g, cols, r) + starts_in_row(g, cols, r, c) <= island_count(g, cols),
{
    lemma_starts_in_row_mono(g, cols, r, c, cols);
    lemma_starts_before_row_mono(g, cols, r + 1, g.len() as int);
}


/// Sum of the window `s[lo..hi]`.
pub open spec fn window_sum(s: Seq<i64>, lo: int, hi: int) -> int
    decreases hi - lo,
{
    if hi <= lo {
        0
    } else {
        window_sum(s, lo, hi - 1) + s[hi - 1]
    }
}

/// `v` is the largest sum of a non-empty window of `s`.
pub open spec fn is_largest_window_sum(s: Seq<i64>, v: int) -> bool {
    &&& exists|lo: int, hi: int| 0 <= lo < hi <= s.len() && #[trigger] window_sum(s, lo, hi) == v
    &&& forall|lo: int, hi: int| 0 <= lo < hi <= s.len() ==> #[trigger] window_sum(s, lo, hi) <= v
}

/// Largest sum of a non-empty window that ends at `s[i]`: the running value of the scan.
pub open spec fn best_ending_at(s: Seq<i64>, i: int) -> int
    decreases i,
{
    if i <= 0 {
        s[0] as int
    } else {
        let extended = best_ending_at(s, i - 1) + s[i];
        if s[i] >= extended {
            s[i] as int
        } else {
            extended
        }
    }
}

/// Each step of the scan, the previous running value plus the next element, fits an `i64`.
/// The scan overflows, and panics, exactly when this fails.
pub open spec fn window_scan_fits(s: Seq<i64>) -> bool {
    forall|i: int|
        1 <= i < s.len() ==> i64::MIN <= #[trigger] best_ending_at(s, i - 1) + s[i] <= i64::MAX
}

proof fn lemma_best_ending_at(s: Seq<i64>, i: int)
    requires
        0 <= i < s.len(),
    ensures
        exists|lo: int| 0 <= lo <= i && #[trigger] window_sum(s, lo, i + 1) == best_ending_at(s, i),
        forall|lo: int| 0 <= lo <= i ==> #[trigger] window_sum(s, lo, i + 1) <= best_ending_at(s, i),
    decreases i,
{
    assert(window_sum(s, i, i + 1) == s[i]) by {
        assert(window_sum(s, i, i) == 0);
    }
    if i > 0 {
        lemma_best_ending_at(s, i - 1);
        let prev_lo = choose|lo: int| 0 <= lo <= i - 1 && #[trigger] window_sum(s, lo, i) == best_ending_at(s, i - 1);
        assert(window_sum(s, prev_lo, i + 1) == window_sum(s, prev_lo, i) + s[i]);
        assert forall|lo: int| 0 <= lo <= i implies #[trigger] window_sum(s, lo, i + 1) <= best_ending_at(s, i) by {
            if lo < i {
                assert(window_sum(s, lo, i + 1) == window_sum(s, lo, i) + s[i]);
                assert(window_sum(s, lo, i) <= best_ending_at(s, i - 1));
            }
        }
    }
}

/// The scan over `s`, with the overflow that would panic detected: `None` exactly when the
/// input is empty or a step overflows.
fn largest_window_scan(data: &Vec<i64>) -> (res: Option<i64>)
    ensures
        res is Some <==> data@.len() > 0 && window_scan_fits(data@),
        res matches Some(v) ==> is_largest_window_sum(data@, v as int),
{
    let n = data.len();
    if n == 0 {
        return None;
    }
    let ghost s = data@;
    let mut best: i64 = data[0];
    let mut current: i64 = data[0];
    let mut i: usize = 1;
    proof {
        lemma_best_ending_at(s, 0);
    }
    while i < n
        invariant
            s == data@,
            n == s.len(),
            1 <= i <= n,
            current == best_ending_at(s, i - 1),
            forall|j: int| 1 <= j < i ==> i64::MIN <= #[trigger] best_ending_at(s, j - 1) + s[j] <= i64::MAX,
            exists|lo: int, hi: int| 0 <= lo < hi <= i && #[trigger] window_sum(s, lo, hi) == best,
            forall|lo: int, hi: int| 0 <= lo < hi <= i ==> #[trigger] window_sum(s, lo, hi) <= best,
        decreases n - i,
    {
        let x = data[i];
        let extended = match current.checked_add(x) {
            Some(e) => e,
            None => {
                assert(!window_scan_fits(s)) by {
                    assert(i64::MIN <= best_ending_at(s, i as int - 1) + s[i as int] <= i64::MAX ==> false);
                }
                return None;
            },
        };
        current = if x >= extended { x } else { extended };
        proof {
            lemma_best_ending_at(s, i as int);
            let lo_end = choose|lo: int| 0 <= lo <= i && #[trigger] window_sum(s, lo, i + 1) == best_ending_at(s, i as int);
            assert forall|lo: int, hi: int| 0 <= lo < hi <= i + 1 implies #[trigger] window_sum(s, lo, hi) <= (if current > best { current } else { best }) by {
                if hi == i + 1 {
                    assert(window_sum(s, lo, i + 1) <= best_ending_at(s, i as int));
                }
            }
            if current > best {
                assert(window_sum(s, lo_end, i + 1) == current);
            }
        }
        if current > best {
            best = current;
        }
        i = i + 1;
    }
    Some(best)
}

/// Largest sum of a non-empty window of the data.
pub fn solve_largest_window_in_array(data: Vec<i64>) -> (res: SolveResponse)
    requires
        data@.len() > 0,
        window_scan_fits(data@),
    ensures
        res matches SolveResponse::Solved(v) && is_largest_window_sum(data@, v as int),
{
    let best = largest_window_scan(&data).unwrap();
    SolveResponse::Solved(best)
}

/// A window's sum is its first element plus the sum of the rest.
proof fn lemma_window_sum_front(s: Seq<i64>, lo: int, hi: int)
    requires
        lo < hi,
    ensures
        window_sum(s, lo, hi) == s[lo] + window_sum(s, lo + 1, hi),
    decreases hi - lo,
{
    assert(window_sum(s, lo, hi) == window_sum(s, lo, hi - 1) + s[hi - 1]);
    if lo + 1 < hi {
        lemma_window_sum_front(s, lo, hi - 1);
        assert(window_sum(s, lo + 1, hi) == window_sum(s, lo + 1, hi - 1) + s[hi - 1]);
    } else {
        assert(window_sum(s, lo, lo) == 0);
        assert(window_sum(s, lo + 1, hi) == 0);
    }
}

/// The window `lo..hi` of the reversed data holds the elements of the window
/// `n - hi .. n - lo` of the data, so both have the same sum.
proof fn lemma_window_sum_reverse(s: Seq<i64>, lo: int, hi: int)
    requires
        0 <= lo <= hi <= s.len(),
    ensures
        window_sum(s.reverse(), lo, hi) == window_sum(s, s.len() - hi, s.len() - lo),
    decreases hi - lo,
{
    let n = s.len() as int;
    if lo < hi {
        lemma_window_sum_reverse(s, lo, hi - 1);
        lemma_window_sum_front(s, n - hi, n - lo);
        assert(s.reverse()[hi - 1] == s[n - hi]);
    }
}

/// The largest window sum does not depend on the direction in which the data is read:
/// the data and the data reversed have the same largest window sum, and a sequence has
/// only one largest window sum.
pub proof fn law_reversal_keeps_largest_window(s: Seq<i64>, a: int, b: int)
    ensures
        is_largest_window_sum(s, a) <==> is_largest_window_sum(s.reverse(), a),
        is_largest_window_sum(s, a) && is_largest_window_sum(s.reverse(), b) ==> a == b,
{
    let n = s.len() as int;
    let r = s.reverse();
    assert(r.len() == n);
    if is_largest_window_sum(s, a) {
        let (lo, hi) = choose|lo: int, hi: int| 0 <= lo < hi <= n && #[trigger] window_sum(s, lo, hi) == a;
        lemma_window_sum_reverse(s, n - hi, n - lo);
        assert(window_sum(r, n - hi, n - lo) == a);
        assert forall|lo2: int, hi2: int| 0 <= lo2 < hi2 <= n implies #[trigger] window_sum(r, lo2, hi2) <= a by {
            lemma_window_sum_reverse(s, lo2, hi2);
            assert(window_sum(s, n - hi2, n - lo2) <= a);
        }
        if is_largest_window_sum(r, b) {
            let (lo3, hi3) = choose|lo3: int, hi3: int| 0 <= lo3 < hi3 <= n && #[trigger] window_sum(r, lo3, hi3) == b;
            assert(window_sum(r, lo3, hi3) <= a);
            assert(window_sum(r, n - hi, n - lo) <= b);
        }
    }
    if is_largest_window_sum(r, a) {
        let (lo, hi) = choose|lo: int, hi: int| 0 <= lo < hi <= n && #[trigger] window_sum(r, lo, hi) == a;
        lemma_window_sum_reverse(s, lo, hi);
        assert(window_sum(s, n - hi, n - lo) == a);
        assert forall|lo2: int, hi2: int| 0 <= lo2 < hi2 <= n implies #[trigger] window_sum(s, lo2, hi2) <= a by {
            lemma_window_sum_reverse(s, n - hi2, n - lo2);
            assert(window_sum(r, n - hi2, n - lo2) <= a);
        }
    }
}

proof fn lemma_true_before_row_step(g: Seq<Seq<bool>>, r: int)
    requires
        0 <= r,
    ensures
        true_before_row(g, r + 1) == true_before_row(g, r) + count_true_prefix(g[r], g[r].len() as int),
{
}

proof fn lemma_true_before_row_mono(g: Seq<Seq<bool>>, r: int, s: int)
    requires
        0 <= r <= s,
    ensures
        true_before_row(g, r) <= true_before_row(g, s),
    decreases s - r,
{
    if r < s {
        lemma_true_before_row_mono(g, r, s - 1);
    }
}

/// Number of `true` cells of the map, or `None` when it exceeds `usize::MAX`
/// (the case in which summing the row counts overflows and panics).
fn count_true_cells(data: &Vec<Vec<bool>>) -> (res: Option<usize>)
    ensures
        res is Some <==> true_count(grid_view(data)) <= usize::MAX,
        res matches Some(n) ==> n == true_count(grid_view(data)),
{
    let ghost g = grid_view(data);
    let mut total: usize = 0;
    let mut r: usize = 0;
    while r < data.len()
        invariant
            g == grid_view(data),
            r <= data@.len(),
            total == true_before_row(g, r as int),
        decreases data@.len() - r,
    {
        let row = &data[r];
        assert(g[r as int] == row@);
        let mut in_row: usize = 0;
        let mut c: usize = 0;
        while c < row.len()
            invariant
                c <= row@.len(),
                in_row == count_true_prefix(row@, c as int),
                in_row <= c,
            decreases row@.len() - c,
        {
            if row[c] {
                in_row = in_row + 1;
            }
            c = c + 1;
        }
        proof {
            lemma_true_before_row_step(g, r as int);
        }
        match total.checked_add(in_row) {
            Some(t) => {
                total = t;
            },
            None => {
                proof {
                    lemma_true_before_row_mono(g, r as int + 1, g.len() as int);
                }
                return None;
            },
        }
        r = r + 1;
    }
    Some(total)
}

/// Total area of land on the map: the number of `true` cells, every column counted.
/// A map without land is refused.
pub fn solve_size_of_island(data: Vec<Vec<bool>>) -> (res: SolveResponse)
    requires
        true_count(grid_view(&data)) <= usize::MAX,
    ensures
        true_count(grid_view(&data)) == 0 ==> (res matches SolveResponse::BadData(m) && m@
            == "No island found"@),
        true_count(grid_view(&data)) > 0 ==> res == SolveResponse::Solved(
            (true_count(grid_view(&data)) as usize) as i64,
        ),
{
    let total = count_true_cells(&data).unwrap();
    let answer = total as i64;
    assert(answer == 0 ==> total == 0) by (bit_vector)
        requires
            answer == total as i64,
    ;
    if answer == 0 {
        return SolveResponse::BadData("No island found".to_string());
    }
    SolveResponse::Solved(answer)
}

/// Number of bytes of the UTF-8 encoding of a text.
pub open spec fn utf8_len(s: Seq<char>) -> nat {
    vstd::utf8::encode_utf8(s).len()
}

/// The test problem's answer: the length of the data in bytes.
pub fn solve_test_problem(data: String) -> (res: SolveResponse)
    ensures
        res == SolveResponse::Solved((utf8_len(data@) as usize) as i64),
{
    SolveResponse::Solved(data.as_str().len() as i64)
}

/// The inputs on which a solver runs to its end without a panic.
pub open spec fn solver_accepts(req: SolveRequest) -> bool {
    match req {
        SolveRequest::LargestWindowInArray { data } => data@.len() > 0 && window_scan_fits(data@),
        SolveRequest::SizeOfIsland { data } => true_count(grid_view(&data)) <= usize::MAX,
        _ => true,
    }
}

/// What the largest-window solver answers: the largest window sum.
pub open spec fn largest_window_answer(data: Seq<i64>, res: SolveResponse) -> bool {
    res matches SolveResponse::Solved(v) && is_largest_window_sum(data, v as int)
}

/// What the test-problem solver answers: the length of the text in bytes.
pub open spec fn test_problem_answer(data: Seq<char>, res: SolveResponse) -> bool {
    res == SolveResponse::Solved((utf8_len(data) as usize) as i64)
}

/// What the island-size solver answers: the number of land cells, or a refusal of a map
/// without land.
pub open spec fn island_size_answer(g: Seq<Seq<bool>>, res: SolveResponse) -> bool {
    if true_count(g) == 0 {
        res matches SolveResponse::BadData(m) && m@ == "No island found"@
    } else {
        res == SolveResponse::Solved((true_count(g) as usize) as i64)
    }
}

/// What the solver service answers to a request that its solvers accept: the answer of the
/// request's solver, or `Fault` for a problem without a solver here.
pub open spec fn solve_spec(req: SolveRequest, res: SolveResponse) -> bool {
    match req {
        SolveRequest::LargestWindowInArray { data } => largest_window_answer(data@, res),
        SolveRequest::TestProblem { data } => test_problem_answer(data@, res),
        SolveRequest::SizeOfIsland { data } => island_size_answer(grid_view(&data), res),
        _ => res == SolveResponse::Fault,
    }
}

/// What the solver service answers to any request: the solvers' answer where they accept
/// the request, `Fault` where a solver would panic.
pub open spec fn service_spec(req: SolveRequest, res: SolveResponse) -> bool {
    if solver_accepts(req) {
        solve_spec(req, res)
    } else {
        res == SolveResponse::Fault
    }
}

/// Two answers say the same: the same number, the same message, or both `Fault`.
pub open spec fn same_answer(a: SolveResponse, b: SolveResponse) -> bool {
    match (a, b) {
        (SolveResponse::Solved(x), SolveResponse::Solved(y)) => x == y,
        (SolveResponse::BadData(m), SolveResponse::BadData(n)) => m@ == n@,
        (SolveResponse::Fault, SolveResponse::Fault) => true,
        _ => false,
    }
}

/// An answer that meets `solve_spec` is the only one: any two agree.
proof fn lemma_solve_spec_unique(req: SolveRequest, a: SolveResponse, b: SolveResponse)
    requires
        solve_spec(req, a),
        solve_spec(req, b),
    ensures
        same_answer(a, b),
{
    if let SolveRequest::LargestWindowInArray { data } = req {
        let x = a->Solved_0 as int;
        let y = b->Solved_0 as int;
        law_reversal_keeps_largest_window(data@, y, y);
        law_reversal_keeps_largest_window(data@, x, y);
    }
}

/// The dispatcher answers as the request's own solver does: on a request that the solvers
/// accept, the dispatcher's answer and the solver's answer on the same data agree.
pub proof fn law_dispatcher_answers_as_solvers(req: SolveRequest, a: SolveResponse, b: SolveResponse)
    requires
        solver_accepts(req),
        solve_spec(req, a),
    ensures
        req matches SolveRequest::LargestWindowInArray { data } ==> (largest_window_answer(data@, b) ==> same_answer(a, b)),
        req matches SolveRequest::TestProblem { data } ==> (test_problem_answer(data@, b) ==> same_answer(a, b)),
        req matches SolveRequest::SizeOfIsland { data } ==> (island_size_answer(grid_view(&data), b) ==> same_answer(a, b)),
{
    match req {
        SolveRequest::LargestWindowInArray { data } => {
            if largest_window_answer(data@, b) {
                lemma_solve_spec_unique(req, a, b);
            }
        },
        SolveRequest::TestProblem { data } => {
            if test_problem_answer(data@, b) {
                lemma_solve_spec_unique(req, a, b);
            }
        },
        SolveRequest::SizeOfIsland { data } => {
            if island_size_answer(grid_view(&data), b) {
                lemma_solve_spec_unique(req, a, b);
            }
        },
        _ => {},
    }
}

/// The service answers as the dispatcher does wherever the dispatcher runs to its end, and
/// answers `Fault` on every request on which a solver would panic.
pub proof fn law_service_answers_as_dispatcher(req: SolveRequest, a: SolveResponse, b: SolveResponse)
    requires
        service_spec(req, a),
    ensures
        solver_accepts(req) && solve_spec(req, b) ==> same_answer(a, b),
        !solver_accepts(req) ==> a == SolveResponse::Fault,
{
    if solver_accepts(req) && solve_spec(req, b) {
        lemma_solve_spec_unique(req, a, b);
    }
}

/// Hands a request to its solver; the problems without a solver here are answered `Fault`.
pub fn match_and_solve(req: SolveRequest) -> (res: SolveResponse)
    requires
        solver_accepts(req),
    ensures
        solve_spec(req, res),
{
    match req {
        SolveRequest::LargestWindowInArray { data } => solve_largest_window_in_array(data),
        SolveRequest::TestProblem { data } => solve_test_problem(data),
        SolveRequest::SizeOfIsland { data } => solve_size_of_island(data),
        _ => SolveResponse::Fault,
    }
}

/// The solver service.
pub struct SolverService;

impl SolverService {
    /// Answers a request. A request on which a solver would panic is answered `Fault`,
    /// as the service does when the task that runs the solver fails.
    pub fn solve(req: SolveRequest) -> (res: SolveResponse)
        ensures
            service_spec(req, res),
    {
        let accepted = match &req {
            SolveRequest::LargestWindowInArray { data } => largest_window_scan(data).is_some(),
            SolveRequest::SizeOfIsland { data } => count_true_cells(data).is_some(),
            _ => true,
        };
        if accepted {
            match_and_solve(req)
        } else {
            SolveResponse::Fault
        }
    }
}

} // verus!
