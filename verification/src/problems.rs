//! The problems that the problem service hands out: how each is generated, sent to the
//! solver, and written into the database.
use vstd::prelude::*;
use crate::decimal::{decimal_text, i64_text, i64_to_text, usize_to_text};
use crate::grid::{
    adjacent, connected, grid_view, is_land, lemma_closed_set_covers,
    lemma_connected_self, lemma_connected_shrink, lemma_connected_step, law_islands_counted_by_representatives,
    one_per_island,
};
use crate::random::{random_in, random_ratio};
use crate::seeding::{
    all_cells, drop_near, lemma_room_left, near_a_seed, on_map, seed_room, within, MIN_DISTANCE,
};
use crate::solver::SolveRequest;
use crate::text::{join, push_str_char};

verus! {

broadcast use vstd::string::group_string_axioms;

/// The kinds of problem that the service can generate.
#[derive(Debug, Clone, Copy, PartialEq, Eq, Structural)]
pub enum ProblemKind {
    LargestWindowInArray,
    CountIslands,
    SizeOfIsland,
    TestProblem,
}

/// A kind of problem: how its data is generated and how it is put to the solver.
pub trait Problem {
    type Data: DBColumn;

    fn create() -> Self::Data;

    fn into_request(data: Self::Data) -> SolveRequest;
}

/// A value written into a text column of the database.
pub trait DBColumn {
    /// The text that is written.
    spec fn db_text(&self) -> Seq<char>;

    fn to_db_entry(&self) -> (res: String)
        ensures
            res@ == self.db_text(),
    ;
}

impl DBColumn for i64 {
    open spec fn db_text(&self) -> Seq<char> {
        i64_text(*self as int)
    }

    fn to_db_entry(&self) -> (res: String) {
        i64_to_text(*self)
    }
}

impl DBColumn for usize {
    open spec fn db_text(&self) -> Seq<char> {
        decimal_text(*self as nat)
    }

    fn to_db_entry(&self) -> (res: String) {
        usize_to_text(*self)
    }
}

/// `true` or `false`.
pub open spec fn bool_text(b: bool) -> Seq<char> {
    if b {
        seq!['t', 'r', 'u', 'e']
    } else {
        seq!['f', 'a', 'l', 's', 'e']
    }
}

impl DBColumn for bool {
    open spec fn db_text(&self) -> Seq<char> {
        bool_text(*self)
    }

    fn to_db_entry(&self) -> (res: String) {
        let mut out = String::new();
        if *self {
            push_str_char(&mut out, 't');
            push_str_char(&mut out, 'r');
            push_str_char(&mut out, 'u');
            push_str_char(&mut out, 'e');
        } else {
            push_str_char(&mut out, 'f');
            push_str_char(&mut out, 'a');
            push_str_char(&mut out, 'l');
            push_str_char(&mut out, 's');
            push_str_char(&mut out, 'e');
        }
        assert(out@ =~= bool_text(*self));
        out
    }
}

impl DBColumn for char {
    open spec fn db_text(&self) -> Seq<char> {
        seq![*self]
    }

    fn to_db_entry(&self) -> (res: String) {
        let mut out = String::new();
        push_str_char(&mut out, *self);
        assert(out@ =~= seq![*self]);
        out
    }
}

impl DBColumn for String {
    open spec fn db_text(&self) -> Seq<char> {
        self@
    }

    fn to_db_entry(&self) -> (res: String) {
        self.clone()
    }
}

impl DBColumn for &str {
    open spec fn db_text(&self) -> Seq<char> {
        (*self)@
    }

    fn to_db_entry(&self) -> (res: String) {
        (*self).to_string()
    }
}

/// The separator between the items of a written list.
pub open spec fn item_separator() -> Seq<char> {
    seq![',', ' ']
}

/// A list is written `[a, b, c]`.
pub open spec fn list_text(items: Seq<Seq<char>>) -> Seq<char> {
    seq!['['] + join(items, item_separator()) + seq![']']
}

impl<T: DBColumn> DBColumn for Vec<T> {
    open spec fn db_text(&self) -> Seq<char> {
        list_text(self@.map_values(|v: T| v.db_text()))
    }

    fn to_db_entry(&self) -> (res: String) {
        let ghost texts = self@.map_values(|v: T| v.db_text());
        let mut out = String::new();
        push_str_char(&mut out, '[');
        let mut i: usize = 0;
        assert(texts.take(0) =~= Seq::<Seq<char>>::empty());
        while i < self.len()
            invariant
                texts == self@.map_values(|v: T| v.db_text()),
                i <= self@.len(),
                out@ == seq!['['] + join(texts.take(i as int), item_separator()),
            decreases self@.len() - i,
        {
            let ghost before = out@;
            if i > 0 {
                out.append(", ");
                proof {
                    reveal_strlit(", ");
                }
            }
            let item = self[i].to_db_entry();
            out.append(item.as_str());
            proof {
                let t = texts.take(i + 1);
                assert(t.drop_last() =~= texts.take(i as int));
                assert(t.last() == item@);
                if i == 0 {
                    assert(out@ =~= seq!['['] + join(t, item_separator()));
                } else {
                    assert(", "@ == item_separator());
                    assert(out@ =~= seq!['['] + join(t, item_separator()));
                }
            }
            i = i + 1;
        }
        assert(texts.take(self@.len() as int) =~= texts);
        push_str_char(&mut out, ']');
        out
    }
}

/// Largest window: twenty numbers, each in `-20..20`.
pub struct LargestWindow;

impl Problem for LargestWindow {
    type Data = Vec<i64>;

    fn create() -> (data: Vec<i64>)
        ensures
            data@.len() == 20,
            forall|i: int| 0 <= i < 20 ==> -20 <= #[trigger] data@[i] < 20,
    {
        let mut draws: Vec<u64> = Vec::new();
        let mut k: usize = 0;
        while k < 20
            invariant
                k <= 20,
                draws@.len() == k,
                forall|i: int| 0 <= i < k ==> #[trigger] draws@[i] < 40,
            decreases 20 - k,
        {
            let draw = random_in(0, 40);
            draws.push(draw);
            k = k + 1;
        }
        window_numbers(&draws)
    }

    fn into_request(data: Vec<i64>) -> (res: SolveRequest)
        ensures
            res == (SolveRequest::LargestWindowInArray { data }),
    {
        SolveRequest::LargestWindowInArray { data }
    }
}

/// The numbers of a largest-window problem from their draws: each draw from `0..40` gives
/// the draw minus 20.
pub fn window_numbers(draws: &Vec<u64>) -> (data: Vec<i64>)
    requires
        forall|i: int| 0 <= i < draws@.len() ==> #[trigger] draws@[i] < 40,
    ensures
        data@.len() == draws@.len(),
        forall|i: int| 0 <= i < draws@.len() ==> #[trigger] data@[i] == draws@[i] - 20,
        forall|i: int| 0 <= i < draws@.len() ==> -20 <= #[trigger] data@[i] < 20,
{
    let mut data: Vec<i64> = Vec::new();
    let mut k: usize = 0;
    while k < draws.len()
        invariant
            k <= draws@.len(),
            data@.len() == k,
            forall|i: int| 0 <= i < draws@.len() ==> #[trigger] draws@[i] < 40,
            forall|i: int| 0 <= i < k ==> #[trigger] data@[i] == draws@[i] - 20,
        decreases draws@.len() - k,
    {
        data.push((draws[k] as i64) - 20);
        k = k + 1;
    }
    data
}

/// Every list of numbers in `-20..20` is the one that some draws from `0..40` give, and
/// different draws give different numbers: the draws reach each problem, negative numbers
/// included, exactly once.
pub proof fn law_window_draws_reach_every_problem(t: Seq<i64>, d: Seq<u64>, e: Seq<u64>)
    requires
        forall|i: int| 0 <= i < t.len() ==> -20 <= #[trigger] t[i] < 20,
    ensures
        ({
            let draws = t.map_values(|x: i64| (x + 20) as u64);
            &&& draws.len() == t.len()
            &&& forall|i: int| 0 <= i < t.len() ==> #[trigger] draws[i] < 40 && draws[i] - 20 == t[i]
        }),
        d.len() == e.len() && (forall|i: int| 0 <= i < d.len() ==> #[trigger] d[i] - 20 == e[i] - 20) ==> d == e,
{
    let draws = t.map_values(|x: i64| (x + 20) as u64);
    assert forall|i: int| 0 <= i < t.len() implies #[trigger] draws[i] < 40 && draws[i] - 20 == t[i] by {
        assert(draws[i] == (t[i] + 20) as u64);
    }
    if d.len() == e.len() && (forall|i: int| 0 <= i < d.len() ==> #[trigger] d[i] - 20 == e[i] - 20) {
        assert(d =~= e);
    }
}

/// A run of `len` `A`s.
pub fn run_of_a(len: u64) -> (data: String)
    requires
        len < 20,
    ensures
        data@ == Seq::new(len as nat, |i: int| 'A'),
{
    let mut data = String::new();
    let mut k: u64 = 0;
    while k < len
        invariant
            k <= len < 20,
            data@.len() == k,
            forall|i: int| 0 <= i < data@.len() ==> #[trigger] data@[i] == 'A',
        decreases len - k,
    {
        push_str_char(&mut data, 'A');
        k = k + 1;
    }
    assert(data@ =~= Seq::new(len as nat, |i: int| 'A'));
    data
}

/// Each length gives its own run: runs of different lengths differ, and the run of `len`
/// `A`s has exactly `len` characters, so a draw from `10..20` reaches every length there.
pub proof fn law_each_length_gives_its_run(a: nat, b: nat)
    ensures
        Seq::new(a, |i: int| 'A').len() == a,
        a != b ==> Seq::new(a, |i: int| 'A') != Seq::new(b, |i: int| 'A'),
{
    if a != b {
        assert(Seq::new(a, |i: int| 'A').len() != Seq::new(b, |i: int| 'A').len());
    }
}

/// The test problem: a run of `A`s, between 10 and 19 long.
pub struct TestProblem;

impl Problem for TestProblem {
    type Data = String;

    fn create() -> (data: String)
        ensures
            10 <= data@.len() < 20,
            forall|i: int| 0 <= i < data@.len() ==> #[trigger] data@[i] == 'A',
    {
        let len = random_in(10, 20);
        run_of_a(len)
    }

    fn into_request(data: String) -> (res: SolveRequest)
        ensures
            res == (SolveRequest::TestProblem { data }),
    {
        SolveRequest::TestProblem { data }
    }
}

/// Counting islands: a square map with between 50 and 150 islands, whose side is the number
/// of islands times 2, 3 or 4.
pub struct CountIslands;

impl Problem for CountIslands {
    type Data = Vec<Vec<bool>>;

    fn create() -> (data: Vec<Vec<bool>>)
        ensures
            ({
                let n = data@.len();
                let count = crate::grid::island_count(grid_view(&data), n as int);
                &&& forall|r: int| 0 <= r < n ==> #[trigger] data@[r]@.len() == n
                &&& 50 <= count <= 150
                &&& n == 2 * count || n == 3 * count || n == 4 * count
            }),
    {
        let count: u8 = random_in(50, 151) as u8;
        let scale: usize = random_in(2, 5) as usize;
        assert(100 <= (count as usize) * scale <= 600) by (nonlinear_arith)
            requires
                50 <= count <= 150,
                2 <= scale <= 4,
        ;
        let size: usize = (count as usize) * scale;
        proof {
            let side = crate::seeding::lattice_side(size as int);
            assert(5 * side >= size && side >= 20);
            assert(count <= side * side) by (nonlinear_arith)
                requires
                    5 * side >= size,
                    side >= 20,
                    size == count * scale,
                    scale >= 2,
                    count >= 0,
            ;
        }
        let grid = create_islands(count, size);
        proof {
            if scale == 2 {
                assert(size == 2 * count) by (nonlinear_arith)
                    requires
                        size == count * scale,
                        scale == 2,
                ;
            } else if scale == 3 {
                assert(size == 3 * count) by (nonlinear_arith)
                    requires
                        size == count * scale,
                        scale == 3,
                ;
            } else {
                assert(size == 4 * count) by (nonlinear_arith)
                    requires
                        size == count * scale,
                        scale == 4,
                ;
            }
        }
        grid
    }

    fn into_request(data: Vec<Vec<bool>>) -> (res: SolveRequest)
        ensures
            res == (SolveRequest::CountIslands { data }),
    {
        SolveRequest::CountIslands { data }
    }
}

/// A `size` by `size` map of water.
fn water(size: usize) -> (grid: Vec<Vec<bool>>)
    ensures
        grid@.len() == size,
        forall|r: int| 0 <= r < size ==> #[trigger] grid@[r]@.len() == size,
        forall|r: int, c: int| 0 <= r < size && 0 <= c < size ==> !#[trigger] grid@[r]@[c],
{
    let mut grid: Vec<Vec<bool>> = Vec::new();
    let mut r: usize = 0;
    while r < size
        invariant
            r <= size,
            grid@.len() == r,
            forall|i: int| 0 <= i < r ==> #[trigger] grid@[i]@.len() == size,
            forall|i: int, c: int| 0 <= i < r && 0 <= c < size ==> !#[trigger] grid@[i]@[c],
        decreases size - r,
    {
        let mut row: Vec<bool> = Vec::new();
        let mut c: usize = 0;
        while c < size
            invariant
                c <= size,
                row@.len() == c,
                forall|j: int| 0 <= j < c ==> !#[trigger] row@[j],
            decreases size - c,
        {
            row.push(false);
            c = c + 1;
        }
        grid.push(row);
        r = r + 1;
    }
    grid
}

/// The cell with these coordinates.
pub open spec fn cell_of(p: (usize, usize)) -> (int, int) {
    (p.0 as int, p.1 as int)
}

/// `x` is one of the listed cells.
pub open spec fn listed(v: Seq<(usize, usize)>, x: (int, int)) -> bool {
    exists|i: int| 0 <= i < v.len() && #[trigger] cell_of(v[i]) == x
}

/// A `size` by `size` map.
pub open spec fn is_square(g: Seq<Seq<bool>>, size: int) -> bool {
    &&& g.len() == size
    &&& forall|r: int| 0 <= r < size ==> #[trigger] g[r].len() == size
}

/// No land cell is a side neighbour of `p`.
pub open spec fn no_land_around(g: Seq<Seq<bool>>, cols: int, p: (int, int)) -> bool {
    forall|y: (int, int)| adjacent(p, y) ==> !#[trigger] is_land(g, cols, y)
}

/// A square map of `size` by `size` cells with `island_count` islands. Each seed is drawn
/// at random among the cells that are not within `MIN_DISTANCE` of an earlier seed, in both
/// directions, then each seed grows an island. Islands never touch, so the map has one
/// island per seed. The map must have room for the seeds wherever the earlier ones fell.
fn create_islands(island_count: u8, size: usize) -> (grid: Vec<Vec<bool>>)
    requires
        island_count <= seed_room(size as int),
    ensures
        is_square(grid_view(&grid), size as int),
        grid@.len() == size,
        forall|r: int| 0 <= r < size ==> #[trigger] grid@[r]@.len() == size,
        crate::grid::island_count(grid_view(&grid), size as int) == island_count,
{
    let mut grid = water(size);
    let ghost n = size as int;
    let mut seeds: Vec<(usize, usize)> = Vec::new();
    let mut free = all_cells(size);
    proof {
        assert forall|x: (int, int)| #[trigger] is_land(grid_view(&grid), n, x) implies listed(seeds@, x) by {
            assert(!grid@[x.0]@[x.1]);
        }
        assert forall|x: (usize, usize)| on_map(x, n) implies (#[trigger] free@.contains(x) <==> !near_a_seed(seeds@, x)) by {
        }
    }
    while seeds.len() < island_count as usize
        invariant
            island_count <= seed_room(size as int),
            n == size,
            grid@.len() == size,
            forall|r: int| 0 <= r < size ==> #[trigger] grid@[r]@.len() == size,
            forall|i: int| 0 <= i < seeds@.len() ==> #[trigger] seeds@[i].0 < size && seeds@[i].1 < size,
            forall|x: (int, int)| #[trigger] is_land(grid_view(&grid), n, x) <==> listed(seeds@, x),
            forall|i: int, j: int|
                0 <= i < seeds@.len() && 0 <= j < seeds@.len() && i != j ==> !within(
                    #[trigger] seeds@[i],
                    #[trigger] seeds@[j],
                    MIN_DISTANCE as int,
                ),
            seeds@.len() <= island_count,
            forall|x: (usize, usize)| #[trigger] free@.contains(x) ==> on_map(x, n),
            forall|x: (usize, usize)| on_map(x, n) ==> (#[trigger] free@.contains(x) <==> !near_a_seed(seeds@, x)),
        decreases island_count - seeds@.len(),
    {
        proof {
            let p = lemma_room_left(seeds@, n);
            assert(free@.contains(p));
        }
        let pick = random_in(0, free.len() as u64) as usize;
        let (row, col) = free[pick];
        proof {
            assert(free@.contains((row, col)));
            assert(on_map((row, col), n));
            assert(!near_a_seed(seeds@, (row, col)));
        }
        let ghost before = grid_view(&grid);
        let ghost old_seeds = seeds@;
        let ghost old_free = free@;
        seeds.push((row, col));
        grid[row][col] = true;
        free = drop_near(&free, (row, col));
        proof {
            let after = grid_view(&grid);
            let cell = (row as int, col as int);
            assert(after =~= before.update(row as int, before[row as int].update(col as int, true)));
            assert(cell_of(seeds@[seeds@.len() - 1]) == cell);
            assert forall|x: (int, int)| listed(old_seeds, x) implies #[trigger] listed(seeds@, x) by {
                let i = choose|i: int| 0 <= i < old_seeds.len() && #[trigger] cell_of(old_seeds[i]) == x;
                assert(cell_of(seeds@[i]) == x);
            }
            assert forall|x: (int, int)| #[trigger] listed(seeds@, x) implies listed(old_seeds, x) || x == cell by {
                let i = choose|i: int| 0 <= i < seeds@.len() && #[trigger] cell_of(seeds@[i]) == x;
                if i < old_seeds.len() {
                    assert(seeds@[i] == old_seeds[i]);
                }
            }
            assert forall|x: (int, int)| #[trigger] is_land(after, n, x) <==> listed(seeds@, x) by {
                if x == cell {
                    assert(is_land(after, n, x));
                } else {
                    assert(is_land(after, n, x) == is_land(before, n, x));
                }
            }
            assert forall|i: int, j: int|
                0 <= i < seeds@.len() && 0 <= j < seeds@.len() && i != j implies !within(
                    #[trigger] seeds@[i],
                    #[trigger] seeds@[j],
                    MIN_DISTANCE as int,
                ) by {
                if i < old_seeds.len() && j < old_seeds.len() {
                    assert(seeds@[i] == old_seeds[i] && seeds@[j] == old_seeds[j]);
                } else if i < old_seeds.len() {
                    assert(seeds@[i] == old_seeds[i]);
                    assert(!within(old_seeds[i], (row, col), MIN_DISTANCE as int));
                } else {
                    assert(seeds@[j] == old_seeds[j]);
                    assert(!within(old_seeds[j], (row, col), MIN_DISTANCE as int));
                }
            }
            assert forall|i: int| 0 <= i < seeds@.len() implies #[trigger] seeds@[i].0 < size && seeds@[i].1 < size by {
                if i < old_seeds.len() {
                    assert(seeds@[i] == old_seeds[i]);
                }
            }
            assert forall|x: (usize, usize)| on_map(x, n) implies (#[trigger] free@.contains(x) <==> !near_a_seed(seeds@, x)) by {
                assert(old_free.contains(x) <==> !near_a_seed(old_seeds, x));
                if near_a_seed(old_seeds, x) {
                    let i = choose|i: int| 0 <= i < old_seeds.len() && within(#[trigger] old_seeds[i], x, MIN_DISTANCE as int);
                    assert(seeds@[i] == old_seeds[i]);
                }
                if near_a_seed(seeds@, x) {
                    let i = choose|i: int| 0 <= i < seeds@.len() && within(#[trigger] seeds@[i], x, MIN_DISTANCE as int);
                    if i < old_seeds.len() {
                        assert(seeds@[i] == old_seeds[i]);
                    } else {
                        assert(seeds@[i] == (row, col));
                    }
                }
                if !near_a_seed(seeds@, x) {
                    assert(!within(seeds@[seeds@.len() - 1], x, MIN_DISTANCE as int));
                    assert forall|i: int| 0 <= i < old_seeds.len() implies !within(#[trigger] old_seeds[i], x, MIN_DISTANCE as int) by {
                        assert(seeds@[i] == old_seeds[i]);
                    }
                }
            }
        }
    }
    let ghost seed_cells = seeds@.map_values(|p: (usize, usize)| cell_of(p));
    let ghost mut islands: Seq<Set<(int, int)>> = Seq::empty();
    let mut k: usize = 0;
    while k < seeds.len()
        invariant
            seeds@.len() == island_count,
            island_count <= seed_room(size as int),
            n == size,
            k <= seeds@.len(),
            grid@.len() == size,
            forall|r: int| 0 <= r < size ==> #[trigger] grid@[r]@.len() == size,
            forall|i: int| 0 <= i < seeds@.len() ==> #[trigger] seeds@[i].0 < size && seeds@[i].1 < size,
            seed_cells == seeds@.map_values(|p: (usize, usize)| cell_of(p)),
            forall|i: int, j: int|
                0 <= i < seeds@.len() && 0 <= j < seeds@.len() && i != j ==> !within(
                    #[trigger] seeds@[i],
                    #[trigger] seeds@[j],
                    MIN_DISTANCE as int,
                ),
            islands.len() == k,
            forall|x: (int, int)| #[trigger] is_land(grid_view(&grid), n, x) <==> (listed(seeds@, x) || exists|j: int| 0 <= j < k && #[trigger] islands[j].contains(x)),
            forall|j: int| 0 <= j < k ==> #[trigger] islands[j].contains(seed_cells[j]),
            forall|j: int, x: (int, int), y: (int, int)|
                #![trigger islands[j].contains(x), adjacent(x, y)]
                0 <= j < k && islands[j].contains(x) && adjacent(x, y) && is_land(grid_view(&grid), n, y) ==> islands[j].contains(y),
            forall|j: int, x: (int, int)|
                0 <= j < k && #[trigger] islands[j].contains(x) ==> connected(grid_view(&grid), n, seed_cells[j], x),
            forall|j: int, i: int|
                0 <= j < k && 0 <= i < seeds@.len() && i != j ==> !#[trigger] islands[j].contains(#[trigger] seed_cells[i]),
        decreases seeds@.len() - k,
    {
        let ghost before = grid_view(&grid);
        let seed = seeds[k];
        proof {
            let p = seed_cells[k as int];
            assert(p == cell_of(seed));
            assert(is_land(before, n, p)) by {
                assert(cell_of(seeds@[k as int]) == p);
            }
            assert forall|y: (int, int)| adjacent(p, y) implies !#[trigger] is_land(before, n, y) by {
                if is_land(before, n, y) {
                    if listed(seeds@, y) {
                        let i = choose|i: int| 0 <= i < seeds@.len() && #[trigger] cell_of(seeds@[i]) == y;
                        assert(within(seeds@[i], seeds@[k as int], MIN_DISTANCE as int));
                    } else {
                        let j = choose|j: int| 0 <= j < k && #[trigger] islands[j].contains(y);
                        assert(adjacent(y, p));
                        assert(islands[j].contains(p));
                        assert(!islands[j].contains(seed_cells[k as int]));
                    }
                }
            }
        }
        let grown = add_island_bfs(&mut grid, seed);
        proof {
            let after = grid_view(&grid);
            let isl = grown@;
            let p = seed_cells[k as int];
            let old_islands = islands;
            islands = islands.push(isl);
            assert forall|x: (int, int)| #[trigger] is_land(before, n, x) implies is_land(after, n, x) by {
            }
            assert forall|x: (int, int)| #[trigger] is_land(after, n, x) <==> (listed(seeds@, x) || exists|j: int| 0 <= j < k + 1 && #[trigger] islands[j].contains(x)) by {
                if is_land(before, n, x) {
                    if !listed(seeds@, x) {
                        let j = choose|j: int| 0 <= j < k && #[trigger] old_islands[j].contains(x);
                        assert(islands[j] == old_islands[j]);
                    }
                } else if isl.contains(x) {
                    assert(islands[k as int] == isl);
                }
                if exists|j: int| 0 <= j < k + 1 && #[trigger] islands[j].contains(x) {
                    let j = choose|j: int| 0 <= j < k + 1 && #[trigger] islands[j].contains(x);
                    if j < k {
                        assert(islands[j] == old_islands[j]);
                    }
                }
            }
            assert forall|j: int| 0 <= j < k + 1 implies #[trigger] islands[j].contains(seed_cells[j]) by {
                if j < k {
                    assert(islands[j] == old_islands[j]);
                }
            }
            assert forall|j: int, i: int|
                0 <= j < k + 1 && 0 <= i < seeds@.len() && i != j implies !#[trigger] islands[j].contains(#[trigger] seed_cells[i]) by {
                if j < k {
                    assert(islands[j] == old_islands[j]);
                } else {
                    assert(is_land(before, n, seed_cells[i])) by {
                        assert(cell_of(seeds@[i]) == seed_cells[i]);
                    }
                    if seed_cells[i] == p {
                        assert(within(seeds@[i], seeds@[k as int], MIN_DISTANCE as int));
                    }
                }
            }
            assert forall|j: int, x: (int, int), y: (int, int)|
                #![trigger islands[j].contains(x), adjacent(x, y)]
                0 <= j < k + 1 && islands[j].contains(x) && adjacent(x, y) && is_land(after, n, y) implies islands[j].contains(y) by {
                if j < k {
                    assert(islands[j] == old_islands[j]);
                    if !is_land(before, n, y) {
                        assert(isl.contains(y));
                        assert(adjacent(y, x));
                        assert(is_land(before, n, x));
                        assert(is_land(after, n, x));
                        assert(isl.contains(x));
                        assert(x == p);
                        assert(!old_islands[j].contains(seed_cells[k as int]));
                    }
                }
            }
            assert forall|j: int, x: (int, int)|
                0 <= j < k + 1 && #[trigger] islands[j].contains(x) implies connected(after, n, seed_cells[j], x) by {
                if j < k {
                    assert(islands[j] == old_islands[j]);
                    lemma_connected_shrink(before, after, n, seed_cells[j], x);
                }
            }
        }
        k = k + 1;
    }
    proof {
        let g = grid_view(&grid);
        assert forall|j: int| 0 <= j < seed_cells.len() implies is_land(g, n, #[trigger] seed_cells[j]) by {
            assert(cell_of(seeds@[j]) == seed_cells[j]);
        }
        assert forall|j: int, m: int|
            0 <= j < seed_cells.len() && 0 <= m < seed_cells.len() && j != m implies !connected(g, n, #[trigger] seed_cells[j], #[trigger] seed_cells[m]) by {
            if connected(g, n, seed_cells[j], seed_cells[m]) {
                let s = |x: (int, int)| islands[j].contains(x);
                assert forall|x: (int, int), y: (int, int)|
                    #![trigger s(x), adjacent(x, y)]
                    s(x) && is_land(g, n, x) && adjacent(x, y) && is_land(g, n, y) implies s(y) by {
                    assert(islands[j].contains(x));
                }
                lemma_closed_set_covers(g, n, seed_cells[j], seed_cells[m], s);
            }
        }
        assert forall|x: (int, int)| #[trigger] is_land(g, n, x) implies exists|j: int| 0 <= j < seed_cells.len() && #[trigger] connected(g, n, seed_cells[j], x) by {
            if listed(seeds@, x) {
                let i = choose|i: int| 0 <= i < seeds@.len() && #[trigger] cell_of(seeds@[i]) == x;
                assert(seed_cells[i] == x);
                lemma_connected_self(g, n, x);
            } else {
                let j = choose|j: int| 0 <= j < seeds@.len() && #[trigger] islands[j].contains(x);
            }
        }
        assert(one_per_island(g, n, seed_cells));
        law_islands_counted_by_representatives(g, n, seed_cells);
        assert forall|r: int| 0 <= r < n implies #[trigger] g[r].len() == n by {
            assert(g[r] == grid@[r]@);
        }
    }
    grid
}

/// `p` is one of the cells.
fn holds(cells: &Vec<(usize, usize)>, p: (usize, usize)) -> (res: bool)
    ensures
        res == listed(cells@, cell_of(p)),
{
    let mut i: usize = 0;
    while i < cells.len()
        invariant
            i <= cells@.len(),
            forall|j: int| 0 <= j < i ==> cell_of(#[trigger] cells@[j]) != cell_of(p),
        decreases cells@.len() - i,
    {
        if cells[i].0 == p.0 && cells[i].1 == p.1 {
            assert(cell_of(cells@[i as int]) == cell_of(p));
            return true;
        }
        i = i + 1;
    }
    false
}

/// The side neighbour of (`r`, `c`) in growth direction `k`: right, down, up, left.
pub open spec fn grow_step(r: int, c: int, k: int) -> (int, int) {
    if k == 0 {
        (r, c + 1)
    } else if k == 1 {
        (r + 1, c)
    } else if k == 2 {
        (r - 1, c)
    } else {
        (r, c - 1)
    }
}

/// A frontier entry: on the map, and either the seed or fresh water next to the island.
spec fn frontier_entry(e: (usize, usize), island: Seq<(usize, usize)>, g0: Seq<Seq<bool>>, cols: int, rows: int, p: (int, int)) -> bool {
    &&& e.0 < rows && e.1 < cols
    &&& cell_of(e) == p || (!is_land(g0, cols, cell_of(e)) && exists|w: (int, int)| listed(island, w) && #[trigger] adjacent(w, cell_of(e)))
}

/// A candidate next to `here`: on the map, and water.
spec fn candidate(e: (usize, usize), g: Seq<Seq<bool>>, cols: int, rows: int, here: (int, int)) -> bool {
    &&& e.0 < rows && e.1 < cols
    &&& adjacent(here, cell_of(e))
    &&& !is_land(g, cols, cell_of(e))
}

/// Looks around (`r`, `c`): `true` when some neighbour is land outside the island; else the
/// water neighbours that were drawn to join the frontier (each with probability 7 in 10).
fn look_around(grid: &Vec<Vec<bool>>, island: &Vec<(usize, usize)>, r: usize, c: usize) -> (res: (bool, Vec<(usize, usize)>))
    requires
        grid@.len() > 0,
        forall|rr: int| 0 <= rr < grid@.len() ==> #[trigger] grid@[rr]@.len() == grid@[0]@.len(),
        r < grid@.len(),
        c < grid@[0]@.len(),
    ensures
        ({
            let g = grid_view(grid);
            let cols = grid@[0]@.len() as int;
            let here = (r as int, c as int);
            &&& !res.0 ==> forall|k: int| 0 <= k < 4 ==> is_land(g, cols, #[trigger] grow_step(r as int, c as int, k)) ==> listed(island@, grow_step(r as int, c as int, k))
            &&& res.0 ==> exists|y: (int, int)| adjacent(here, y) && #[trigger] is_land(g, cols, y) && !listed(island@, y)
            &&& res.1@.len() <= 4
            &&& forall|i: int| 0 <= i < res.1@.len() ==> candidate(#[trigger] res.1@[i], g, cols, grid@.len() as int, here)
        }),
{
    let rows = grid.len();
    let cols = grid[0].len();
    let ghost g = grid_view(grid);
    let ghost here = (r as int, c as int);
    let mut surroundings: Vec<(usize, usize)> = Vec::new();
    let mut k: usize = 0;
    while k < 4
        invariant
            k <= 4,
            rows == grid@.len(),
            cols == grid@[0]@.len(),
            r < rows,
            c < cols,
            g == grid_view(grid),
            here == (r as int, c as int),
            forall|rr: int| 0 <= rr < rows ==> #[trigger] grid@[rr]@.len() == cols,
            surroundings@.len() <= k,
            forall|i: int| 0 <= i < surroundings@.len() ==> candidate(#[trigger] surroundings@[i], g, cols as int, rows as int, here),
            forall|j: int| 0 <= j < k ==> is_land(g, cols as int, #[trigger] grow_step(r as int, c as int, j)) ==> listed(island@, grow_step(r as int, c as int, j)),
        decreases 4 - k,
    {
        let (dr, dc): (isize, isize) = if k == 0 {
            (0, 1)
        } else if k == 1 {
            (1, 0)
        } else if k == 2 {
            (-1, 0)
        } else {
            (0, -1)
        };
        let ghost y = grow_step(r as int, c as int, k as int);
        let inside = !((dr < 0 && r == 0) || (dr > 0 && r + 1 >= rows) || (dc < 0 && c == 0) || (dc > 0 && c + 1 >= cols));
        if inside {
            let cr: usize = if dr < 0 {
                r - 1
            } else if dr > 0 {
                r + 1
            } else {
                r
            };
            let cc: usize = if dc < 0 {
                c - 1
            } else if dc > 0 {
                c + 1
            } else {
                c
            };
            assert(y == (cr as int, cc as int));
            assert(g[cr as int] == grid@[cr as int]@);
            if !grid[cr][cc] && random_ratio(7, 10) {
                surroundings.push((cr, cc));
                assert(candidate(surroundings@[surroundings@.len() - 1], g, cols as int, rows as int, here));
            } else if grid[cr][cc] && !holds(island, (cr, cc)) {
                assert(adjacent(here, y) && is_land(g, cols as int, y) && !listed(island@, y));
                return (true, surroundings);
            }
        } else {
            assert(!is_land(g, cols as int, y));
        }
        k = k + 1;
    }
    (false, surroundings)
}

/// Every side neighbour of `x` is one of the four growth steps.
proof fn lemma_adjacent_is_grow_step(x: (int, int), y: (int, int)) -> (k: int)
    requires
        adjacent(x, y),
    ensures
        0 <= k < 4,
        y == grow_step(x.0, x.1, k),
{
    if y == grow_step(x.0, x.1, 0) {
        0
    } else if y == grow_step(x.0, x.1, 1) {
        1
    } else if y == grow_step(x.0, x.1, 2) {
        2
    } else {
        3
    }
}

/// Grows an island of up to a random number of cells (1 to 30) from `pos`, breadth first,
/// and returns its cells: the target size is drawn, then `grow_island` grows the island.
fn add_island_bfs(grid: &mut Vec<Vec<bool>>, pos: (usize, usize)) -> (island: Ghost<Set<(int, int)>>)
    requires
        old(grid)@.len() > 0,
        forall|r: int| 0 <= r < old(grid)@.len() ==> #[trigger] old(grid)@[r]@.len() == old(grid)@[0]@.len(),
        pos.0 < old(grid)@.len(),
        pos.1 < old(grid)@[0]@.len(),
    ensures
        island@.finite(),
        island@.len() <= 30,
        ({
            let g0 = grid_view(old(grid));
            let g1 = grid_view(final(grid));
            let cols = old(grid)@[0]@.len() as int;
            let p = cell_of(pos);
            &&& final(grid)@.len() == old(grid)@.len()
            &&& forall|r: int| 0 <= r < final(grid)@.len() ==> #[trigger] final(grid)@[r]@.len() == cols
            &&& forall|x: (int, int)| #[trigger] is_land(g1, cols, x) <==> (is_land(g0, cols, x) || island@.contains(x))
            &&& forall|x: (int, int), y: (int, int)|
                #![trigger island@.contains(x), adjacent(x, y)]
                island@.contains(x) && adjacent(x, y) && is_land(g1, cols, y) ==> island@.contains(y)
            &&& forall|x: (int, int)| #[trigger] island@.contains(x) ==> x == p || !is_land(g0, cols, x)
            &&& forall|x: (int, int)| #[trigger] island@.contains(x) ==> connected(g1, cols, p, x)
            &&& no_land_around(g0, cols, p) ==> island@.contains(p)
        }),
{
    let size = random_in(1, 31) as usize;
    grow_island(grid, pos, size)
}

/// Grows an island of up to `size` cells from `pos`, breadth first, and returns its cells.
/// Each water neighbour of a new cell joins the frontier with probability 7 in 10; a cell
/// that touches land outside the island is not taken. So the island never touches other
/// land, and it holds `pos` when no land is next to `pos`.
fn grow_island(grid: &mut Vec<Vec<bool>>, pos: (usize, usize), size: usize) -> (island: Ghost<Set<(int, int)>>)
    requires
        old(grid)@.len() > 0,
        forall|r: int| 0 <= r < old(grid)@.len() ==> #[trigger] old(grid)@[r]@.len() == old(grid)@[0]@.len(),
        pos.0 < old(grid)@.len(),
        pos.1 < old(grid)@[0]@.len(),
        1 <= size <= 30,
    ensures
        island@.finite(),
        island@.len() <= size,
        ({
            let g0 = grid_view(old(grid));
            let g1 = grid_view(final(grid));
            let cols = old(grid)@[0]@.len() as int;
            let p = cell_of(pos);
            &&& final(grid)@.len() == old(grid)@.len()
            &&& forall|r: int| 0 <= r < final(grid)@.len() ==> #[trigger] final(grid)@[r]@.len() == cols
            &&& forall|x: (int, int)| #[trigger] is_land(g1, cols, x) <==> (is_land(g0, cols, x) || island@.contains(x))
            &&& forall|x: (int, int), y: (int, int)|
                #![trigger island@.contains(x), adjacent(x, y)]
                island@.contains(x) && adjacent(x, y) && is_land(g1, cols, y) ==> island@.contains(y)
            &&& forall|x: (int, int)| #[trigger] island@.contains(x) ==> x == p || !is_land(g0, cols, x)
            &&& forall|x: (int, int)| #[trigger] island@.contains(x) ==> connected(g1, cols, p, x)
            &&& no_land_around(g0, cols, p) ==> island@.contains(p)
        }),
{
    let cols = grid[0].len();
    let rows = grid.len();
    let ghost g0 = grid_view(grid);
    let ghost c = cols as int;
    let ghost p = cell_of(pos);
    let mut queue: std::collections::VecDeque<(usize, usize)> = std::collections::VecDeque::new();
    let mut island: Vec<(usize, usize)> = Vec::new();
    queue.push_back(pos);
    proof {
        assert(frontier_entry(queue@[0], island@, g0, c, rows as int, p));
    }
    while queue.len() > 0
        invariant
            rows == grid@.len() == g0.len(),
            rows > 0,
            c == cols,
            cols == grid@[0]@.len(),
            p == cell_of(pos),
            1 <= size <= 30,
            island@.len() <= size,
            forall|r: int| 0 <= r < rows ==> #[trigger] grid@[r]@.len() == cols,
            forall|r: int| 0 <= r < rows ==> #[trigger] g0[r].len() == cols,
            forall|x: (int, int)| #[trigger] is_land(grid_view(grid), c, x) <==> (is_land(g0, c, x) || listed(island@, x)),
            forall|x: (int, int), y: (int, int)|
                #![trigger listed(island@, x), adjacent(x, y)]
                listed(island@, x) && adjacent(x, y) && is_land(grid_view(grid), c, y) ==> listed(island@, y),
            forall|x: (int, int)| #[trigger] listed(island@, x) ==> x == p || !is_land(g0, c, x),
            forall|x: (int, int)| #[trigger] listed(island@, x) ==> connected(grid_view(grid), c, p, x),
            forall|i: int| 0 <= i < queue@.len() ==> frontier_entry(#[trigger] queue@[i], island@, g0, c, rows as int, p),
            no_land_around(g0, c, p) ==> (listed(island@, p) || (island@.len() == 0 && queue@ == seq![pos])),
        ensures
            no_land_around(g0, c, p) ==> listed(island@, p),
        decreases 4 * (size - island@.len()) + queue@.len(),
    {
        let ghost g = grid_view(grid);
        let ghost old_queue = queue@;
        let (r, cc): (usize, usize) = queue.pop_front().unwrap();
        let ghost here = (r as int, cc as int);
        assert(old_queue[0] == (r, cc));
        assert(frontier_entry(old_queue[0], island@, g0, c, rows as int, p));
        assert forall|i: int| 0 <= i < queue@.len() implies frontier_entry(#[trigger] queue@[i], island@, g0, c, rows as int, p) by {
            assert(queue@[i] == old_queue[i + 1]);
        }
        if island.len() == size {
            break;
        }
        if holds(&island, (r, cc)) {
            continue;
        }
        let (blocked, surroundings) = look_around(grid, &island, r, cc);
        if blocked {
            proof {
                if no_land_around(g0, c, p) && !listed(island@, p) {
                    let y = choose|y: (int, int)| adjacent(here, y) && #[trigger] is_land(g, c, y) && !listed(island@, y);
                    assert(island@.len() == 0 && old_queue == seq![pos]);
                    assert(here == p);
                    assert(is_land(g0, c, y));
                }
            }
            continue;
        }
        let ghost old_island = island@;
        let ghost before = grid@;
        grid[r][cc] = true;
        island.push((r, cc));
        let ghost g2 = grid_view(grid);
        proof {
            assert(g2 =~= g.update(r as int, g[r as int].update(cc as int, true)));
            assert(cell_of(island@[island@.len() - 1]) == here);
            assert forall|x: (int, int)| listed(old_island, x) implies #[trigger] listed(island@, x) by {
                let i = choose|i: int| 0 <= i < old_island.len() && #[trigger] cell_of(old_island[i]) == x;
                assert(island@[i] == old_island[i]);
            }
            assert forall|x: (int, int)| #[trigger] listed(island@, x) implies listed(old_island, x) || x == here by {
                let i = choose|i: int| 0 <= i < island@.len() && #[trigger] cell_of(island@[i]) == x;
                if i < old_island.len() {
                    assert(island@[i] == old_island[i]);
                }
            }
            assert forall|x: (int, int)| #[trigger] is_land(g2, c, x) <==> (is_land(g, c, x) || x == here) by {
            }
            assert forall|x: (int, int)| #[trigger] is_land(g, c, x) implies is_land(g2, c, x) by {
            }
            assert forall|x: (int, int)| #[trigger] is_land(g2, c, x) <==> (is_land(g0, c, x) || listed(island@, x)) by {
                if x == here {
                    assert(listed(island@, x));
                }
            }
            if here == p {
                lemma_connected_self(g2, c, p);
            } else {
                let w = choose|w: (int, int)| listed(old_island, w) && #[trigger] adjacent(w, here);
                lemma_connected_shrink(g, g2, c, p, w);
                lemma_connected_step(g2, c, p, w, here);
            }
            assert forall|x: (int, int)| #[trigger] listed(island@, x) implies connected(g2, c, p, x) by {
                if x != here {
                    lemma_connected_shrink(g, g2, c, p, x);
                }
            }
            assert forall|x: (int, int), y: (int, int)|
                #![trigger listed(island@, x), adjacent(x, y)]
                listed(island@, x) && adjacent(x, y) && is_land(g2, c, y) implies listed(island@, y) by {
                if x == here {
                    if y != here {
                        let j = lemma_adjacent_is_grow_step(here, y);
                        assert(is_land(g, c, grow_step(r as int, cc as int, j)));
                        assert(listed(old_island, y));
                    }
                } else if y != here {
                    assert(listed(old_island, x));
                    assert(is_land(g, c, y));
                }
            }
            assert forall|x: (int, int)| #[trigger] listed(island@, x) implies x == p || !is_land(g0, c, x) by {
            }
            assert forall|i: int| 0 <= i < queue@.len() implies frontier_entry(#[trigger] queue@[i], island@, g0, c, rows as int, p) by {
                let e = queue@[i];
                assert(frontier_entry(e, old_island, g0, c, rows as int, p));
                if cell_of(e) != p {
                    let w = choose|w: (int, int)| listed(old_island, w) && #[trigger] adjacent(w, cell_of(e));
                    assert(listed(island@, w));
                }
            }
        }
        let ghost queue_before = queue@;
        let mut j: usize = 0;
        while j < surroundings.len()
            invariant
                j <= surroundings@.len() <= 4,
                here == (r as int, cc as int),
                listed(island@, here),
                c == cols,
                rows == grid@.len(),
                forall|i: int| 0 <= i < surroundings@.len() ==> candidate(#[trigger] surroundings@[i], g, c, rows as int, here),
                forall|x: (int, int)| #[trigger] is_land(g, c, x) <==> (is_land(g0, c, x) || listed(old_island, x)),
                forall|i: int| 0 <= i < queue@.len() ==> frontier_entry(#[trigger] queue@[i], island@, g0, c, rows as int, p),
                queue@.len() == queue_before.len() + j,
            decreases surroundings@.len() - j,
        {
            let ghost qb = queue@;
            queue.push_back(surroundings[j]);
            proof {
                let e = surroundings@[j as int];
                assert(candidate(e, g, c, rows as int, here));
                assert(frontier_entry(e, island@, g0, c, rows as int, p));
                assert forall|i: int| 0 <= i < queue@.len() implies frontier_entry(#[trigger] queue@[i], island@, g0, c, rows as int, p) by {
                    if i < qb.len() {
                        assert(queue@[i] == qb[i]);
                    }
                }
            }
            j = j + 1;
        }
    }
    let ghost placed = island@.map_values(|q: (usize, usize)| cell_of(q));
    let ghost cells = placed.to_set();
    proof {
        assert(no_land_around(g0, c, p) ==> listed(island@, p));
        assert forall|x: (int, int)| #[trigger] cells.contains(x) <==> listed(island@, x) by {
            if listed(island@, x) {
                let i = choose|i: int| 0 <= i < island@.len() && #[trigger] cell_of(island@[i]) == x;
                assert(placed[i] == x);
            }
            if cells.contains(x) {
                let i = choose|i: int| 0 <= i < placed.len() && placed[i] == x;
                assert(cell_of(island@[i]) == x);
            }
        }
        placed.lemma_cardinality_of_set();
        vstd::seq_lib::seq_to_set_is_finite(placed);
    }
    Ghost(cells)
}

} // verus!
