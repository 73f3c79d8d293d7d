use vstd::prelude::*;
use crate::point::{is_adjacent, Point};
use crate::rules::{adjacent, in_range, interior, live_neighbour_count, live_neighbours, next_alive};
use vstd::arithmetic::div_mod::{
    lemma_div_pos_is_pos, lemma_fundamental_div_mod, lemma_fundamental_div_mod_converse,
    lemma_mod_pos_bound, lemma_multiply_divide_lt,
};

verus! {

/// Whether a cell is legal under the optional extent `(height, width)`:
/// every cell when there is none, the cells of the extent when there is one.
pub open spec fn grid_allows(grid: Option<(u32, u32)>, p: Point) -> bool {
    match grid {
        Option::None => true,
        Option::Some((height, width)) => in_range(p, height, width),
    }
}

/// The set of all cells that are legal under the optional extent.
spec fn allowed_region(grid: Option<(u32, u32)>) -> Set<Point> {
    Set::new(|p: Point| grid_allows(grid, p))
}

/// The full raster scan of the extent `[0, width) x [0, height)`: every
/// cell of the extent exactly once, column by column, each column in
/// increasing row order.
pub open spec fn raster(height: u32, width: u32) -> Seq<Point> {
    Seq::new(
        (width as nat) * (height as nat),
        |k: int|
            Point {
                x_position: (k / (height as int)) as i32,
                y_position: (k % (height as int)) as i32,
            },
    )
}

/// The error raised when a bounded game is constructed from a seed cell
/// lying outside the configured extent. It carries the offending cell and
/// the configured dimensions for diagnostic reporting.
#[derive(PartialEq, Eq, Structural, Clone, Copy, Debug)]
pub struct RangeError {
    pub cell: Point,
    pub height: u32,
    pub width: u32,
}

/// One generation of Conway's Game of Life: the set of alive cells,
/// together with an optional bounded extent. With an extent of
/// `(height, width)` the game is bounded: only cells of
/// `[0, width) x [0, height)` can ever be alive. Without one the game is
/// unbounded and any cell is legal.
///
/// Bounded edges are absorbing, not toroidal: a neighbour outside the
/// extent is simply absent from every count, as if permanently dead.
/// Wrap-around would be a separate configuration, deliberately not
/// guessed at here.
#[derive(Debug)]
pub struct ConwaysGame {
    cells: Vec<Point>,
    grid: Option<(u32, u32)>,
}

impl ConwaysGame {
    /// The set of currently alive cells: the engine's whole state.
    pub closed spec fn alive(self) -> Set<Point> {
        self.cells@.to_set()
    }

    /// The bounded extent as `(height, width)`, or `None` in unbounded mode.
    pub closed spec fn grid_bounds(self) -> Option<(u32, u32)> {
        self.grid
    }

    /// Whether a cell may ever be alive in this game: any cell in unbounded
    /// mode, only the cells of the extent in bounded mode.
    pub open spec fn allowed(self, p: Point) -> bool {
        grid_allows(self.grid_bounds(), p)
    }

    /// The internal invariant: the alive list holds no duplicate cell, and
    /// in bounded mode the extent fits the coordinate type and every alive
    /// cell lies inside it.
    pub closed spec fn wf(self) -> bool {
        &&& self.cells@.no_duplicates()
        &&& match self.grid {
            Option::None => true,
            Option::Some((height, width)) => {
                &&& height <= 0x7fff_ffff
                &&& width <= 0x7fff_ffff
                &&& forall|i: int|
                    0 <= i < self.cells@.len() ==> in_range(
                        #[trigger] self.cells@[i],
                        height,
                        width,
                    )
            },
        }
    }

    /// The next generation is representable. In bounded mode the
    /// well-formed extent already keeps every cell, and so every candidate,
    /// strictly inside the coordinate plane; in unbounded mode every alive
    /// cell must lie strictly inside it, so that all its neighbours exist.
    pub open spec fn advance_ready(self) -> bool {
        match self.grid_bounds() {
            Option::Some(_) => true,
            Option::None => forall|p: Point| self.alive().contains(p) ==> interior(p),
        }
    }

    /// Creates an unbounded game whose alive cells are exactly the given
    /// ones, duplicates merged away.
    pub fn new(cells: Vec<Point>) -> (game: ConwaysGame)
        ensures
            game.wf(),
            game.grid_bounds() is None,
            game.alive() == cells@.to_set(),
    {
        ConwaysGame { cells: dedup_points(cells), grid: Option::None }
    }

    /// Creates a bounded game over the extent `[0, width) x [0, height)`.
    /// Construction succeeds, with exactly the given cells alive, when every
    /// seed cell lies inside the extent; otherwise it fails with a
    /// `RangeError` naming the first offending cell and the extent.
    pub fn new_bounded(cells: Vec<Point>, height: u32, width: u32) -> (r: Result<
        ConwaysGame,
        RangeError,
    >)
        requires
            height <= 0x7fff_ffff,
            width <= 0x7fff_ffff,
        ensures
            match r {
                Result::Ok(game) => {
                    &&& forall|i: int|
                        0 <= i < cells@.len() ==> in_range(#[trigger] cells@[i], height, width)
                    &&& game.wf()
                    &&& game.grid_bounds() == Option::Some((height, width))
                    &&& game.alive() == cells@.to_set()
                },
                Result::Err(e) => {
                    &&& e.height == height
                    &&& e.width == width
                    &&& !in_range(e.cell, height, width)
                    &&& exists|i: int|
                        0 <= i < cells@.len() && cells@[i] == e.cell && (forall|j: int|
                            0 <= j < i ==> in_range(#[trigger] cells@[j], height, width))
                },
            },
    {
        let n = cells.len();
        let mut idx: usize = 0;
        while idx < n
            invariant
                n == cells@.len(),
                0 <= idx <= n,
                forall|j: int| 0 <= j < idx ==> in_range(#[trigger] cells@[j], height, width),
            decreases n - idx,
        {
            if !Self::cell_is_in_range(&cells[idx], height, width) {
                return Result::Err(RangeError { cell: cells[idx], height, width });
            }
            idx += 1;
        }
        let deduped = dedup_points(cells);
        proof {
            assert forall|i: int| 0 <= i < deduped@.len() implies in_range(
                #[trigger] deduped@[i],
                height,
                width,
            ) by {
                assert(deduped@.to_set().contains(deduped@[i]));
                assert(cells@.to_set().contains(deduped@[i]));
            }
        }
        Result::Ok(ConwaysGame { cells: deduped, grid: Option::Some((height, width)) })
    }

    /// Whether `cell` is alive in the current generation. No side effects.
    pub fn is_alive(&self, cell: Point) -> (r: bool)
        ensures
            r == self.alive().contains(cell),
    {
        contains_point(&self.cells, cell)
    }

    /// Adds the given cells to the current generation. In bounded mode any
    /// cell outside the extent is silently dropped; in unbounded mode every
    /// cell is accepted.
    #[verifier::loop_isolation(false)]
    pub fn add_cells(&mut self, cells_to_add: Vec<Point>)
        requires
            old(self).wf(),
        ensures
            final(self).wf(),
            final(self).grid_bounds() == old(self).grid_bounds(),
            forall|p: Point|
                final(self).alive().contains(p) <==> (old(self).alive().contains(p) || (
                cells_to_add@.contains(p) && old(self).allowed(p))),
    {
        let n = cells_to_add.len();
        let mut idx: usize = 0;
        let ghost region = allowed_region(old(self).grid_bounds());
        while idx < n
            invariant
                n == cells_to_add@.len(),
                0 <= idx <= n,
                self.grid == old(self).grid,
                self.wf(),
                self.cells@.to_set() == old(self).alive().union(
                    cells_to_add@.take(idx as int).to_set().intersect(region),
                ),
            decreases n - idx,
        {
            let cell = cells_to_add[idx];
            let ghost prev = self.cells@;
            let permitted = match self.grid {
                Option::None => true,
                Option::Some((height, width)) => Self::cell_is_in_range(&cell, height, width),
            };
            let already = contains_point(&self.cells, cell);
            if permitted && !already {
                self.cells.push(cell);
            }
            proof {
                let s0 = cells_to_add@.take(idx as int);
                let s1 = cells_to_add@.take(idx + 1);
                assert(s1 =~= s0.push(cell));
                assert(s1.to_set() == s0.to_set().insert(cell)) by {
                    broadcast use vstd::prelude::Seq::lemma_push_to_set_commute;

                }
                assert(permitted == grid_allows(old(self).grid_bounds(), cell));
                assert(region.contains(cell) == permitted);
                if permitted && !already {
                    assert(self.cells@ == prev.push(cell));
                    assert(self.cells@.to_set() == prev.to_set().insert(cell)) by {
                        broadcast use vstd::prelude::Seq::lemma_push_to_set_commute;

                    }
                    assert forall|j: int| 0 <= j < prev.len() implies prev[j] != cell by {
                        assert(prev.contains(prev[j]));
                    }
                }
                assert(self.cells@.to_set() =~= old(self).alive().union(
                    s1.to_set().intersect(region),
                ));
            }
            idx += 1;
        }
        proof {
            assert(cells_to_add@.take(n as int) =~= cells_to_add@);
            assert forall|p: Point|
                self.alive().contains(p) <==> (old(self).alive().contains(p) || (
                cells_to_add@.contains(p) && old(self).allowed(p))) by {
                assert(self.cells@.to_set() == old(self).alive().union(
                    cells_to_add@.to_set().intersect(region),
                ));
                assert(cells_to_add@.to_set().contains(p) == cells_to_add@.contains(p));
                assert(region.contains(p) == old(self).allowed(p));
            }
        }
    }

    /// Whether `cell`, taken as currently alive, has the right number of
    /// alive neighbours to survive: exactly two or three.
    fn can_survive(&self, cell: &Point) -> (r: bool)
        requires
            self.wf(),
        ensures
            r == (live_neighbour_count(self.alive(), *cell) == 2 || live_neighbour_count(
                self.alive(),
                *cell,
            ) == 3),
    {
        let count = count_live_neighbours(&self.cells, *cell);
        count == 2 || count == 3
    }

    /// Whether `cell`, taken as currently dead, has the right number of
    /// alive neighbours to resurrect: exactly three.
    fn can_resurrect(&self, cell: &Point) -> (r: bool)
        requires
            self.wf(),
        ensures
            r == (live_neighbour_count(self.alive(), *cell) == 3),
    {
        let count = count_live_neighbours(&self.cells, *cell);
        count == 3
    }

    /// Computes the next generation from the current one and installs it,
    /// replacing the alive set wholesale. Every cell is judged against the
    /// frozen snapshot of the current generation: alive cells survive with
    /// two or three alive neighbours, dead cells resurrect with exactly
    /// three, and in bounded mode only cells inside the extent are produced.
    #[verifier::loop_isolation(false)]
    pub fn next_generation(&mut self)
        requires
            old(self).wf(),
            old(self).advance_ready(),
        ensures
            final(self).wf(),
            final(self).grid_bounds() == old(self).grid_bounds(),
            forall|p: Point|
                final(self).alive().contains(p) <==> (next_alive(old(self).alive(), p) && old(
                    self,
                ).allowed(p)),
    {
        let ghost orig = self.cells@;
        let ghost a = old(self).alive();
        let ghost grid = old(self).grid_bounds();
        proof {
            assert(a == orig.to_set());
        }
        let mut cands: Vec<Point> = Vec::new();
        let num = self.cells.len();
        let mut i: usize = 0;
        while i < num
            invariant
                0 <= i <= num,
                cands@.no_duplicates(),
                forall|q: Point| #[trigger] cands@.to_set().contains(q) ==> grid_allows(grid, q),
                forall|k: int| 0 <= k < i ==> cands@.to_set().contains(#[trigger] orig[k]),
                forall|k: int, q: Point|
                    0 <= k < i && #[trigger] adjacent(q, orig[k]) && grid_allows(grid, q)
                        ==> cands@.to_set().contains(q),
            decreases num - i,
        {
            let cell = self.cells[i];
            proof {
                assert(orig.contains(orig[i as int]));
                assert(interior(cell) && grid_allows(grid, cell)) by {
                    match grid {
                        Option::None => {
                            assert(old(self).alive().contains(orig[i as int]));
                        },
                        Option::Some((height, width)) => {
                            assert(in_range(orig[i as int], height, width));
                        },
                    }
                }
            }
            push_if_new(&mut cands, cell);
            let nbrs = cell.neighbours();
            let mut m: usize = 0;
            while m < nbrs.len()
                invariant
                    0 <= m <= nbrs@.len(),
                    cands@.no_duplicates(),
                    forall|q: Point| #[trigger] cands@.to_set().contains(q) ==> grid_allows(
                        grid,
                        q,
                    ),
                    forall|k: int| 0 <= k < i ==> cands@.to_set().contains(#[trigger] orig[k]),
                    cands@.to_set().contains(cell),
                    forall|k: int, q: Point|
                        0 <= k < i && #[trigger] adjacent(q, orig[k]) && grid_allows(grid, q)
                            ==> cands@.to_set().contains(q),
                    forall|mm: int|
                        0 <= mm < m && grid_allows(grid, #[trigger] nbrs@[mm])
                            ==> cands@.to_set().contains(nbrs@[mm]),
                decreases nbrs@.len() - m,
            {
                let q = nbrs[m];
                let permitted = match self.grid {
                    Option::None => true,
                    Option::Some((height, width)) => Self::cell_is_in_range(&q, height, width),
                };
                proof {
                    assert(permitted == grid_allows(grid, q));
                }
                if permitted {
                    push_if_new(&mut cands, q);
                }
                m += 1;
            }
            proof {
                assert forall|q: Point| adjacent(q, cell) && grid_allows(grid, q) implies cands@
                    .to_set().contains(q) by {
                    assert(nbrs@.contains(q));
                    let mm = choose|mm: int| 0 <= mm < nbrs@.len() && nbrs@[mm] == q;
                    assert(grid_allows(grid, nbrs@[mm]));
                    assert(cands@.to_set().contains(nbrs@[mm]));
                }
                assert forall|k: int, q: Point|
                    0 <= k < i + 1 && #[trigger] adjacent(q, orig[k]) && grid_allows(grid, q)
                        implies cands@.to_set().contains(q) by {
                    if k == i {
                        assert(adjacent(q, cell));
                    }
                }
            }
            i += 1;
        }
        let mut next: Vec<Point> = Vec::new();
        let cn = cands.len();
        let mut t: usize = 0;
        while t < cn
            invariant
                0 <= t <= cn,
                next@.no_duplicates(),
                next@.to_set() == cands@.take(t as int).to_set().filter(
                    |p: Point| next_alive(a, p),
                ),
            decreases cn - t,
        {
            let c = cands[t];
            let alive_now = contains_point(&self.cells, c);
            let keep = if alive_now {
                self.can_survive(&c)
            } else {
                self.can_resurrect(&c)
            };
            proof {
                assert(keep == next_alive(a, c));
            }
            let ghost prev_next = next@;
            if keep {
                proof {
                    assert(!prev_next.to_set().contains(c)) by {
                        if cands@.take(t as int).to_set().contains(c) {
                            let j = choose|j: int|
                                0 <= j < cands@.take(t as int).len() && cands@.take(t as int)[j]
                                    == c;
                            assert(cands@[j] == cands@[t as int]);
                        }
                    }
                }
                next.push(c);
                proof {
                    broadcast use vstd::prelude::Seq::lemma_push_to_set_commute;

                    assert(next@ == prev_next.push(c));
                    assert forall|j: int| 0 <= j < prev_next.len() implies prev_next[j] != c by {
                        assert(prev_next.contains(prev_next[j]));
                    }
                }
            }
            proof {
                broadcast use vstd::prelude::Seq::lemma_push_to_set_commute;

                let s0 = cands@.take(t as int);
                let s1 = cands@.take(t + 1);
                assert(s1 =~= s0.push(c));
                assert(s1.to_set() == s0.to_set().insert(c));
                assert(next@.to_set() =~= s1.to_set().filter(|p: Point| next_alive(a, p)));
            }
            t += 1;
        }
        self.cells = next;
        proof {
            assert(cands@.take(cn as int) =~= cands@);
            assert(self.cells@.to_set() =~= cands@.to_set().filter(|p: Point| next_alive(a, p)));
            assert forall|p: Point|
                self.alive().contains(p) <==> (next_alive(a, p) && grid_allows(grid, p)) by {
                if next_alive(a, p) && grid_allows(grid, p) {
                    if a.contains(p) {
                        let k = choose|k: int| 0 <= k < orig.len() && orig[k] == p;
                        assert(cands@.to_set().contains(orig[k]));
                    } else {
                        assert(live_neighbour_count(a, p) == 3);
                        let lnb = live_neighbours(a, p);
                        if exists|q: Point| lnb.contains(q) {
                            let q = choose|q: Point| lnb.contains(q);
                            assert(a.contains(q) && adjacent(q, p));
                            let k = choose|k: int| 0 <= k < orig.len() && orig[k] == q;
                            assert(adjacent(p, orig[k]));
                            assert(cands@.to_set().contains(p));
                        } else {
                            assert(lnb =~= Set::<Point>::empty());
                            assert(false);
                        }
                    }
                }
            }
            assert forall|k: int|
                0 <= k < self.cells@.len() implies grid_allows(grid, #[trigger] self.cells@[k]) by {
                assert(self.cells@.contains(self.cells@[k]));
                assert(self.cells@.to_set().contains(self.cells@[k]));
                assert(cands@.to_set().contains(self.cells@[k]));
            }
        }
    }

    /// The cells that one enumeration pass visits, in order: the alive
    /// cells in unbounded mode, the full raster scan of the extent in
    /// bounded mode. A deterministic function of the current state.
    pub closed spec fn enumeration(self) -> Seq<Point> {
        match self.grid {
            Option::None => self.cells@,
            Option::Some((height, width)) => raster(height, width),
        }
    }

    /// The cells to visit for rendering, each exactly once, in a
    /// deterministic order: in unbounded mode exactly the alive cells, in
    /// bounded mode every cell of the extent regardless of liveness.
    #[verifier::loop_isolation(false)]
    pub fn all_cells_do(&self) -> (r: Vec<Point>)
        requires
            self.wf(),
        ensures
            r@ == self.enumeration(),
            r@.no_duplicates(),
            match self.grid_bounds() {
                Option::None => forall|p: Point|
                    r@.contains(p) <==> self.alive().contains(p),
                Option::Some((height, width)) => forall|p: Point|
                    r@.contains(p) <==> in_range(p, height, width),
            },
    {
        match self.grid {
            Option::None => {
                let len = self.cells.len();
                let mut r: Vec<Point> = Vec::new();
                let mut idx: usize = 0;
                while idx < len
                    invariant
                        0 <= idx <= len,
                        r@ == self.cells@.take(idx as int),
                    decreases len - idx,
                {
                    r.push(self.cells[idx]);
                    proof {
                        assert(self.cells@.take(idx + 1) =~= self.cells@.take(idx as int).push(
                            self.cells@[idx as int],
                        ));
                    }
                    idx += 1;
                }
                proof {
                    assert(self.cells@.take(len as int) =~= self.cells@);
                }
                r
            },
            Option::Some((height, width)) => {
                let r = raster_cells(height, width);
                proof {
                    lemma_raster_members(height, width);
                }
                r
            },
        }
    }

    /// Whether a cell lies inside the extent `[0, width) x [0, height)`.
    fn cell_is_in_range(cell: &Point, height: u32, width: u32) -> (r: bool)
        ensures
            r == in_range(*cell, height, width),
    {
        (0 <= cell.x_position && (cell.x_position as i64) < (width as i64)) && (0
            <= cell.y_position && (cell.y_position as i64) < (height as i64))
    }
}

/// Enumeration is stable: two passes over one unchanged game visit the
/// very same cells, in the same order.
pub proof fn lemma_enumeration_stable(g: ConwaysGame, r1: Seq<Point>, r2: Seq<Point>)
    requires
        r1 == g.enumeration(),
        r2 == g.enumeration(),
    ensures
        r1 == r2,
        r1.to_set() == r2.to_set(),
{
}

/// Builds the full raster scan of the extent: every cell of
/// `[0, width) x [0, height)` exactly once, column by column.
#[verifier::loop_isolation(false)]
fn raster_cells(height: u32, width: u32) -> (r: Vec<Point>)
    requires
        height <= 0x7fff_ffff,
        width <= 0x7fff_ffff,
    ensures
        r@ == raster(height, width),
{
    let ghost h = height as int;
    let mut r: Vec<Point> = Vec::new();
    let mut x: u32 = 0;
    while x < width
        invariant
            0 <= x <= width,
            r@.len() == x * h,
            forall|k: int|
                0 <= k < r@.len() ==> #[trigger] r@[k] == (Point {
                    x_position: (k / h) as i32,
                    y_position: (k % h) as i32,
                }),
        decreases width - x,
    {
        let mut y: u32 = 0;
        while y < height
            invariant
                0 <= y <= height,
                r@.len() == x * h + y,
                forall|k: int|
                    0 <= k < r@.len() ==> #[trigger] r@[k] == (Point {
                        x_position: (k / h) as i32,
                        y_position: (k % h) as i32,
                    }),
            decreases height - y,
        {
            let ghost kk = r@.len() as int;
            r.push(Point::new(x as i32, y as i32));
            proof {
                lemma_fundamental_div_mod_converse(kk, h, x as int, y as int);
            }
            y += 1;
        }
        proof {
            assert((x + 1) * h == x * h + h) by (nonlinear_arith);
        }
        x += 1;
    }
    proof {
        assert(r@.len() == (width as nat) * (height as nat));
        assert(r@ =~= raster(height, width));
    }
    r
}

/// The raster scan of an extent that fits the coordinate type visits
/// exactly the cells of the extent, each exactly once.
proof fn lemma_raster_members(height: u32, width: u32)
    requires
        height <= 0x7fff_ffff,
        width <= 0x7fff_ffff,
    ensures
        raster(height, width).no_duplicates(),
        forall|p: Point| #[trigger] raster(height, width).contains(p) <==> in_range(
            p,
            height,
            width,
        ),
{
    let s = raster(height, width);
    let h = height as int;
    let w = width as int;
    assert forall|k: int| 0 <= k < s.len() implies 0 <= k / h < w && 0 <= k % h < h && s[k]
        == (Point { x_position: (k / h) as i32, y_position: (k % h) as i32 }) by {
        assert(h > 0 && w > 0) by (nonlinear_arith)
            requires
                0 <= k < w * h,
                w >= 0,
                h >= 0,
        ;
        lemma_div_pos_is_pos(k, h);
        lemma_mod_pos_bound(k, h);
        assert(k < h * w) by (nonlinear_arith)
            requires
                k < w * h,
        ;
        lemma_multiply_divide_lt(k, h, w);
    }
    assert forall|p: Point| s.contains(p) implies in_range(p, height, width) by {
        let k = choose|k: int| 0 <= k < s.len() && s[k] == p;
    }
    assert forall|p: Point| in_range(p, height, width) implies s.contains(p) by {
        let k = (p.x_position as int) * h + (p.y_position as int);
        assert(0 <= k && k < w * h) by (nonlinear_arith)
            requires
                0 <= (p.x_position as int) < w,
                0 <= (p.y_position as int) < h,
                k == (p.x_position as int) * h + (p.y_position as int),
        ;
        lemma_fundamental_div_mod_converse(k, h, p.x_position as int, p.y_position as int);
        assert(s[k] == p);
        assert(s.contains(p));
    }
    assert forall|k1: int, k2: int|
        0 <= k1 < s.len() && 0 <= k2 < s.len() && k1 != k2 implies s[k1] != s[k2] by {
        if s[k1] == s[k2] {
            assert(k1 / h == k2 / h && k1 % h == k2 % h);
            lemma_fundamental_div_mod(k1, h);
            lemma_fundamental_div_mod(k2, h);
        }
    }
    assert(s.no_duplicates());
}

/// Filtering a duplicate-free list and filtering the set of its elements
/// leave the same number of elements.
proof fn lemma_filter_count(s: Seq<Point>, pred: spec_fn(Point) -> bool)
    requires
        s.no_duplicates(),
    ensures
        s.to_set().filter(pred).finite(),
        s.filter(pred).len() == s.to_set().filter(pred).len(),
    decreases s.len(),
{
    broadcast use vstd::prelude::Seq::lemma_push_to_set_commute;
    broadcast use vstd::prelude::Seq::lemma_filter_push;

    s.to_set().lemma_len_filter(pred);
    if s.len() == 0 {
        assert(s.to_set() =~= Set::<Point>::empty());
        assert(s.to_set().filter(pred) =~= Set::<Point>::empty());
        assert(s.filter(pred).len() == 0);
    } else {
        let t = s.drop_last();
        let x = s.last();
        assert(s =~= t.push(x));
        assert(t.no_duplicates());
        lemma_filter_count(t, pred);
        assert(!t.contains(x)) by {
            if t.contains(x) {
                let i = choose|i: int| 0 <= i < t.len() && t[i] == x;
                assert(s[i] == x);
                assert(s[s.len() - 1] == x);
            }
        }
        assert(s.to_set() == t.to_set().insert(x));
        assert(t.push(x).filter(pred) == if pred(x) {
            t.filter(pred).push(x)
        } else {
            t.filter(pred)
        });
        if pred(x) {
            assert(s.to_set().filter(pred) =~= t.to_set().filter(pred).insert(x));
            assert(!t.to_set().filter(pred).contains(x));
        } else {
            assert(s.to_set().filter(pred) =~= t.to_set().filter(pred));
        }
    }
}

/// Counts the alive neighbours of `p`: the cells of the duplicate-free list
/// `cells` that are adjacent to `p`.
#[verifier::loop_isolation(false)]
fn count_live_neighbours(cells: &Vec<Point>, p: Point) -> (n: usize)
    requires
        cells@.no_duplicates(),
    ensures
        n == live_neighbour_count(cells@.to_set(), p),
{
    let ghost pred = |q: Point| adjacent(q, p);
    let len = cells.len();
    let mut n: usize = 0;
    let mut idx: usize = 0;
    while idx < len
        invariant
            0 <= idx <= len,
            n <= idx,
            n == cells@.take(idx as int).filter(pred).len(),
        decreases len - idx,
    {
        proof {
            broadcast use vstd::prelude::Seq::lemma_filter_push;

            let s0 = cells@.take(idx as int);
            assert(cells@.take(idx + 1) =~= s0.push(cells@[idx as int]));
            assert(s0.push(cells@[idx as int]).filter(pred) == if pred(cells@[idx as int]) {
                s0.filter(pred).push(cells@[idx as int])
            } else {
                s0.filter(pred)
            });
        }
        if is_adjacent(cells[idx], p) {
            n += 1;
        }
        idx += 1;
    }
    proof {
        assert(cells@.take(len as int) =~= cells@);
        lemma_filter_count(cells@, pred);
        assert(live_neighbours(cells@.to_set(), p) =~= cells@.to_set().filter(pred));
    }
    n
}

/// Appends the cell to the list unless it is already there; the list stays
/// duplicate-free and its set of elements gains exactly the cell.
fn push_if_new(cands: &mut Vec<Point>, cell: Point)
    requires
        old(cands)@.no_duplicates(),
    ensures
        final(cands)@.no_duplicates(),
        final(cands)@.to_set() == old(cands)@.to_set().insert(cell),
{
    let ghost prev = cands@;
    if !contains_point(cands, cell) {
        cands.push(cell);
        proof {
            broadcast use vstd::prelude::Seq::lemma_push_to_set_commute;

            assert(cands@ == prev.push(cell));
            assert forall|j: int| 0 <= j < prev.len() implies prev[j] != cell by {
                assert(prev.contains(prev[j]));
            }
        }
    } else {
        proof {
            assert(prev.to_set().insert(cell) =~= prev.to_set());
        }
    }
}

/// Whether the list contains the given cell.
fn contains_point(cells: &Vec<Point>, p: Point) -> (r: bool)
    ensures
        r == cells@.to_set().contains(p),
{
    let n = cells.len();
    let mut idx: usize = 0;
    while idx < n
        invariant
            n == cells@.len(),
            0 <= idx <= n,
            forall|j: int| 0 <= j < idx ==> cells@[j] != p,
        decreases n - idx,
    {
        if cells[idx] == p {
            return true;
        }
        idx += 1;
    }
    false
}

/// Copies the list with duplicate cells merged away; the set of cells is
/// unchanged.
fn dedup_points(cells: Vec<Point>) -> (r: Vec<Point>)
    ensures
        r@.no_duplicates(),
        r@.to_set() == cells@.to_set(),
{
    let n = cells.len();
    let mut r: Vec<Point> = Vec::new();
    let mut idx: usize = 0;
    while idx < n
        invariant
            n == cells@.len(),
            0 <= idx <= n,
            r@.no_duplicates(),
            r@.to_set() == cells@.take(idx as int).to_set(),
        decreases n - idx,
    {
        let cell = cells[idx];
        if !contains_point(&r, cell) {
            r.push(cell);
        }
        proof {
            broadcast use vstd::prelude::Seq::lemma_push_to_set_commute;

            assert(cells@.take(idx + 1) =~= cells@.take(idx as int).push(cells@[idx as int]));
            assert(r@.to_set() =~= cells@.take(idx + 1).to_set());
        }
        idx += 1;
    }
    proof {
        assert(cells@.take(n as int) =~= cells@);
    }
    r
}

} // verus!
