use vstd::prelude::*;
use crate::point::Point;

verus! {

/// Two cells are adjacent when they are distinct and each coordinate differs
/// by at most one: the Moore neighbourhood, i.e. Chebyshev distance exactly 1.
pub open spec fn adjacent(a: Point, b: Point) -> bool {
    let dx: int = a.x_position - b.x_position;
    let dy: int = a.y_position - b.y_position;
    -1 <= dx <= 1 && -1 <= dy <= 1 && !(dx == 0 && dy == 0)
}

/// A cell lies strictly inside the representable coordinate plane, so all
/// eight of its neighbours are representable as well.
pub open spec fn interior(p: Point) -> bool {
    i32::MIN < p.x_position < i32::MAX && i32::MIN < p.y_position < i32::MAX
}

/// A cell lies inside the rectangular extent `[0, width) x [0, height)`.
pub open spec fn in_range(p: Point, height: u32, width: u32) -> bool {
    0 <= p.x_position && (p.x_position as int) < (width as int) && 0 <= p.y_position
        && (p.y_position as int) < (height as int)
}

/// The currently alive cells among the eight neighbours of `p`.
pub open spec fn live_neighbours(alive: Set<Point>, p: Point) -> Set<Point> {
    alive.filter(|q: Point| adjacent(q, p))
}

/// How many of the eight neighbours of `p` are currently alive.
pub open spec fn live_neighbour_count(alive: Set<Point>, p: Point) -> nat {
    live_neighbours(alive, p).len()
}

/// A currently alive cell survives into the next generation exactly when
/// it has two or three alive neighbours.
pub open spec fn survives(alive: Set<Point>, p: Point) -> bool {
    alive.contains(p) && (live_neighbour_count(alive, p) == 2 || live_neighbour_count(alive, p)
        == 3)
}

/// A currently dead cell resurrects in the next generation exactly when it
/// has three alive neighbours.
pub open spec fn resurrects(alive: Set<Point>, p: Point) -> bool {
    !alive.contains(p) && live_neighbour_count(alive, p) == 3
}

/// The standard Conway transition: a cell is alive in the next generation
/// exactly when it survives or resurrects, both judged against the frozen
/// snapshot `alive` of the current generation.
pub open spec fn next_alive(alive: Set<Point>, p: Point) -> bool {
    survives(alive, p) || resurrects(alive, p)
}

/// A cell is never its own neighbour.
pub proof fn lemma_not_own_neighbour(p: Point)
    ensures
        !adjacent(p, p),
{
}

/// Underpopulation: an alive cell with no alive neighbours is dead in the
/// next generation.
pub proof fn lemma_underpopulation(alive: Set<Point>, p: Point)
    requires
        alive.contains(p),
        live_neighbour_count(alive, p) == 0,
    ensures
        !next_alive(alive, p),
{
}

/// Survival: a currently alive cell is alive in the next generation exactly
/// when it has two or three alive neighbours; with any other count it dies.
pub proof fn lemma_survival(alive: Set<Point>, p: Point)
    requires
        alive.contains(p),
    ensures
        next_alive(alive, p) <==> (live_neighbour_count(alive, p) == 2 || live_neighbour_count(
            alive,
            p,
        ) == 3),
{
}

/// Resurrection: a currently dead cell is alive in the next generation
/// exactly when it has three alive neighbours; with any other count it
/// stays dead.
pub proof fn lemma_resurrection(alive: Set<Point>, p: Point)
    requires
        !alive.contains(p),
    ensures
        next_alive(alive, p) <==> live_neighbour_count(alive, p) == 3,
{
}

} // verus!
