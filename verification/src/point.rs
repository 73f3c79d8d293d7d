use vstd::prelude::*;
use crate::rules::{adjacent, interior};
use core::ops::Range;
use rand::Rng;

verus! {

/// One cell of the grid, identified by its two signed integer coordinates.
/// Equality is structural: two points with the same coordinates are the
/// same cell.
#[derive(PartialEq, Eq, Structural, Hash, Clone, Copy, Default, Debug)]
pub struct Point {
    pub x_position: i32,
    pub y_position: i32,
}

impl Point {
    pub fn new(x_position: i32, y_position: i32) -> (p: Point)
        ensures
            p.x_position == x_position,
            p.y_position == y_position,
    {
        Point { x_position, y_position }
    }

    /// The Moore neighbourhood of this cell: the eight distinct cells at
    /// Chebyshev distance one, the cell itself excluded.
    pub fn neighbours(&self) -> (r: Vec<Point>)
        requires
            interior(*self),
        ensures
            r@.len() == 8,
            r@.no_duplicates(),
            forall|q: Point| r@.contains(q) <==> adjacent(q, *self),
            !r@.contains(*self),
    {
        let x = self.x_position;
        let y = self.y_position;
        let mut r: Vec<Point> = Vec::new();
        r.push(Point::new(x + 1, y));
        r.push(Point::new(x - 1, y));
        r.push(Point::new(x, y + 1));
        r.push(Point::new(x, y - 1));
        r.push(Point::new(x + 1, y + 1));
        r.push(Point::new(x + 1, y - 1));
        r.push(Point::new(x - 1, y + 1));
        r.push(Point::new(x - 1, y - 1));
        proof {
            assert forall|q: Point| adjacent(q, *self) implies r@.contains(q) by {
                let dx: int = q.x_position - self.x_position;
                let dy: int = q.y_position - self.y_position;
                if dx == 1 && dy == 0 {
                    assert(r@[0] == q);
                } else if dx == -1 && dy == 0 {
                    assert(r@[1] == q);
                } else if dx == 0 && dy == 1 {
                    assert(r@[2] == q);
                } else if dx == 0 && dy == -1 {
                    assert(r@[3] == q);
                } else if dx == 1 && dy == 1 {
                    assert(r@[4] == q);
                } else if dx == 1 && dy == -1 {
                    assert(r@[5] == q);
                } else if dx == -1 && dy == 1 {
                    assert(r@[6] == q);
                } else {
                    assert(r@[7] == q);
                }
            }
        }
        r
    }

    /// Draws a cell whose two coordinates are independent uniform samples
    /// from `range`. Nothing is promised beyond membership in the range.
    pub fn generate_random_point(range: Range<i32>) -> (p: Point)
        requires
            range.start < range.end,
        ensures
            range.start <= p.x_position < range.end,
            range.start <= p.y_position < range.end,
    {
        let x_position = random_in_range(range.start, range.end);
        let y_position = random_in_range(range.start, range.end);
        Point::new(x_position, y_position)
    }
}

/// Whether two cells are adjacent, that is, distinct and at Chebyshev
/// distance one from each other.
pub fn is_adjacent(a: Point, b: Point) -> (r: bool)
    ensures
        r == adjacent(a, b),
{
    let dx: i64 = a.x_position as i64 - b.x_position as i64;
    let dy: i64 = a.y_position as i64 - b.y_position as i64;
    -1 <= dx && dx <= 1 && -1 <= dy && dy <= 1 && !(dx == 0 && dy == 0)
}

/// Relies on rand::Rng::gen_range on rand::thread_rng: returns a uniform
/// sample from the half-open range `low..high`, and panics only when that
/// range is empty.
#[verifier::external_body]
fn random_in_range(low: i32, high: i32) -> (r: i32)
    requires
        low < high,
    ensures
        low <= r < high,
{
    rand::thread_rng().gen_range(low..high)
}

} // verus!
