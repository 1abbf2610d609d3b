use vstd::prelude::*;

verus! {

/// A position on the ground plane, in integer world units.
#[derive(Clone, Copy, Debug, PartialEq, Eq, Structural)]
pub struct Pos {
    pub x: i32,
    pub y: i32,
}

/// Squared Euclidean distance between two positions.
pub open spec fn dist2(a: Pos, b: Pos) -> int {
    (a.x - b.x) * (a.x - b.x) + (a.y - b.y) * (a.y - b.y)
}

/// Whether `p` lies within Euclidean distance `r` of `c`, boundary included.
pub open spec fn within(c: Pos, p: Pos, r: int) -> bool {
    dist2(c, p) <= r * r
}

/// Whether `p` lies in the closed axis-aligned box `[lo, hi]`.
pub open spec fn in_box(lo: Pos, hi: Pos, p: Pos) -> bool {
    lo.x <= p.x <= hi.x && lo.y <= p.y <= hi.y
}

impl Pos {
    pub fn new(x: i32, y: i32) -> (r: Pos)
        ensures
            r.x == x,
            r.y == y,
    {
        Pos { x, y }
    }
}

/// Squared Euclidean distance between two positions, exactly.
pub fn squared_distance(a: Pos, b: Pos) -> (r: u128)
    ensures
        r == dist2(a, b),
{
    let dx: i64 = a.x as i64 - b.x as i64;
    let dy: i64 = a.y as i64 - b.y as i64;
    let ax: u128 = if dx < 0 { (-dx) as u128 } else { dx as u128 };
    let ay: u128 = if dy < 0 { (-dy) as u128 } else { dy as u128 };
    assert(ax * ax <= 0x1_0000_0000 * 0x1_0000_0000) by (nonlinear_arith)
        requires ax <= 0x1_0000_0000;
    assert(ay * ay <= 0x1_0000_0000 * 0x1_0000_0000) by (nonlinear_arith)
        requires ay <= 0x1_0000_0000;
    assert(ax * ax == dx * dx) by (nonlinear_arith)
        requires ax == dx || ax == -dx;
    assert(ay * ay == dy * dy) by (nonlinear_arith)
        requires ay == dy || ay == -dy;
    ax * ax + ay * ay
}

/// The square of a radius, as compared against `squared_distance`.
pub fn squared_radius(r: u32) -> (s: u128)
    ensures
        s == r * r,
{
    assert(r * r <= 0xffff_ffff * 0xffff_ffff) by (nonlinear_arith)
        requires r <= 0xffff_ffff;
    (r as u128) * (r as u128)
}

} // verus!
