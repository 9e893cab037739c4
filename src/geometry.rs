//! Integer plane geometry: the arena's points, wall triangles, and the two
//! queries the simulation asks of the walls (is a point inside one, does a
//! sight line cross one).
use vstd::prelude::*;

verus! {

/// A point or a displacement of the arena, in thousandths of a distance unit.
#[derive(Clone, Copy, PartialEq, Eq, Structural, Debug)]
pub struct Point {
    pub x: i32,
    pub y: i32,
}

/// A wall triangle.
#[derive(Clone, Copy, PartialEq, Eq, Structural, Debug)]
pub struct Trig {
    pub a: Point,
    pub b: Point,
    pub c: Point,
}

/// The walls of an arena, as a list of triangles.
pub type Walls = Vec<Trig>;

pub open spec fn origin() -> Point {
    Point { x: 0, y: 0 }
}

pub fn zero_point() -> (r: Point)
    ensures
        r == origin(),
{
    Point { x: 0, y: 0 }
}

/// Cross product of the displacements (ux, uy) and (vx, vy).
pub open spec fn cross(ux: int, uy: int, vx: int, vy: int) -> int {
    ux * vy - uy * vx
}

/// Twice the signed area of the triangle (o, a, p): positive when `p` lies to
/// the left of the directed line from `o` to `a`.
pub open spec fn orient(o: Point, a: Point, p: Point) -> int {
    cross(a.x - o.x, a.y - o.y, p.x - o.x, p.y - o.y)
}

/// `p` lies in the closed triangle `t`: on the same side of all three edges.
pub open spec fn in_triangle(t: Trig, p: Point) -> bool {
    let d1 = orient(t.a, t.b, p);
    let d2 = orient(t.b, t.c, p);
    let d3 = orient(t.c, t.a, p);
    (d1 >= 0 && d2 >= 0 && d3 >= 0) || (d1 <= 0 && d2 <= 0 && d3 <= 0)
}

/// The segments p1-p2 and q1-q2 meet: `p1 + s(p2 - p1) == q1 + t(q2 - q1)` for
/// some `s` and `t` in [0, 1]. Parallel segments are taken never to meet.
pub open spec fn segments_meet(p1: Point, p2: Point, q1: Point, q2: Point) -> bool {
    let c = cross(p2.x - p1.x, p2.y - p1.y, q2.x - q1.x, q2.y - q1.y);
    let n1 = cross(q1.x - p1.x, q1.y - p1.y, q2.x - q1.x, q2.y - q1.y);
    let n2 = cross(q1.x - p1.x, q1.y - p1.y, p2.x - p1.x, p2.y - p1.y);
    if c > 0 {
        0 <= n1 <= c && 0 <= n2 <= c
    } else if c < 0 {
        c <= n1 <= 0 && c <= n2 <= 0
    } else {
        false
    }
}

/// The sight line from `p` to `q` crosses an edge of `t`.
pub open spec fn trig_blocks(t: Trig, p: Point, q: Point) -> bool {
    segments_meet(p, q, t.a, t.b) || segments_meet(p, q, t.b, t.c) || segments_meet(p, q, t.c, t.a)
}

pub open spec fn in_walls(walls: Seq<Trig>, p: Point) -> bool {
    exists|i: int| 0 <= i < walls.len() && in_triangle(#[trigger] walls[i], p)
}

pub open spec fn sight_clear(walls: Seq<Trig>, p: Point, q: Point) -> bool {
    forall|i: int| 0 <= i < walls.len() ==> !trig_blocks(#[trigger] walls[i], p, q)
}

proof fn lemma_cross_bounds(ux: int, uy: int, vx: int, vy: int)
    requires
        -0x1_0000_0000 <= ux <= 0x1_0000_0000,
        -0x1_0000_0000 <= uy <= 0x1_0000_0000,
        -0x1_0000_0000 <= vx <= 0x1_0000_0000,
        -0x1_0000_0000 <= vy <= 0x1_0000_0000,
    ensures
        -0x1_0000_0000_0000_0000 <= ux * vy <= 0x1_0000_0000_0000_0000,
        -0x1_0000_0000_0000_0000 <= uy * vx <= 0x1_0000_0000_0000_0000,
{
    assert(-0x1_0000_0000_0000_0000 <= ux * vy <= 0x1_0000_0000_0000_0000) by (nonlinear_arith)
        requires
            -0x1_0000_0000 <= ux <= 0x1_0000_0000,
            -0x1_0000_0000 <= vy <= 0x1_0000_0000,
    ;
    assert(-0x1_0000_0000_0000_0000 <= uy * vx <= 0x1_0000_0000_0000_0000) by (nonlinear_arith)
        requires
            -0x1_0000_0000 <= uy <= 0x1_0000_0000,
            -0x1_0000_0000 <= vx <= 0x1_0000_0000,
    ;
}

/// Cross product of `b - a` and `d - c`.
fn cross_of(a: Point, b: Point, c: Point, d: Point) -> (r: i128)
    ensures
        r == cross(b.x - a.x, b.y - a.y, d.x - c.x, d.y - c.y),
{
    let ux = b.x as i128 - a.x as i128;
    let uy = b.y as i128 - a.y as i128;
    let vx = d.x as i128 - c.x as i128;
    let vy = d.y as i128 - c.y as i128;
    proof {
        lemma_cross_bounds(ux as int, uy as int, vx as int, vy as int);
    }
    ux * vy - uy * vx
}

fn inside_triangle(t: Trig, p: Point) -> (r: bool)
    ensures
        r == in_triangle(t, p),
{
    let d1 = cross_of(t.a, t.b, t.a, p);
    let d2 = cross_of(t.b, t.c, t.b, p);
    let d3 = cross_of(t.c, t.a, t.c, p);
    (d1 >= 0 && d2 >= 0 && d3 >= 0) || (d1 <= 0 && d2 <= 0 && d3 <= 0)
}

fn segments_cross(p1: Point, p2: Point, q1: Point, q2: Point) -> (r: bool)
    ensures
        r == segments_meet(p1, p2, q1, q2),
{
    let c = cross_of(p1, p2, q1, q2);
    let n1 = cross_of(p1, q1, q1, q2);
    let n2 = cross_of(p1, q1, p1, p2);
    if c > 0 {
        0 <= n1 && n1 <= c && 0 <= n2 && n2 <= c
    } else if c < 0 {
        c <= n1 && n1 <= 0 && c <= n2 && n2 <= 0
    } else {
        false
    }
}

/// Whether a unit standing at `unit` is inside some wall.
pub fn unit_is_in_wall(map: &Walls, unit: Point) -> (r: bool)
    ensures
        r == in_walls(map@, unit),
{
    let mut i: usize = 0;
    while i < map.len()
        invariant
            i <= map@.len(),
            forall|j: int| 0 <= j < i ==> !in_triangle(#[trigger] map@[j], unit),
        decreases map@.len() - i,
    {
        if inside_triangle(map[i], unit) {
            return true;
        }
        i = i + 1;
    }
    false
}

/// Whether a unit standing at `unit` can see the point `pos`: no wall edge
/// crosses the line between them.
pub fn unit_can_see_pos(map: &Walls, unit: Point, pos: Point) -> (r: bool)
    ensures
        r == sight_clear(map@, unit, pos),
{
    let mut i: usize = 0;
    while i < map.len()
        invariant
            i <= map@.len(),
            forall|j: int| 0 <= j < i ==> !trig_blocks(#[trigger] map@[j], unit, pos),
        decreases map@.len() - i,
    {
        let t = map[i];
        if segments_cross(unit, pos, t.a, t.b) || segments_cross(unit, pos, t.b, t.c)
            || segments_cross(unit, pos, t.c, t.a) {
            assert(trig_blocks(map@[i as int], unit, pos));
            return false;
        }
        i = i + 1;
    }
    true
}

} // verus!
