//! Commands and what entering or leaving one does to a unit.
use vstd::prelude::*;
use crate::geometry::{Point, origin, zero_point};
use crate::model::{Action, UnitState, NULL_ID, advanced, pos_at};
use crate::table::EID;

verus! {

/// Distance covered in one tick at the top speed of one distance unit per
/// time unit.
pub const SPEED_PER_TICK: u64 = 100;

/// How long a shot takes, in ticks.
pub const SHOOT_TICKS: u64 = 50;

#[derive(Clone, Copy, PartialEq, Eq, Structural, Debug)]
pub enum Command {
    /// Walk straight to a point.
    Nav(Point),
    /// Stand still for a number of ticks.
    Wait(u64),
    /// Shoot at a unit.
    Shoot(EID),
}

/// Squared distance from `a` to `b`.
pub open spec fn dist_sq(a: Point, b: Point) -> int {
    (b.x - a.x) * (b.x - a.x) + (b.y - a.y) * (b.y - a.y)
}

/// `n` ticks at top speed cover a squared distance `d2`.
pub open spec fn covers(d2: int, n: int) -> bool {
    (SPEED_PER_TICK * n) * (SPEED_PER_TICK * n) >= d2
}

/// `n` is the walking time from `a` to `b`: the distance divided by the top
/// speed, rounded up to whole ticks, and at least one tick.
pub open spec fn is_walk_ticks(a: Point, b: Point, n: int) -> bool {
    &&& n >= 1
    &&& covers(dist_sq(a, b), n)
    &&& (n == 1 || !covers(dist_sq(a, b), n - 1))
}

pub open spec fn walk_ticks(a: Point, b: Point) -> u64 {
    choose|n: u64| is_walk_ticks(a, b, n as int)
}

proof fn lemma_covers_monotone(d2: int, n: int, m: int)
    requires
        0 <= n <= m,
        covers(d2, n),
    ensures
        covers(d2, m),
{
    assert((SPEED_PER_TICK * n) * (SPEED_PER_TICK * n) <= (SPEED_PER_TICK * m) * (SPEED_PER_TICK * m))
        by (nonlinear_arith)
        requires
            0 <= n <= m,
    ;
}

proof fn lemma_walk_ticks_unique(a: Point, b: Point, n: int, m: int)
    requires
        is_walk_ticks(a, b, n),
        is_walk_ticks(a, b, m),
    ensures
        n == m,
{
    if n < m {
        lemma_covers_monotone(dist_sq(a, b), n, m - 1);
    } else if m < n {
        lemma_covers_monotone(dist_sq(a, b), m, n - 1);
    }
}

/// Division rounded toward zero.
pub open spec fn trunc_div(d: int, n: int) -> int {
    if d >= 0 {
        d / n
    } else {
        -((-d) / n)
    }
}

/// The velocity that walks the displacement from `a` to `b` in `n` ticks,
/// each component rounded toward zero.
pub open spec fn nav_vel(a: Point, b: Point, n: int) -> Point {
    Point { x: trunc_div(b.x - a.x, n) as i32, y: trunc_div(b.y - a.y, n) as i32 }
}

/// How long `c` takes when `u` enters it, in ticks.
pub open spec fn duration_of(u: UnitState, c: Command) -> u64 {
    match c {
        Command::Nav(p) => walk_ticks(u.pos, p),
        Command::Wait(d) => d,
        Command::Shoot(_) => SHOOT_TICKS,
    }
}

/// `u` after entering `c`.
pub open spec fn started(u: UnitState, c: Command) -> UnitState {
    match c {
        Command::Nav(p) => UnitState { vel: nav_vel(u.pos, p, walk_ticks(u.pos, p) as int), ..u },
        Command::Wait(_) => u,
        Command::Shoot(t) => UnitState { target_id: t, action: Action::Shoot, ..u },
    }
}

/// `u` after leaving `c` at time `t`: carried to `t`, after which a walk
/// puts the unit at its destination and stops it, and a shot drops its
/// target. (The walking velocity is rounded to whole thousandths per tick,
/// so the end of the walk is what makes the arrival exact.)
pub open spec fn ended(u: UnitState, c: Command, t: u64) -> UnitState {
    let v = advanced(u, t);
    match c {
        Command::Nav(dest) => UnitState { pos: dest, vel: origin(), ..v },
        Command::Wait(_) => v,
        Command::Shoot(_) => UnitState {
            action: Action::Mobile,
            target_id: NULL_ID,
            target_loc: origin(),
            ..v
        },
    }
}

/// The command that `u` looks to be carrying out, with the time it would
/// end: a shot ends `SHOOT_TICKS` after the unit's time; a walk is taken to
/// end at `finish`, where the unit's motion brings it; otherwise none.
pub open spec fn inferred(u: UnitState, finish: u64) -> Option<(u64, Command)> {
    match u.action {
        Action::Shoot => Some((u.time.saturating_add(SHOOT_TICKS), Command::Shoot(u.target_id))),
        Action::Mobile => if u.vel == origin() {
            None
        } else {
            Some((finish, Command::Nav(pos_at(u, finish))))
        },
        Action::Dead => None,
    }
}

proof fn lemma_component_bound(d: int, n: int)
    requires
        n >= 1,
        d * d <= (SPEED_PER_TICK * n) * (SPEED_PER_TICK * n),
    ensures
        -(SPEED_PER_TICK as int) <= trunc_div(d, n) <= SPEED_PER_TICK,
{
    let s = SPEED_PER_TICK as int;
    assert(-(s * n) <= d <= s * n) by (nonlinear_arith)
        requires
            n >= 1,
            s == 100,
            d * d <= (s * n) * (s * n),
    ;
    if d >= 0 {
        assert(d / n <= s) by (nonlinear_arith)
            requires
                n >= 1,
                0 <= d <= s * n,
        ;
        assert(d / n >= 0) by (nonlinear_arith)
            requires
                n >= 1,
                0 <= d,
        ;
    } else {
        assert((-d) / n <= s) by (nonlinear_arith)
            requires
                n >= 1,
                0 <= -d <= s * n,
        ;
        assert((-d) / n >= 0) by (nonlinear_arith)
            requires
                n >= 1,
                0 <= -d,
        ;
    }
}

fn trunc_div_exec(d: i64, n: u64) -> (r: i64)
    requires
        n >= 1,
        -0x1_0000_0000 <= d <= 0x1_0000_0000,
    ensures
        r == trunc_div(d as int, n as int),
{
    if d >= 0 {
        ((d as u64) / n) as i64
    } else {
        let m: u64 = (-d) as u64;
        -((m / n) as i64)
    }
}

impl UnitState {
    /// Walking time from the unit's position to `pos`, in ticks.
    pub fn walk_duration(&self, pos: Point) -> (r: u64)
        ensures
            r == walk_ticks(self.pos, pos),
            is_walk_ticks(self.pos, pos, r as int),
    {
        let dx: i128 = pos.x as i128 - self.pos.x as i128;
        let dy: i128 = pos.y as i128 - self.pos.y as i128;
        assert(dx * dx <= 0x1_0000_0000_0000_0000) by (nonlinear_arith)
            requires
                -0x1_0000_0000 <= dx <= 0x1_0000_0000,
        ;
        assert(dy * dy <= 0x1_0000_0000_0000_0000) by (nonlinear_arith)
            requires
                -0x1_0000_0000 <= dy <= 0x1_0000_0000,
        ;
        assert(dx * dx >= 0 && dy * dy >= 0) by (nonlinear_arith);
        let d2: u128 = (dx * dx + dy * dy) as u128;
        let ghost g = dist_sq(self.pos, pos);
        assert(d2 == g);
        let mut lo: u64 = 0;
        let mut hi: u64 = 0x800_0000;
        assert(covers(g, hi as int)) by (nonlinear_arith)
            requires
                hi == 0x800_0000,
                g <= 0x2_0000_0000_0000_0000,
        ;
        while hi - lo > 1
            invariant
                lo < hi <= 0x800_0000,
                d2 == g,
                covers(g, hi as int),
                lo == 0 || !covers(g, lo as int),
            decreases hi - lo,
        {
            let mid: u64 = lo + (hi - lo) / 2;
            assert(mid < 0x800_0000);
            let s: u128 = 100 * (mid as u128);
            assert(s == SPEED_PER_TICK * mid);
            assert(s * s <= 0x1000_0000_0000_0000_0000) by (nonlinear_arith)
                requires
                    s <= 100 * 0x800_0000,
                    s >= 0,
            ;
            if s * s >= d2 {
                hi = mid;
            } else {
                lo = mid;
            }
        }
        proof {
            lemma_walk_ticks_unique(self.pos, pos, hi as int, walk_ticks(self.pos, pos) as int);
        }
        hi
    }

    /// How long `comm` takes when this unit enters it, in ticks.
    pub fn command_duration(&self, comm: Command) -> (r: u64)
        ensures
            r == duration_of(*self, comm),
            match comm {
                Command::Nav(p) => is_walk_ticks(self.pos, p, r as int),
                _ => true,
            },
    {
        match comm {
            Command::Nav(pos) => self.walk_duration(pos),
            Command::Wait(duration) => duration,
            Command::Shoot(_) => SHOOT_TICKS,
        }
    }

    /// Enters `comm` and returns how long it takes. A walk sets the velocity
    /// that brings the unit to its destination in that time; a shot sets the
    /// target and the shooting action.
    pub fn command_start(&mut self, comm: Command) -> (r: u64)
        ensures
            r == duration_of(*old(self), comm),
            *final(self) == started(*old(self), comm),
    {
        let duration = self.command_duration(comm);
        match comm {
            Command::Nav(pos) => {
                let dx: i64 = pos.x as i64 - self.pos.x as i64;
                let dy: i64 = pos.y as i64 - self.pos.y as i64;
                proof {
                    let n = duration as int;
                    assert(dx * dx <= dist_sq(self.pos, pos) && dy * dy <= dist_sq(self.pos, pos))
                        by (nonlinear_arith)
                        requires
                            dist_sq(self.pos, pos) == dx * dx + dy * dy,
                    ;
                    lemma_component_bound(dx as int, n);
                    lemma_component_bound(dy as int, n);
                }
                let vx = trunc_div_exec(dx, duration);
                let vy = trunc_div_exec(dy, duration);
                self.vel = Point { x: vx as i32, y: vy as i32 };
            },
            Command::Shoot(target) => {
                self.target_id = target;
                self.action = Action::Shoot;
            },
            Command::Wait(_) => {},
        }
        duration
    }

    /// Leaves `comm` at `time`: the unit is carried to `time`, then a walk
    /// puts it at its destination and stops its motion, and a shot drops its
    /// target.
    pub fn command_end(&mut self, comm: Command, time: u64)
        ensures
            *final(self) == ended(*old(self), comm, time),
            match comm {
                Command::Nav(dest) => final(self).pos == dest && final(self).vel == origin(),
                _ => true,
            },
    {
        self.update_pos(time);
        match comm {
            Command::Nav(dest) => {
                self.pos = dest;
                self.vel = zero_point();
            },
            Command::Shoot(_) => {
                self.action = Action::Mobile;
                self.target_id = NULL_ID;
                self.target_loc = zero_point();
            },
            Command::Wait(_) => {},
        }
    }

    /// Reconstructs the command that this unit seems to be carrying out, from
    /// its state alone, with the time it would end.
    pub fn infer_command(self, finish: u64) -> (r: Option<(u64, Command)>)
        ensures
            r == inferred(self, finish),
    {
        match self.action {
            Action::Shoot => Some((self.time.saturating_add(SHOOT_TICKS), Command::Shoot(self.target_id))),
            Action::Mobile => if self.vel.x == 0 && self.vel.y == 0 {
                None
            } else {
                let mut dummy = self;
                dummy.update_pos(finish);
                Some((finish, Command::Nav(dummy.pos)))
            },
            Action::Dead => None,
        }
    }
}

/// A walk that is started and then left at its completion time ends with
/// the unit exactly at the destination, at rest, at that time.
pub proof fn lemma_walk_arrives(u: UnitState, dest: Point)
    ensures
        ({
            let d = duration_of(u, Command::Nav(dest));
            let w = started(u, Command::Nav(dest));
            let e = ended(w, Command::Nav(dest), (u.time + d) as u64);
            u.time + d <= u64::MAX ==> e.pos == dest && e.vel == origin() && e.time == u.time + d && e.action
                == u.action && e.target_id == u.target_id
        }),
{
}

} // verus!
