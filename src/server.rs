//! The authority: works out the consequences that nobody asked for (shots
//! landing, walls, lost sight lines), checks the submitted states and commits
//! one instant of the world at a time.
use vstd::prelude::*;
use crate::command::SHOOT_TICKS;
use crate::geometry::{Trig, Walls, in_walls, origin, sight_clear, unit_can_see_pos, unit_is_in_wall, zero_point};
use crate::model::{Action, NULL_ID, Snapshot, Timeline, UnitState, advanced, extrapolated_entries, filed, pos_at};
use crate::table::{EID, keys_sorted, lemma_entries, lemma_entry, lemma_prefix_full, lemma_prefix_step, prefix_has, seq_has, seq_to_map};

verus! {

/// A change of state that the environment or combat imposes on a unit.
#[derive(Clone, Copy, PartialEq, Eq, Structural, Debug)]
pub enum Effect {
    Die,
    StopMoving,
    StopShooting,
}

/// An effect on a unit at a time.
pub type Consequence = (u64, EID, Effect);

/// What the walls and sight lines do to `u`, among `units`: a moving unit
/// inside a wall stops, one tick before; a shooter that cannot see its
/// target stops shooting, at once.
pub open spec fn collision_of(map: Seq<Trig>, units: Map<EID, UnitState>, u: UnitState) -> Option<(u64, Effect)> {
    if u.vel != origin() && in_walls(map, u.pos) {
        Some((u.time.saturating_sub(1), Effect::StopMoving))
    } else if u.action == Action::Shoot && units.contains_key(u.target_id) && !sight_clear(
        map,
        u.pos,
        units[u.target_id].pos,
    ) {
        Some((u.time, Effect::StopShooting))
    } else {
        None
    }
}

/// The shots under way among the pairs `s`: each shooter whose target is
/// present and not dead kills it `SHOOT_TICKS` after the shooter's time.
pub open spec fn tool_effects(s: Seq<(EID, UnitState)>, units: Map<EID, UnitState>) -> Seq<Consequence>
    decreases s.len(),
{
    if s.len() == 0 {
        Seq::empty()
    } else {
        let prev = tool_effects(s.drop_last(), units);
        let u = s.last().1;
        if u.action == Action::Shoot && units.contains_key(u.target_id) && units[u.target_id].action
            != Action::Dead {
            prev.push((u.time.saturating_add(SHOOT_TICKS), u.target_id, Effect::Die))
        } else {
            prev
        }
    }
}

/// The collisions of the pairs `s`, in their order.
pub open spec fn collision_effects(s: Seq<(EID, UnitState)>, map: Seq<Trig>, units: Map<EID, UnitState>) -> Seq<
    Consequence,
>
    decreases s.len(),
{
    if s.len() == 0 {
        Seq::empty()
    } else {
        let prev = collision_effects(s.drop_last(), map, units);
        match collision_of(map, units, s.last().1) {
            Some((t, e)) => prev.push((t, s.last().0, e)),
            None => prev,
        }
    }
}

/// Samples the world `s` forward one tick at a time after `time`, up to
/// `limit`, and gives the collisions of the first sample that has any.
pub open spec fn boundary_scan(map: Seq<Trig>, s: Seq<(EID, UnitState)>, time: u64, limit: u64) -> Seq<Consequence>
    decreases limit - time,
{
    if time < limit {
        let t = (time + 1) as u64;
        let es = extrapolated_entries(s, t);
        let found = collision_effects(es, map, seq_to_map(es));
        if found.len() > 0 {
            found
        } else {
            boundary_scan(map, s, t, limit)
        }
    } else {
        Seq::empty()
    }
}

/// Everything that happens to the world `cur` on its own, looking ahead to
/// one tick past `next`.
pub open spec fn consequences(map: Seq<Trig>, cur: Snapshot, next: u64) -> Seq<Consequence> {
    tool_effects(cur.states.entries(), cur.units()) + boundary_scan(
        map,
        cur.states.entries(),
        cur.time,
        next.saturating_add(1),
    )
}

/// `s` after `effect` at `time`. A unit that stops shooting is mobile again
/// and has no target. A stop that comes no later than the unit's own time
/// changes nothing.
pub open spec fn affected(s: UnitState, time: u64, effect: Effect) -> UnitState {
    let v = advanced(s, time);
    match effect {
        Effect::Die => UnitState {
            action: Action::Dead,
            vel: origin(),
            target_id: NULL_ID,
            target_loc: origin(),
            ..v
        },
        Effect::StopMoving => if s.time < time {
            UnitState { vel: origin(), ..v }
        } else {
            s
        },
        Effect::StopShooting => if s.time < time {
            UnitState { action: Action::Mobile, target_id: NULL_ID, target_loc: origin(), ..v }
        } else {
            s
        },
    }
}

/// The delta (time, units) after the effects `ext` are applied in order to
/// the delta `(t, units)`: an earlier effect, or any effect on an empty
/// delta, starts a fresh delta at its time; an effect at the delta's time
/// lands on the unit as the delta has it, else as `cur` has it.
pub open spec fn fold_effects(
    t: u64,
    units: Map<EID, UnitState>,
    ext: Seq<Consequence>,
    cur: Map<EID, UnitState>,
) -> (u64, Map<EID, UnitState>)
    decreases ext.len(),
{
    if ext.len() == 0 {
        (t, units)
    } else {
        let (t1, u1) = fold_effects(t, units, ext.drop_last(), cur);
        let (time, id, effect) = ext.last();
        let (t2, u2) = if u1.dom().len() == 0 || t1 > time {
            (time, Map::<EID, UnitState>::empty())
        } else {
            (t1, u1)
        };
        if t2 == time {
            if u2.contains_key(id) {
                (t2, u2.insert(id, affected(u2[id], time, effect)))
            } else if cur.contains_key(id) {
                (t2, u2.insert(id, affected(cur[id], time, effect)))
            } else {
                (t2, u2)
            }
        } else {
            (t2, u2)
        }
    }
}

/// The earliest bucket of `m`, or an empty one at time 0.
pub open spec fn earliest(m: Map<u64, Map<EID, UnitState>>) -> (u64, Map<EID, UnitState>) {
    if m.dom().len() == 0 {
        (0, Map::empty())
    } else {
        let t = choose|t: u64| m.contains_key(t) && forall|t2: u64| #[trigger] m.contains_key(t2) ==> t <= t2;
        (t, m[t])
    }
}

/// The delta that the authority commits for the submissions `upd` on the
/// world `cur`: the earliest submitted instant, overtaken by any earlier
/// consequence, with the consequences at that instant applied.
pub open spec fn resolution(map: Seq<Trig>, cur: Snapshot, upd: Seq<UnitState>) -> (u64, Map<EID, UnitState>) {
    let (t0, u0) = earliest(filed(upd));
    fold_effects(t0, u0, consequences(map, cur, t0), cur.units())
}

/// The submissions that take part in the round for `upd` on `cur`: those at
/// the earliest submitted instant, when the round commits that instant; none
/// when an earlier consequence takes the round over.
pub open spec fn participants(map: Seq<Trig>, cur: Snapshot, upd: Seq<UnitState>) -> Map<EID, UnitState> {
    let (t0, u0) = earliest(filed(upd));
    if resolution(map, cur, upd).0 == t0 {
        u0
    } else {
        Map::empty()
    }
}

/// A submitted state that already collides or has lost sight of its target.
pub open spec fn invalid(map: Seq<Trig>, units: Map<EID, UnitState>, u: UnitState) -> bool {
    collision_of(map, units, u) is Some
}

/// The authority over one session.
pub struct Server {
    pub current: Snapshot,
    pub map: Walls,
    /// Every delta committed so far.
    pub confirmed: Timeline,
}

impl Server {
    pub open spec fn wf(&self) -> bool {
        self.current.wf() && self.confirmed.wf()
    }

    pub fn new(current: Snapshot, map: Walls) -> (r: Self)
        requires
            current.wf(),
        ensures
            r.wf(),
            r.current == current,
            r.map == map,
            r.confirmed@ == Map::<u64, Map<EID, UnitState>>::empty(),
    {
        Server { current, map, confirmed: Timeline::new() }
    }

    fn unit_collision(map: &Walls, state: &Snapshot, unit: UnitState) -> (r: Option<(u64, Effect)>)
        requires
            state.wf(),
        ensures
            r == collision_of(map@, state.units(), unit),
    {
        if (unit.vel.x != 0 || unit.vel.y != 0) && unit_is_in_wall(map, unit.pos) {
            return Some((unit.time.saturating_sub(1), Effect::StopMoving));
        }
        match unit.action {
            Action::Shoot => {
                match state.states.get(unit.target_id) {
                    Some(target) => {
                        if !unit_can_see_pos(map, unit.pos, target.pos) {
                            return Some((unit.time, Effect::StopShooting));
                        }
                    },
                    None => {},
                }
            },
            _ => {},
        }
        None
    }

    fn collisions(map: &Walls, state: &Snapshot) -> (r: Vec<Consequence>)
        requires
            state.wf(),
        ensures
            r@ == collision_effects(state.states.entries(), map@, state.units()),
    {
        let ghost s = state.states.entries();
        let mut result: Vec<Consequence> = Vec::new();
        let mut i: usize = 0;
        assert(s.subrange(0, 0) =~= Seq::<(EID, UnitState)>::empty());
        while i < state.states.len()
            invariant
                state.wf(),
                s == state.states.entries(),
                i <= s.len(),
                result@ == collision_effects(s.subrange(0, i as int), map@, state.units()),
            decreases s.len() - i,
        {
            let id = state.states.key_at(i);
            let unit = *state.states.value_at(i);
            assert(s.subrange(0, i + 1).drop_last() =~= s.subrange(0, i as int));
            match Self::unit_collision(map, state, unit) {
                Some((t, e)) => {
                    result.push((t, id, e));
                },
                None => {},
            }
            i = i + 1;
        }
        assert(s.subrange(0, s.len() as int) =~= s);
        result
    }

    fn consequence_tools(&self) -> (r: Vec<Consequence>)
        requires
            self.wf(),
        ensures
            r@ == tool_effects(self.current.states.entries(), self.current.units()),
    {
        let ghost s = self.current.states.entries();
        let mut result: Vec<Consequence> = Vec::new();
        let mut i: usize = 0;
        assert(s.subrange(0, 0) =~= Seq::<(EID, UnitState)>::empty());
        while i < self.current.states.len()
            invariant
                self.wf(),
                s == self.current.states.entries(),
                i <= s.len(),
                result@ == tool_effects(s.subrange(0, i as int), self.current.units()),
            decreases s.len() - i,
        {
            let unit = *self.current.states.value_at(i);
            assert(s.subrange(0, i + 1).drop_last() =~= s.subrange(0, i as int));
            if unit.action == Action::Shoot {
                let target = unit.target_id;
                match self.current.states.get(target) {
                    Some(curr) => {
                        if curr.action != Action::Dead {
                            result.push((unit.time.saturating_add(SHOOT_TICKS), target, Effect::Die));
                        }
                    },
                    None => {},
                }
            }
            i = i + 1;
        }
        assert(s.subrange(0, s.len() as int) =~= s);
        result
    }

    fn consequence_boundaries(&self, next: u64) -> (r: Vec<Consequence>)
        requires
            self.wf(),
        ensures
            r@ == boundary_scan(self.map@, self.current.states.entries(), self.current.time, next.saturating_add(1)),
    {
        let ghost s = self.current.states.entries();
        let limit = next.saturating_add(1);
        let mut result: Vec<Consequence> = Vec::new();
        let mut time = self.current.time;
        while result.len() == 0 && time < limit
            invariant
                self.wf(),
                s == self.current.states.entries(),
                time <= limit || result@.len() == 0,
                result@.len() == 0 ==> boundary_scan(self.map@, s, self.current.time, limit) == boundary_scan(
                    self.map@,
                    s,
                    time,
                    limit,
                ),
                result@.len() > 0 ==> result@ == boundary_scan(self.map@, s, self.current.time, limit),
            decreases limit - time,
        {
            let ghost before = time;
            time = time + 1;
            let mut state = self.current.duplicate();
            state.extrapolate(time);
            result = Self::collisions(&self.map, &state);
        }
        result
    }

    fn consequence(&self, next: u64) -> (r: Vec<Consequence>)
        requires
            self.wf(),
        ensures
            r@ == consequences(self.map@, self.current, next),
    {
        let mut result = self.consequence_tools();
        let mut b = self.consequence_boundaries(next);
        result.append(&mut b);
        result
    }

    /// Whether a submitted state passes the same wall and sight-line test as
    /// the consequences, against the world as it stands now.
    pub fn is_valid(&self, unit: UnitState) -> (r: bool)
        requires
            self.wf(),
        ensures
            r == !invalid(self.map@, self.current.units(), unit),
    {
        match Self::unit_collision(&self.map, &self.current, unit) {
            Some(_) => false,
            None => true,
        }
    }

    /// Resolves one round. The earliest instant among the submissions and
    /// the consequences is the round's instant. Each submission that takes
    /// part (one at that instant) is checked against the walls and sight
    /// lines as the world stands now: if any fails, the lowest failing id is
    /// returned as `Err(id)` and nothing changes. Otherwise the delta of that
    /// instant is returned; when it is not empty, `current` moves to it and
    /// it joins `confirmed`.
    pub fn resolve(&mut self, upd: &Vec<UnitState>) -> (r: Result<Snapshot, EID>)
        requires
            old(self).wf(),
        ensures
            final(self).wf(),
            final(self).map == old(self).map,
            match r {
                Err(id) => {
                    let p = participants(old(self).map@, old(self).current, upd@);
                    &&& p.contains_key(id)
                    &&& invalid(old(self).map@, old(self).current.units(), p[id])
                    &&& forall|k: EID| #[trigger] p.contains_key(k) && k < id ==> !invalid(
                        old(self).map@,
                        old(self).current.units(),
                        p[k],
                    )
                    &&& final(self).current.time == old(self).current.time
                    &&& final(self).current.units() == old(self).current.units()
                    &&& final(self).confirmed@ == old(self).confirmed@
                },
                Ok(snap) => {
                    let p = participants(old(self).map@, old(self).current, upd@);
                    &&& forall|k: EID| #[trigger] p.contains_key(k) ==> !invalid(
                        old(self).map@,
                        old(self).current.units(),
                        p[k],
                    )
                    &&& snap.wf()
                    &&& (snap.time, snap.units()) == resolution(old(self).map@, old(self).current, upd@)
                    &&& if snap.units().dom().len() > 0 {
                        &&& final(self).current.time == snap.time
                        &&& final(self).current.units() == old(self).current.units().union_prefer_right(snap.units())
                        &&& final(self).confirmed@ == old(self).confirmed@.insert(snap.time, snap.units())
                    } else {
                        &&& final(self).current.time == old(self).current.time
                        &&& final(self).current.units() == old(self).current.units()
                        &&& final(self).confirmed@ == old(self).confirmed@
                    }
                },
            },
    {
        let sorted = Timeline::from_states(upd);
        let ghost m = sorted@;
        let mut snap = sorted.first();
        proof {
            if m.dom().len() > 0 {
                let t = choose|t: u64| m.contains_key(t) && forall|t2: u64| #[trigger] m.contains_key(t2) ==> t <= t2;
                assert(m.contains_key(snap.time));
                assert(t <= snap.time && snap.time <= t);
            }
        }
        let ghost t0 = snap.time;
        let ghost u0 = snap.units();
        assert((t0, u0) == earliest(filed(upd@)));
        let first = snap.duplicate();
        let ext = self.consequence(snap.time);
        let ghost cur = self.current.units();
        let mut k: usize = 0;
        assert(ext@.subrange(0, 0) =~= Seq::<Consequence>::empty());
        while k < ext.len()
            invariant
                self.wf(),
                *self == *old(self),
                cur == self.current.units(),
                k <= ext@.len(),
                snap.wf(),
                (snap.time, snap.units()) == fold_effects(t0, u0, ext@.subrange(0, k as int), cur),
            decreases ext@.len() - k,
        {
            let (time, id, effect) = ext[k];
            assert(ext@.subrange(0, k + 1).drop_last() =~= ext@.subrange(0, k as int));
            if snap.states.len() == 0 || snap.time > time {
                snap = Snapshot::with_time(time);
                proof {
                    assert(snap.units().dom() =~= Set::<EID>::empty());
                }
            }
            if snap.time == time {
                let base = match snap.states.get(id) {
                    Some(s) => Some(*s),
                    None => match self.current.states.get(id) {
                        Some(s) => Some(*s),
                        None => None,
                    },
                };
                match base {
                    Some(state) => {
                        let mut state = state;
                        Self::apply_effects(&mut state, time, effect);
                        snap.insert(state);
                    },
                    None => {},
                }
            }
            k = k + 1;
        }
        assert(ext@.subrange(0, ext@.len() as int) =~= ext@);
        let ghost p = participants(self.map@, self.current, upd@);
        if snap.time == first.time {
            let ghost e = first.states.entries();
            proof {
                lemma_entries(e);
            }
            let mut j: usize = 0;
            while j < first.states.len()
                invariant
                    self.wf(),
                    *self == *old(self),
                    first.wf(),
                    e == first.states.entries(),
                    first.units() == u0,
                    p == u0,
                    p == participants(self.map@, self.current, upd@),
                    j <= e.len(),
                    forall|k: EID| #[trigger] prefix_has(e, j as int, k) ==> !invalid(self.map@, self.current.units(), u0[k]),
                decreases e.len() - j,
            {
                let unit = *first.states.value_at(j);
                let id = first.states.key_at(j);
                proof {
                    lemma_entry(e, j as int);
                    lemma_prefix_step(e, j as int);
                }
                if !self.is_valid(unit) {
                    proof {
                        assert forall|k: EID| #[trigger] p.contains_key(k) && k < id implies prefix_has(e, j as int, k) by {
                            lemma_entries(e);
                            let x = choose|x: int| 0 <= x < e.len() && e[x].0 == k;
                            if x >= j {
                                if x > j {
                                    assert(e[j as int].0 < e[x].0);
                                }
                            }
                        }
                    }
                    return Err(id);
                }
                j = j + 1;
            }
            proof {
                lemma_prefix_full(e);
                lemma_entries(e);
                assert forall|k: EID| #[trigger] p.contains_key(k) implies prefix_has(e, e.len() as int, k) by {
                    assert(seq_has(e, k));
                }
            }
        } else {
            assert(p =~= Map::<EID, UnitState>::empty());
        }
        if snap.states.len() > 0 {
            self.current.time = snap.time;
            self.current.copy_units(&snap);
            self.confirmed.insert_snapshot(snap.duplicate());
        }
        Ok(snap)
    }

    /// Applies `effect` at `time` to `state`.
    fn apply_effects(state: &mut UnitState, time: u64, effect: Effect)
        ensures
            *final(state) == affected(*old(state), time, effect),
    {
        match effect {
            Effect::Die => {
                state.update_pos(time);
                state.action = Action::Dead;
                state.vel = zero_point();
                state.target_id = NULL_ID;
                state.target_loc = zero_point();
            },
            Effect::StopMoving => {
                if state.time < time {
                    state.update_pos(time);
                    state.vel = zero_point();
                }
            },
            Effect::StopShooting => {
                if state.time < time {
                    state.update_pos(time);
                    state.action = Action::Mobile;
                    state.target_id = NULL_ID;
                    state.target_loc = zero_point();
                }
            },
        }
    }
}

proof fn lemma_filed(upd: Seq<UnitState>)
    ensures
        filed(upd).dom().finite(),
        forall|tt: u64| #[trigger] filed(upd).contains_key(tt) ==> exists|i: int| 0 <= i < upd.len() && upd[i].time == tt,
        forall|i: int| 0 <= i < upd.len() ==> #[trigger] filed(upd).contains_key(upd[i].time)
            && filed(upd)[upd[i].time].contains_key(upd[i].id),
    decreases upd.len(),
{
    if upd.len() > 0 {
        let d = upd.drop_last();
        lemma_filed(d);
        assert forall|i: int| 0 <= i < upd.len() implies #[trigger] filed(upd).contains_key(upd[i].time)
            && filed(upd)[upd[i].time].contains_key(upd[i].id) by {
            if i < upd.len() - 1 {
                assert(d[i] == upd[i]);
            }
        }
        assert forall|tt: u64| #[trigger] filed(upd).contains_key(tt) implies exists|i: int|
            0 <= i < upd.len() && upd[i].time == tt by {
            if tt != upd.last().time {
                let i = choose|i: int| 0 <= i < d.len() && d[i].time == tt;
                assert(upd[i] == d[i]);
            } else {
                assert(upd[upd.len() - 1].time == tt);
            }
        }
    }
}

proof fn lemma_fold_keeps_instant(t: u64, units: Map<EID, UnitState>, ext: Seq<Consequence>, cur: Map<EID, UnitState>)
    requires
        units.dom().finite(),
        units.dom().len() > 0,
        forall|j: int| 0 <= j < ext.len() ==> (#[trigger] ext[j]).0 >= t,
    ensures
        fold_effects(t, units, ext, cur).0 == t,
        fold_effects(t, units, ext, cur).1.dom().finite(),
        fold_effects(t, units, ext, cur).1.dom().len() > 0,
        forall|id: EID| units.contains_key(id) ==> #[trigger] fold_effects(t, units, ext, cur).1.contains_key(id),
    decreases ext.len(),
{
    if ext.len() > 0 {
        let d = ext.drop_last();
        assert forall|j: int| 0 <= j < d.len() implies (#[trigger] d[j]).0 >= t by {
            assert(d[j] == ext[j]);
        }
        lemma_fold_keeps_instant(t, units, d, cur);
        let (t1, u1) = fold_effects(t, units, d, cur);
        let (time, id, effect) = ext.last();
        assert(ext[ext.len() - 1].0 >= t);
        if t1 == time {
            if u1.contains_key(id) {
                assert(u1.insert(id, affected(u1[id], time, effect)).dom() =~= u1.dom());
            } else if cur.contains_key(id) {
                let u2 = u1.insert(id, affected(cur[id], time, effect));
                assert(u2.dom() =~= u1.dom().insert(id));
            }
        }
    }
}

/// Submitted states that share one instant, when no submission is earlier
/// and no consequence comes before that instant, are committed together: the
/// round's delta is at that instant and holds every one of those units.
pub proof fn lemma_simultaneous_batching(map: Seq<Trig>, cur: Snapshot, upd: Seq<UnitState>, t: u64)
    requires
        cur.wf(),
        exists|i: int| 0 <= i < upd.len() && upd[i].time == t,
        forall|i: int| 0 <= i < upd.len() ==> (#[trigger] upd[i]).time >= t,
        forall|j: int| 0 <= j < consequences(map, cur, t).len() ==> (#[trigger] consequences(map, cur, t)[j]).0 >= t,
    ensures
        resolution(map, cur, upd).0 == t,
        forall|i: int| 0 <= i < upd.len() && (#[trigger] upd[i]).time == t ==> resolution(map, cur, upd).1.contains_key(
            upd[i].id,
        ),
{
    let m = filed(upd);
    lemma_filed(upd);
    let i0 = choose|i: int| 0 <= i < upd.len() && upd[i].time == t;
    assert(m.contains_key(upd[i0].time));
    assert(m.dom().contains(t));
    assert(m.dom().len() > 0);
    let tm = choose|tm: u64| m.contains_key(tm) && forall|t2: u64| #[trigger] m.contains_key(t2) ==> tm <= t2;
    assert(m.contains_key(t) && forall|t2: u64| #[trigger] m.contains_key(t2) ==> t <= t2) by {
        assert forall|t2: u64| #[trigger] m.contains_key(t2) implies t <= t2 by {
            let i = choose|i: int| 0 <= i < upd.len() && upd[i].time == t2;
            assert(upd[i].time >= t);
        }
    }
    assert(tm <= t);
    let it = choose|i: int| 0 <= i < upd.len() && upd[i].time == tm;
    assert(upd[it].time >= t);
    assert(earliest(m) == (t, m[t]));
    let u0 = m[t];
    assert(u0.contains_key(upd[i0].id));
    assert(u0.dom().finite()) by {
        lemma_bucket_finite(upd, t);
    }
    assert(u0.dom().len() > 0);
    lemma_fold_keeps_instant(t, u0, consequences(map, cur, t), cur.units());
}

proof fn lemma_bucket_finite(upd: Seq<UnitState>, t: u64)
    requires
        filed(upd).contains_key(t),
    ensures
        filed(upd)[t].dom().finite(),
    decreases upd.len(),
{
    if upd.len() > 0 {
        let d = upd.drop_last();
        let u = upd.last();
        if u.time == t {
            if filed(d).contains_key(t) {
                lemma_bucket_finite(d, t);
            }
        } else {
            lemma_bucket_finite(d, t);
        }
    }
}

proof fn lemma_collision_listed(es: Seq<(EID, UnitState)>, map: Seq<Trig>, units: Map<EID, UnitState>, j: int)
    requires
        0 <= j < es.len(),
        collision_of(map, units, es[j].1) is Some,
    ensures
        collision_effects(es, map, units).contains(
            (collision_of(map, units, es[j].1)->Some_0.0, es[j].0, collision_of(map, units, es[j].1)->Some_0.1),
        ),
    decreases es.len(),
{
    let prev = collision_effects(es.drop_last(), map, units);
    if j < es.len() - 1 {
        assert(es.drop_last()[j] == es[j]);
        lemma_collision_listed(es.drop_last(), map, units, j);
        let e = choose|x: int| 0 <= x < prev.len() && prev[x] == (
            collision_of(map, units, es[j].1)->Some_0.0,
            es[j].0,
            collision_of(map, units, es[j].1)->Some_0.1,
        );
        match collision_of(map, units, es.last().1) {
            Some((t, f)) => {
                assert(prev.push((t, es.last().0, f))[e] == prev[e]);
            },
            None => {},
        }
    } else {
        let r = collision_effects(es, map, units);
        assert(r[r.len() - 1] == (
            collision_of(map, units, es[j].1)->Some_0.0,
            es[j].0,
            collision_of(map, units, es[j].1)->Some_0.1,
        ));
    }
}

/// A moving unit whose path has entered a wall by the sample at time `k` is
/// stopped by the scan: if no earlier sample after `time` found anything,
/// the scan reports a stop for it at `k - 1`, the last instant before that
/// sample. Samples are one tick apart, so the stop is found within a tick of
/// the unit entering the wall.
pub proof fn lemma_wall_entry_stopped(map: Seq<Trig>, s: Seq<(EID, UnitState)>, time: u64, limit: u64, k: u64, j: int)
    requires
        keys_sorted(s),
        time < k <= limit,
        0 <= j < s.len(),
        s[j].1.vel != origin(),
        in_walls(map, pos_at(s[j].1, k)),
        forall|t: u64|
            time < t < k ==> (#[trigger] collision_effects(
                extrapolated_entries(s, t),
                map,
                seq_to_map(extrapolated_entries(s, t)),
            )).len() == 0,
    ensures
        boundary_scan(map, s, time, limit).contains(((k - 1) as u64, s[j].0, Effect::StopMoving)),
        forall|x: int|
            0 <= x < boundary_scan(map, s, time, limit).len() && (#[trigger] boundary_scan(map, s, time, limit)[x]).1
                == s[j].0 ==> boundary_scan(map, s, time, limit)[x] == ((k - 1) as u64, s[j].0, Effect::StopMoving),
    decreases k - time,
{
    let t1 = (time + 1) as u64;
    if t1 < k {
        lemma_wall_entry_stopped(map, s, t1, limit, k, j);
        assert(collision_effects(extrapolated_entries(s, t1), map, seq_to_map(extrapolated_entries(s, t1))).len()
            == 0);
        assert(boundary_scan(map, s, time, limit) == boundary_scan(map, s, t1, limit));
    } else {
        let es = extrapolated_entries(s, k);
        assert(es[j] == (s[j].0, advanced(s[j].1, k)));
        let u = advanced(s[j].1, k);
        assert(collision_of(map, seq_to_map(es), u) == Some(((k - 1) as u64, Effect::StopMoving)));
        lemma_collision_listed(es, map, seq_to_map(es), j);
        assert(keys_sorted(es)) by {
            assert forall|a: int, b: int| 0 <= a < b < es.len() implies es[a].0 < es[b].0 by {
                assert(es[a].0 == s[a].0 && es[b].0 == s[b].0);
            }
        }
        lemma_collision_unique(es, map, seq_to_map(es), j);
        let r = collision_effects(es, map, seq_to_map(es));
        assert(boundary_scan(map, s, time, limit) == r);
    }
}

/// The collision that the pair `es[y]` gives.
spec fn collision_entry(map: Seq<Trig>, units: Map<EID, UnitState>, es: Seq<(EID, UnitState)>, y: int) -> Consequence {
    (collision_of(map, units, es[y].1)->Some_0.0, es[y].0, collision_of(map, units, es[y].1)->Some_0.1)
}

proof fn lemma_collision_unique(es: Seq<(EID, UnitState)>, map: Seq<Trig>, units: Map<EID, UnitState>, j: int)
    requires
        keys_sorted(es),
        0 <= j < es.len(),
    ensures
        forall|x: int|
            0 <= x < collision_effects(es, map, units).len() && (#[trigger] collision_effects(es, map, units)[x]).1
                == es[j].0 ==> collision_effects(es, map, units)[x] == collision_entry(map, units, es, j),
    decreases es.len(),
{
    let d = es.drop_last();
    let n = es.len() - 1;
    let r = collision_effects(es, map, units);
    let pr = collision_effects(d, map, units);
    assert(keys_sorted(d));
    lemma_collisions_known(d, map, units);
    if j < n {
        lemma_collision_unique(d, map, units, j);
        assert(d[j] == es[j]);
        assert(collision_entry(map, units, es, j) == collision_entry(map, units, d, j));
    }
    assert forall|x: int| 0 <= x < r.len() && (#[trigger] r[x]).1 == es[j].0 implies r[x] == collision_entry(
        map,
        units,
        es,
        j,
    ) by {
        match collision_of(map, units, es.last().1) {
            Some((t, e)) => {
                assert(r == pr.push((t, es.last().0, e)));
            },
            None => {
                assert(r == pr);
            },
        }
        if x < pr.len() {
            assert(r[x] == pr[x]);
            assert(seq_has(d, pr[x].1));
            let y = choose|y: int| 0 <= y < d.len() && d[y].0 == pr[x].1;
            assert(es[y] == d[y]);
            if j == n {
                assert(es[y].0 < es[n].0);
            }
        } else {
            assert(es[n] == es.last());
            if j < n {
                assert(es[j].0 < es[n].0);
            }
        }
    }
}

/// A shot under way lands unless something stops it first: every shooter
/// among the pairs `s` whose target is present and alive schedules the
/// target's death `SHOOT_TICKS` after the shooter's own time.
pub proof fn lemma_shot_lands(s: Seq<(EID, UnitState)>, units: Map<EID, UnitState>, j: int)
    requires
        0 <= j < s.len(),
        s[j].1.action == Action::Shoot,
        units.contains_key(s[j].1.target_id),
        units[s[j].1.target_id].action != Action::Dead,
    ensures
        tool_effects(s, units).contains((s[j].1.time.saturating_add(SHOOT_TICKS), s[j].1.target_id, Effect::Die)),
    decreases s.len(),
{
    let e = (s[j].1.time.saturating_add(SHOOT_TICKS), s[j].1.target_id, Effect::Die);
    let prev = tool_effects(s.drop_last(), units);
    if j < s.len() - 1 {
        assert(s.drop_last()[j] == s[j]);
        lemma_shot_lands(s.drop_last(), units, j);
        let x = choose|x: int| 0 <= x < prev.len() && prev[x] == e;
        let u = s.last().1;
        if u.action == Action::Shoot && units.contains_key(u.target_id) && units[u.target_id].action != Action::Dead {
            assert(prev.push((u.time.saturating_add(SHOOT_TICKS), u.target_id, Effect::Die))[x] == e);
        }
    } else {
        let r = tool_effects(s, units);
        assert(r[r.len() - 1] == e);
    }
}

/// Some effect of `ext` falls on unit `k` at time `t`.
pub open spec fn effect_at(ext: Seq<Consequence>, t: u64, k: EID) -> bool {
    exists|j: int| 0 <= j < ext.len() && (#[trigger] ext[j]).0 == t && ext[j].1 == k
}

/// Some effect of `ext` comes at time `t`.
pub open spec fn some_effect_at(ext: Seq<Consequence>, t: u64) -> bool {
    exists|j: int| 0 <= j < ext.len() && (#[trigger] ext[j]).0 == t
}

proof fn lemma_fold_instant(t0: u64, u0: Map<EID, UnitState>, ext: Seq<Consequence>, cur: Map<EID, UnitState>)
    requires
        u0.dom().finite(),
        forall|j: int| 0 <= j < ext.len() ==> cur.contains_key((#[trigger] ext[j]).1),
    ensures
        ({
            let (t, u) = fold_effects(t0, u0, ext, cur);
            &&& u.dom().finite()
            &&& (u.dom().len() > 0) == (u0.dom().len() > 0 || ext.len() > 0)
            &&& u0.dom().len() > 0 ==> t <= t0
            &&& forall|j: int| 0 <= j < ext.len() ==> t <= (#[trigger] ext[j]).0
            &&& (u0.dom().len() > 0 || ext.len() > 0) ==> ((t == t0 && u0.dom().len() > 0) || some_effect_at(ext, t))
            &&& forall|k: EID| #[trigger] u.contains_key(k) == ((t == t0 && u0.contains_key(k)) || effect_at(ext, t, k))
            &&& forall|k: EID|
                t == t0 && #[trigger] u0.contains_key(k) && !effect_at(ext, t, k) ==> u.contains_key(k) && u[k] == u0[k]
        }),
    decreases ext.len(),
{
    if ext.len() > 0 {
        let d = ext.drop_last();
        assert forall|j: int| 0 <= j < d.len() implies cur.contains_key((#[trigger] d[j]).1) by {
            assert(d[j] == ext[j]);
        }
        lemma_fold_instant(t0, u0, d, cur);
        let (t1, u1) = fold_effects(t0, u0, d, cur);
        let n = ext.len() - 1;
        let (time, id, effect) = ext[n];
        assert(ext.last() == ext[n]);
        assert(cur.contains_key(ext[n].1));
        let (t, u) = fold_effects(t0, u0, ext, cur);
        assert forall|tt: u64, k: EID| #[trigger] effect_at(ext, tt, k) == (effect_at(d, tt, k) || (tt == time && k == id)) by {
            if effect_at(ext, tt, k) {
                let j = choose|j: int| 0 <= j < ext.len() && (#[trigger] ext[j]).0 == tt && ext[j].1 == k;
                if j < n {
                    assert(d[j] == ext[j]);
                }
            }
            if effect_at(d, tt, k) {
                let j = choose|j: int| 0 <= j < d.len() && (#[trigger] d[j]).0 == tt && d[j].1 == k;
                assert(d[j] == ext[j]);
            }
            if tt == time && k == id {
                assert(ext[n].0 == tt && ext[n].1 == k);
            }
        }
        assert(some_effect_at(ext, time)) by {
            assert(ext[n].0 == time);
        }
        assert forall|tt: u64| some_effect_at(d, tt) implies #[trigger] some_effect_at(ext, tt) by {
            let j = choose|j: int| 0 <= j < d.len() && (#[trigger] d[j]).0 == tt;
            assert(d[j] == ext[j]);
        }
        assert forall|j: int| 0 <= j < n implies (#[trigger] ext[j]).0 >= t1 by {
            assert(d[j] == ext[j]);
        }
        if u1.dom().len() == 0 || t1 > time {
            let e = Map::<EID, UnitState>::empty();
            assert(t == time);
            assert(u == e.insert(id, affected(cur[id], time, effect)));
            assert(u.dom() =~= set![id]);
            assert(u0.dom().len() > 0 ==> time < t0);
            assert forall|k: EID| #[trigger] effect_at(d, time, k) implies false by {
                let j = choose|j: int| 0 <= j < d.len() && (#[trigger] d[j]).0 == time && d[j].1 == k;
                assert(d[j] == ext[j]);
                if u1.dom().len() == 0 {
                    assert(d.len() == 0);
                }
            }
        } else {
            assert(t == t1);
            if t1 == time {
                if u1.contains_key(id) {
                    assert(u == u1.insert(id, affected(u1[id], time, effect)));
                } else {
                    assert(u == u1.insert(id, affected(cur[id], time, effect)));
                }
                assert(u.dom() =~= u1.dom().insert(id));
            } else {
                assert(u == u1);
            }
        }
    }
}

proof fn lemma_tools_known(s: Seq<(EID, UnitState)>, units: Map<EID, UnitState>)
    ensures
        forall|j: int| 0 <= j < tool_effects(s, units).len() ==> units.contains_key((#[trigger] tool_effects(s, units)[j]).1),
    decreases s.len(),
{
    if s.len() > 0 {
        let d = s.drop_last();
        lemma_tools_known(d, units);
        let r = tool_effects(s, units);
        let pr = tool_effects(d, units);
        assert forall|j: int| 0 <= j < r.len() implies units.contains_key((#[trigger] r[j]).1) by {
            if j < pr.len() {
                assert(r[j] == pr[j]);
                assert(units.contains_key(pr[j].1));
            }
        }
    }
}

proof fn lemma_collisions_known(es: Seq<(EID, UnitState)>, map: Seq<Trig>, units: Map<EID, UnitState>)
    ensures
        forall|j: int| 0 <= j < collision_effects(es, map, units).len() ==> #[trigger] seq_has(es, collision_effects(es, map, units)[j].1),
    decreases es.len(),
{
    if es.len() > 0 {
        let d = es.drop_last();
        lemma_collisions_known(d, map, units);
        let r = collision_effects(es, map, units);
        let pr = collision_effects(d, map, units);
        assert forall|j: int| 0 <= j < r.len() implies #[trigger] seq_has(es, r[j].1) by {
            if j < pr.len() {
                assert(r[j] == pr[j]);
                assert(seq_has(d, pr[j].1));
                let x = choose|x: int| 0 <= x < d.len() && d[x].0 == pr[j].1;
                assert(es[x] == d[x]);
            } else {
                assert(es[es.len() - 1].0 == r[j].1);
            }
        }
    }
}

proof fn lemma_scan_known(map: Seq<Trig>, s: Seq<(EID, UnitState)>, time: u64, limit: u64)
    ensures
        forall|j: int| 0 <= j < boundary_scan(map, s, time, limit).len() ==> #[trigger] seq_has(s, boundary_scan(map, s, time, limit)[j].1),
    decreases limit - time,
{
    if time < limit {
        let t = (time + 1) as u64;
        let es = extrapolated_entries(s, t);
        lemma_collisions_known(es, map, seq_to_map(es));
        lemma_scan_known(map, s, t, limit);
        let r = boundary_scan(map, s, time, limit);
        assert forall|j: int| 0 <= j < r.len() implies #[trigger] seq_has(s, r[j].1) by {
            let found = collision_effects(es, map, seq_to_map(es));
            if found.len() > 0 {
                assert(r[j] == found[j]);
                assert(seq_has(es, found[j].1));
                let x = choose|x: int| 0 <= x < es.len() && es[x].0 == found[j].1;
                assert(s[x].0 == es[x].0);
                assert(s[x].0 == r[j].1);
            } else {
                assert(r == boundary_scan(map, s, t, limit));
                assert(seq_has(s, boundary_scan(map, s, t, limit)[j].1));
            }
        }
    }
}

proof fn lemma_consequences_known(map: Seq<Trig>, cur: Snapshot, next: u64)
    requires
        cur.wf(),
    ensures
        forall|j: int| 0 <= j < consequences(map, cur, next).len() ==> cur.units().contains_key(
            (#[trigger] consequences(map, cur, next)[j]).1,
        ),
{
    let s = cur.states.entries();
    let a = tool_effects(s, cur.units());
    let b = boundary_scan(map, s, cur.time, next.saturating_add(1));
    lemma_tools_known(s, cur.units());
    lemma_scan_known(map, s, cur.time, next.saturating_add(1));
    lemma_entries(s);
    let c = consequences(map, cur, next);
    assert forall|j: int| 0 <= j < c.len() implies cur.units().contains_key((#[trigger] c[j]).1) by {
        if j < a.len() {
            assert(c[j] == a[j]);
        } else {
            assert(c[j] == b[j - a.len()]);
            assert(seq_has(s, b[j - a.len()].1));
        }
    }
}

proof fn lemma_filed_buckets(upd: Seq<UnitState>)
    ensures
        filed(upd).dom().finite(),
        (filed(upd).dom().len() > 0) == (upd.len() > 0),
        forall|t: u64| #[trigger] filed(upd).contains_key(t) ==> filed(upd)[t].dom().finite() && filed(upd)[t].dom().len() > 0,
    decreases upd.len(),
{
    if upd.len() > 0 {
        let d = upd.drop_last();
        lemma_filed_buckets(d);
        let m = filed(d);
        let u = upd.last();
        let b = (if m.contains_key(u.time) {
            m[u.time]
        } else {
            Map::<EID, UnitState>::empty()
        }).insert(u.id, u);
        assert(b.dom().contains(u.id));
        assert(filed(upd).dom().contains(u.time));
    }
}

proof fn lemma_filed_min(upd: Seq<UnitState>)
    ensures
        upd.len() > 0 ==> exists|tm: u64|
            filed(upd).contains_key(tm) && forall|t2: u64| #[trigger] filed(upd).contains_key(t2) ==> tm <= t2,
    decreases upd.len(),
{
    if upd.len() > 0 {
        let d = upd.drop_last();
        lemma_filed_min(d);
        let m = filed(upd);
        let u = upd.last();
        assert(m.contains_key(u.time));
        if d.len() == 0 {
            assert(filed(d) == Map::<u64, Map<EID, UnitState>>::empty());
            assert forall|t2: u64| #[trigger] m.contains_key(t2) implies u.time <= t2 by {
                assert(t2 == u.time);
            }
        } else {
            let td = choose|tm: u64| filed(d).contains_key(tm) && forall|t2: u64| #[trigger] filed(d).contains_key(t2) ==> tm <= t2;
            let tm = if td < u.time { td } else { u.time };
            assert(m.contains_key(tm));
            assert forall|t2: u64| #[trigger] m.contains_key(t2) implies tm <= t2 by {
                if t2 != u.time {
                    assert(filed(d).contains_key(t2));
                }
            }
        }
    }
}

/// The instant a round commits is the earliest of the submitted instant and
/// the consequences' times, and the round's delta holds exactly the
/// submissions at that instant (when it is the submitted one) and the units
/// of the effects at that instant; a submission that no effect touches at
/// that instant is committed as submitted.
#[verifier::rlimit(50)]
pub proof fn lemma_round_instant(map: Seq<Trig>, cur: Snapshot, upd: Seq<UnitState>)
    requires
        cur.wf(),
    ensures
        ({
            let (t0, u0) = earliest(filed(upd));
            let ext = consequences(map, cur, t0);
            let (t, u) = resolution(map, cur, upd);
            &&& upd.len() > 0 ==> t <= t0
            &&& forall|j: int| 0 <= j < ext.len() ==> t <= (#[trigger] ext[j]).0
            &&& (upd.len() > 0 || ext.len() > 0) ==> ((t == t0 && upd.len() > 0) || some_effect_at(ext, t))
            &&& (u.dom().len() > 0) == (upd.len() > 0 || ext.len() > 0)
            &&& forall|k: EID| #[trigger] u.contains_key(k) == ((t == t0 && u0.contains_key(k)) || effect_at(ext, t, k))
            &&& forall|k: EID|
                t == t0 && #[trigger] u0.contains_key(k) && !effect_at(ext, t, k) ==> u.contains_key(k) && u[k] == u0[k]
        }),
{
    let m = filed(upd);
    lemma_filed_buckets(upd);
    lemma_filed_min(upd);
    let (t0, u0) = earliest(m);
    if m.dom().len() > 0 {
        let tm = choose|tm: u64| m.contains_key(tm) && forall|t2: u64| #[trigger] m.contains_key(t2) ==> tm <= t2;
        assert(m.contains_key(tm));
        assert(u0.dom().finite());
    } else {
        assert(u0 == Map::<EID, UnitState>::empty());
        assert(u0.dom() =~= Set::<EID>::empty());
    }
    lemma_consequences_known(map, cur, t0);
    lemma_fold_instant(t0, u0, consequences(map, cur, t0), cur.units());
}

proof fn lemma_fold_die(t0: u64, u0: Map<EID, UnitState>, ext: Seq<Consequence>, cur: Map<EID, UnitState>)
    requires
        u0.dom().finite(),
        forall|j: int| 0 <= j < ext.len() ==> cur.contains_key((#[trigger] ext[j]).1),
    ensures
        ({
            let (t, u) = fold_effects(t0, u0, ext, cur);
            forall|j: int|
                0 <= j < ext.len() && (#[trigger] ext[j]).0 == t && ext[j].2 == Effect::Die ==> u.contains_key(ext[j].1)
                    && u[ext[j].1].action == Action::Dead && u[ext[j].1].time == t
        }),
    decreases ext.len(),
{
    if ext.len() > 0 {
        let d = ext.drop_last();
        assert forall|j: int| 0 <= j < d.len() implies cur.contains_key((#[trigger] d[j]).1) by {
            assert(d[j] == ext[j]);
        }
        lemma_fold_die(t0, u0, d, cur);
        lemma_fold_instant(t0, u0, d, cur);
        let (t1, u1) = fold_effects(t0, u0, d, cur);
        let n = ext.len() - 1;
        let (time, id, effect) = ext[n];
        assert(ext.last() == ext[n]);
        let (t, u) = fold_effects(t0, u0, ext, cur);
        assert forall|j: int|
            0 <= j < ext.len() && (#[trigger] ext[j]).0 == t && ext[j].2 == Effect::Die implies u.contains_key(ext[j].1)
                && u[ext[j].1].action == Action::Dead && u[ext[j].1].time == t by {
            if j < n {
                assert(d[j] == ext[j]);
                if u1.dom().len() == 0 {
                    assert(d.len() == 0);
                } else if t1 > time {
                    assert(d[j].0 >= t1);
                } else if t1 == time {
                    let k = ext[j].1;
                    assert(u1.contains_key(k) && u1[k].action == Action::Dead && u1[k].time == time);
                    if k == id {
                        assert(u == u1.insert(id, affected(u1[id], time, effect)));
                    } else {
                        if u1.contains_key(id) {
                            assert(u == u1.insert(id, affected(u1[id], time, effect)));
                        } else {
                            assert(u == u1.insert(id, affected(cur[id], time, effect)));
                        }
                    }
                } else {
                    assert(u == u1);
                }
            } else {
                if u1.dom().len() == 0 || t1 > time {
                    assert(u == Map::<EID, UnitState>::empty().insert(id, affected(cur[id], time, effect)));
                } else if t1 == time {
                    if u1.contains_key(id) {
                        assert(u == u1.insert(id, affected(u1[id], time, effect)));
                    } else {
                        assert(u == u1.insert(id, affected(cur[id], time, effect)));
                    }
                }
            }
        }
    }
}

/// A shot that nothing interrupts takes exactly `SHOOT_TICKS`: when the
/// shooter `s[j]` of `cur` aims at a live target, no submission comes before
/// the shot is due, and no consequence comes before it either, the round
/// commits the instant the shot is due, with the target dead at that instant.
pub proof fn lemma_shot_completes(map: Seq<Trig>, cur: Snapshot, upd: Seq<UnitState>, j: int)
    requires
        cur.wf(),
        0 <= j < cur.states.entries().len(),
        cur.states.entries()[j].1.action == Action::Shoot,
        cur.units().contains_key(cur.states.entries()[j].1.target_id),
        cur.units()[cur.states.entries()[j].1.target_id].action != Action::Dead,
        forall|i: int| 0 <= i < upd.len() ==> (#[trigger] upd[i]).time >= cur.states.entries()[j].1.time.saturating_add(SHOOT_TICKS),
        forall|x: int|
            0 <= x < consequences(map, cur, earliest(filed(upd)).0).len() ==> (#[trigger] consequences(
                map,
                cur,
                earliest(filed(upd)).0,
            )[x]).0 >= cur.states.entries()[j].1.time.saturating_add(SHOOT_TICKS),
    ensures
        ({
            let sh = cur.states.entries()[j].1;
            let (t, u) = resolution(map, cur, upd);
            &&& t == sh.time.saturating_add(SHOOT_TICKS)
            &&& u.contains_key(sh.target_id)
            &&& u[sh.target_id].action == Action::Dead
            &&& u[sh.target_id].time == t
        }),
{
    let sh = cur.states.entries()[j].1;
    let due = sh.time.saturating_add(SHOOT_TICKS);
    let s = cur.states.entries();
    let m = filed(upd);
    lemma_filed_buckets(upd);
    lemma_filed_min(upd);
    lemma_filed(upd);
    let (t0, u0) = earliest(m);
    if m.dom().len() > 0 {
        let tm = choose|tm: u64| m.contains_key(tm) && forall|t2: u64| #[trigger] m.contains_key(t2) ==> tm <= t2;
        assert(m.contains_key(tm));
        assert(u0.dom().finite());
        let i = choose|i: int| 0 <= i < upd.len() && upd[i].time == tm;
        assert(upd[i].time >= due);
    } else {
        assert(u0 == Map::<EID, UnitState>::empty());
        assert(u0.dom() =~= Set::<EID>::empty());
    }
    let ext = consequences(map, cur, t0);
    lemma_shot_lands(s, cur.units(), j);
    let a = tool_effects(s, cur.units());
    let x = choose|x: int| 0 <= x < a.len() && a[x] == (due, sh.target_id, Effect::Die);
    assert(ext[x] == a[x]);
    lemma_consequences_known(map, cur, t0);
    lemma_fold_instant(t0, u0, ext, cur.units());
    lemma_fold_die(t0, u0, ext, cur.units());
    let (t, u) = resolution(map, cur, upd);
    assert(t <= due);
    if !(t == t0 && u0.dom().len() > 0) {
        let y = choose|y: int| 0 <= y < ext.len() && (#[trigger] ext[y]).0 == t;
        assert(ext[y].0 >= due);
    }
    assert(t == due);
}

proof fn lemma_pos_at_own_time(u: UnitState)
    ensures
        pos_at(u, u.time) == u.pos,
{
    let (a, b, dt) = (u.vel.x as int, u.vel.y as int, u.time - u.time);
    assert(a * dt == 0 && b * dt == 0) by (nonlinear_arith)
        requires
            dt == 0,
    ;
}

proof fn lemma_tools_die(s: Seq<(EID, UnitState)>, units: Map<EID, UnitState>)
    ensures
        forall|x: int| 0 <= x < tool_effects(s, units).len() ==> (#[trigger] tool_effects(s, units)[x]).2 == Effect::Die,
    decreases s.len(),
{
    if s.len() > 0 {
        let d = s.drop_last();
        lemma_tools_die(d, units);
        let r = tool_effects(s, units);
        let pr = tool_effects(d, units);
        assert forall|x: int| 0 <= x < r.len() implies (#[trigger] r[x]).2 == Effect::Die by {
            if x < pr.len() {
                assert(r[x] == pr[x]);
            }
        }
    }
}

proof fn lemma_fold_stop(
    t0: u64,
    u0: Map<EID, UnitState>,
    ext: Seq<Consequence>,
    cur: Map<EID, UnitState>,
    k: EID,
    lo: u64,
)
    requires
        u0.dom().finite(),
        forall|j: int| 0 <= j < ext.len() ==> cur.contains_key((#[trigger] ext[j]).1),
        cur.contains_key(k),
        cur[k].time < lo,
        forall|j: int| 0 <= j < ext.len() ==> (#[trigger] ext[j]).0 >= lo,
        forall|j: int| 0 <= j < ext.len() && (#[trigger] ext[j]).1 == k ==> ext[j].2 != Effect::StopShooting,
    ensures
        ({
            let (t, u) = fold_effects(t0, u0, ext, cur);
            (t != t0 || !u0.contains_key(k)) && u.contains_key(k) ==> u[k].time == t && u[k].vel == origin()
                && u[k].pos == pos_at(cur[k], t)
        }),
    decreases ext.len(),
{
    if ext.len() > 0 {
        let d = ext.drop_last();
        assert forall|j: int| 0 <= j < d.len() implies cur.contains_key((#[trigger] d[j]).1) && d[j].0 >= lo && (d[j].1
            == k ==> d[j].2 != Effect::StopShooting) by {
            assert(d[j] == ext[j]);
        }
        lemma_fold_stop(t0, u0, d, cur, k, lo);
        lemma_fold_instant(t0, u0, d, cur);
        let (t1, u1) = fold_effects(t0, u0, d, cur);
        let n = ext.len() - 1;
        let (time, id, effect) = ext[n];
        assert(ext.last() == ext[n]);
        assert(time >= lo);
        let (t, u) = fold_effects(t0, u0, ext, cur);
        if id == k {
            assert(effect != Effect::StopShooting);
        }
        if u1.dom().len() == 0 || t1 > time {
            assert(u == Map::<EID, UnitState>::empty().insert(id, affected(cur[id], time, effect)));
        } else if t1 == time {
            if u1.contains_key(id) {
                assert(u == u1.insert(id, affected(u1[id], time, effect)));
                if id == k && (t != t0 || !u0.contains_key(k)) {
                    lemma_pos_at_own_time(u1[k]);
                }
            } else {
                assert(u == u1.insert(id, affected(cur[id], time, effect)));
            }
        } else {
            assert(u == u1);
        }
    }
}

/// A moving unit that walks into a wall is stopped in the committed round at
/// the last instant before the sample that finds it: when the unit `s[j]` of
/// `cur` is inside a wall at the sample `k`, no earlier sample finds any
/// collision, every submission is at `k` or later, and no consequence comes
/// before `k - 1`, the round commits `k - 1`, with the unit at rest where its
/// motion had brought it by then.
pub proof fn lemma_wall_stop_committed(map: Seq<Trig>, cur: Snapshot, upd: Seq<UnitState>, k: u64, j: int)
    requires
        cur.wf(),
        0 <= j < cur.states.entries().len(),
        cur.states.entries()[j].1.vel != origin(),
        in_walls(map, pos_at(cur.states.entries()[j].1, k)),
        cur.time < k,
        cur.states.entries()[j].1.time + 1 < k,
        forall|t: u64|
            cur.time < t < k ==> (#[trigger] collision_effects(
                extrapolated_entries(cur.states.entries(), t),
                map,
                seq_to_map(extrapolated_entries(cur.states.entries(), t)),
            )).len() == 0,
        upd.len() > 0,
        forall|i: int| 0 <= i < upd.len() ==> (#[trigger] upd[i]).time >= k,
        forall|x: int|
            0 <= x < consequences(map, cur, earliest(filed(upd)).0).len() ==> (#[trigger] consequences(
                map,
                cur,
                earliest(filed(upd)).0,
            )[x]).0 >= k - 1,
    ensures
        ({
            let w = cur.states.entries()[j].1;
            let (t, u) = resolution(map, cur, upd);
            &&& t == k - 1
            &&& u.contains_key(w.id)
            &&& u[w.id].time == t
            &&& u[w.id].vel == origin()
            &&& u[w.id].pos == pos_at(w, t)
        }),
{
    let s = cur.states.entries();
    let w = s[j].1;
    let id = s[j].0;
    lemma_entry(s, j);
    assert(cur.units().contains_key(id) && cur.units()[id] == w);
    assert(w.id == id);
    let m = filed(upd);
    lemma_filed_buckets(upd);
    lemma_filed_min(upd);
    lemma_filed(upd);
    let (t0, u0) = earliest(m);
    let tm = choose|tm: u64| m.contains_key(tm) && forall|t2: u64| #[trigger] m.contains_key(t2) ==> tm <= t2;
    assert(m.contains_key(tm));
    let i = choose|i: int| 0 <= i < upd.len() && upd[i].time == tm;
    assert(t0 >= k);
    let limit = t0.saturating_add(1);
    lemma_wall_entry_stopped(map, s, cur.time, limit, k, j);
    let a = tool_effects(s, cur.units());
    let b = boundary_scan(map, s, cur.time, limit);
    let ext = consequences(map, cur, t0);
    assert(ext == a + b);
    let y = choose|y: int| 0 <= y < b.len() && b[y] == ((k - 1) as u64, id, Effect::StopMoving);
    assert(ext[a.len() + y] == b[y]);
    lemma_tools_die(s, cur.units());
    assert forall|x: int| 0 <= x < ext.len() && (#[trigger] ext[x]).1 == id implies ext[x].2 != Effect::StopShooting by {
        if x < a.len() {
            assert(ext[x] == a[x]);
        } else {
            assert(ext[x] == b[x - a.len()]);
        }
    }
    lemma_consequences_known(map, cur, t0);
    lemma_fold_instant(t0, u0, ext, cur.units());
    let (t, u) = resolution(map, cur, upd);
    assert(t <= k - 1);
    assert(t != t0);
    let z = choose|z: int| 0 <= z < ext.len() && (#[trigger] ext[z]).0 == t;
    assert(t == k - 1);
    assert(effect_at(ext, t, id));
    lemma_fold_stop(t0, u0, ext, cur.units(), id, (k - 1) as u64);
}

} // verus!
