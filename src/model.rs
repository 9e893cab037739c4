//! Time-stamped unit state, snapshots of the world and the timeline of
//! confirmed changes.
//!
//! Time is counted in ticks of a tenth of a time unit; positions are in
//! thousandths of a distance unit, and a velocity is the displacement per tick.
use vstd::prelude::*;
use crate::geometry::Point;
use crate::table::{EID, IdMap, keys_sorted, seq_to_map, seq_has, prefix_has, lemma_entries, lemma_entry, lemma_prefix_step, lemma_prefix_full};

verus! {

/// The id that stands for "no unit".
pub const NULL_ID: EID = 0xffff_ffff;

#[derive(Clone, Copy, PartialEq, Eq, Structural, Debug)]
pub enum Weapon {
    Gun,
}

#[derive(Clone, Copy, PartialEq, Eq, Structural, Debug)]
pub enum Action {
    Mobile,
    Shoot,
    Dead,
}

/// One unit as it stands at `time`. Its position is exact at `time` only;
/// at any other instant it is found by extrapolating with `vel`.
#[derive(Clone, Copy, PartialEq, Eq, Structural, Debug)]
pub struct UnitState {
    pub pos: Point,
    pub vel: Point,
    pub weapon: Weapon,
    pub action: Action,
    pub target_loc: Point,
    pub target_id: EID,
    pub time: u64,
    pub id: EID,
}

/// An integer held to the range of `i32`: coordinates saturate at the edge of
/// the representable arena.
pub open spec fn clamp_i32(v: int) -> i32 {
    if v < i32::MIN {
        i32::MIN
    } else if v > i32::MAX {
        i32::MAX
    } else {
        v as i32
    }
}

/// Where `u` stands at time `t`: `pos + vel * (t - time)`.
pub open spec fn pos_at(u: UnitState, t: u64) -> Point {
    Point {
        x: clamp_i32(u.pos.x + u.vel.x * (t - u.time)),
        y: clamp_i32(u.pos.y + u.vel.y * (t - u.time)),
    }
}

/// `u` carried forward (or back) to time `t`.
pub open spec fn advanced(u: UnitState, t: u64) -> UnitState {
    UnitState { pos: pos_at(u, t), time: t, ..u }
}

/// Every unit of `m` carried to time `t`.
pub open spec fn extrapolated(m: Map<EID, UnitState>, t: u64) -> Map<EID, UnitState> {
    m.map_values(|u: UnitState| advanced(u, t))
}

/// The pairs of a table with every unit carried to time `t`.
pub open spec fn extrapolated_entries(s: Seq<(EID, UnitState)>, t: u64) -> Seq<(EID, UnitState)> {
    s.map_values(|e: (EID, UnitState)| (e.0, advanced(e.1, t)))
}

/// Carrying a unit to the time it already stands at changes nothing.
pub proof fn lemma_update_pos_idempotent(u: UnitState, t: u64)
    ensures
        advanced(advanced(u, t), t) == advanced(u, t),
{
    let v = advanced(u, t);
    let (a, b, dt) = (v.vel.x as int, v.vel.y as int, t - v.time);
    assert(dt == 0);
    assert(a * dt == 0 && b * dt == 0) by (nonlinear_arith)
        requires
            dt == 0,
    ;
}

proof fn lemma_motion_bound(p: int, v: int, dt: int)
    requires
        i32::MIN <= p <= i32::MAX,
        i32::MIN <= v <= i32::MAX,
        -0x1_0000_0000_0000_0000 < dt < 0x1_0000_0000_0000_0000,
    ensures
        -0x1_0000_0000_0000_0000_0000_0000 < v * dt < 0x1_0000_0000_0000_0000_0000_0000,
{
    assert(-0x1_0000_0000_0000_0000_0000_0000 < v * dt < 0x1_0000_0000_0000_0000_0000_0000)
        by (nonlinear_arith)
        requires
            i32::MIN <= v <= i32::MAX,
            -0x1_0000_0000_0000_0000 < dt < 0x1_0000_0000_0000_0000,
    ;
}

fn clamp_coord(v: i128) -> (r: i32)
    ensures
        r == clamp_i32(v as int),
{
    if v < i32::MIN as i128 {
        i32::MIN
    } else if v > i32::MAX as i128 {
        i32::MAX
    } else {
        v as i32
    }
}

impl UnitState {
    /// Carries the unit to `new_time`: the position moves by
    /// `vel * (new_time - time)` and `time` becomes `new_time`.
    pub fn update_pos(&mut self, new_time: u64)
        ensures
            *final(self) == advanced(*old(self), new_time),
    {
        let dt: i128 = new_time as i128 - self.time as i128;
        proof {
            lemma_motion_bound(self.pos.x as int, self.vel.x as int, dt as int);
            lemma_motion_bound(self.pos.y as int, self.vel.y as int, dt as int);
        }
        let x = clamp_coord(self.pos.x as i128 + self.vel.x as i128 * dt);
        let y = clamp_coord(self.pos.y as i128 + self.vel.y as i128 * dt);
        self.pos = Point { x, y };
        self.time = new_time;
    }
}

/// The world, or the changed part of it, at one instant.
pub struct Snapshot {
    pub time: u64,
    pub states: IdMap<UnitState>,
}

impl Snapshot {
    /// The table is well formed and each unit is filed under its own id.
    pub open spec fn wf(&self) -> bool {
        &&& self.states.wf()
        &&& forall|k: EID| #[trigger] self.states@.contains_key(k) ==> self.states@[k].id == k
    }

    pub open spec fn units(&self) -> Map<EID, UnitState> {
        self.states@
    }

    pub fn new() -> (r: Self)
        ensures
            r.wf(),
            r.time == 0,
            r.units() == Map::<EID, UnitState>::empty(),
    {
        Snapshot::with_time(0)
    }

    pub fn with_time(time: u64) -> (r: Self)
        ensures
            r.wf(),
            r.time == time,
            r.units() == Map::<EID, UnitState>::empty(),
    {
        Snapshot { time, states: IdMap::new() }
    }

    /// A copy of the snapshot.
    pub fn duplicate(&self) -> (r: Self)
        ensures
            r.time == self.time,
            r.units() == self.units(),
            r.states.entries() == self.states.entries(),
    {
        Snapshot { time: self.time, states: self.states.copied() }
    }

    /// Files `state` under its id, replacing what was there, and returns the
    /// replaced state.
    pub fn insert(&mut self, state: UnitState) -> (r: Option<UnitState>)
        requires
            old(self).wf(),
        ensures
            final(self).wf(),
            final(self).time == old(self).time,
            final(self).units() == old(self).units().insert(state.id, state),
            r == (if old(self).units().contains_key(state.id) {
                Some(old(self).units()[state.id])
            } else {
                None
            }),
    {
        let prev = match self.states.get(state.id) {
            Some(u) => Some(*u),
            None => None,
        };
        self.states.insert(state.id, state);
        prev
    }

    /// Overwrites this snapshot's entries with every unit of `other`.
    pub fn copy_units(&mut self, other: &Snapshot)
        requires
            old(self).wf(),
            other.wf(),
        ensures
            final(self).wf(),
            final(self).time == old(self).time,
            final(self).units() == old(self).units().union_prefer_right(other.units()),
    {
        let ghost s = other.states.entries();
        proof {
            lemma_entries(s);
        }
        let mut i: usize = 0;
        while i < other.states.len()
            invariant
                self.wf(),
                other.wf(),
                s == other.states.entries(),
                i <= s.len(),
                self.time == old(self).time,
                forall|k: EID| #[trigger]
                    self.units().contains_key(k) == (old(self).units().contains_key(k) || prefix_has(s, i as int, k)),
                forall|k: EID| #[trigger]
                    self.units().contains_key(k) ==> self.units()[k] == (if prefix_has(s, i as int, k) {
                        other.units()[k]
                    } else {
                        old(self).units()[k]
                    }),
            decreases s.len() - i,
        {
            let u = *other.states.value_at(i);
            proof {
                lemma_entry(s, i as int);
                assert(other.units().contains_key(s[i as int].0));
                assert(u.id == s[i as int].0);
            }
            proof {
                lemma_prefix_step(s, i as int);
            }
            self.insert(u);
            i = i + 1;
        }
        proof {
            lemma_prefix_full(s);
        }
        assert(self.units() =~= old(self).units().union_prefer_right(other.units()));
    }

    /// Carries every unit to `t`, keeping the order of the table.
    pub fn extrapolate(&mut self, t: u64)
        requires
            old(self).wf(),
        ensures
            final(self).wf(),
            final(self).time == old(self).time,
            final(self).units() == extrapolated(old(self).units(), t),
            final(self).states.entries() == extrapolated_entries(old(self).states.entries(), t),
    {
        let ghost s = self.states.entries();
        let ghost m = self.units();
        proof {
            lemma_entries(s);
        }
        let mut i: usize = 0;
        while i < self.states.len()
            invariant
                self.states.wf(),
                self.time == old(self).time,
                s == old(self).states.entries(),
                m == old(self).units(),
                i <= s.len(),
                self.states.entries().len() == s.len(),
                forall|j: int| 0 <= j < i ==> #[trigger] self.states.entries()[j] == (s[j].0, advanced(s[j].1, t)),
                forall|j: int| i <= j < s.len() ==> #[trigger] self.states.entries()[j] == s[j],
            decreases s.len() - i,
        {
            let mut u = *self.states.value_at(i);
            u.update_pos(t);
            self.states.set_value(i, u);
            i = i + 1;
        }
        let ghost s1 = self.states.entries();
        assert(s1 =~= extrapolated_entries(s, t));
        proof {
            lemma_entries(s1);
            assert forall|k: EID| #[trigger] self.units().contains_key(k) == m.contains_key(k) by {
                if seq_has(s1, k) {
                    let j = choose|j: int| 0 <= j < s1.len() && s1[j].0 == k;
                    assert(s[j].0 == k);
                    assert(seq_has(s, k));
                }
                if seq_has(s, k) {
                    let j = choose|j: int| 0 <= j < s.len() && s[j].0 == k;
                    assert(s1[j].0 == k);
                    assert(seq_has(s1, k));
                }
            }
            assert forall|k: EID| #[trigger] self.units().contains_key(k) implies self.units()[k] == advanced(m[k], t)
                && self.units()[k].id == k by {
                let j = choose|j: int| 0 <= j < s1.len() && s1[j].0 == k;
                assert(s[j].0 == k);
            }
        }
        assert(self.units() =~= extrapolated(m, t));
    }
}

/// Bucket times strictly ascending along the sequence.
pub open spec fn times_sorted(s: Seq<Snapshot>) -> bool {
    forall|i: int, j: int| 0 <= i < j < s.len() ==> s[i].time < s[j].time
}

pub open spec fn seq_has_time(s: Seq<Snapshot>, t: u64) -> bool {
    exists|i: int| 0 <= i < s.len() && s[i].time == t
}

/// The map from time to the units changed at that time that a sequence of
/// buckets stands for.
pub open spec fn buckets_to_map(s: Seq<Snapshot>) -> Map<u64, Map<EID, UnitState>> {
    Map::new(
        |t: u64| seq_has_time(s, t),
        |t: u64| s[choose|i: int| 0 <= i < s.len() && s[i].time == t].units(),
    )
}

pub proof fn lemma_bucket(s: Seq<Snapshot>, i: int)
    requires
        times_sorted(s),
        0 <= i < s.len(),
    ensures
        buckets_to_map(s).contains_key(s[i].time),
        buckets_to_map(s)[s[i].time] == s[i].units(),
{
    assert(seq_has_time(s, s[i].time));
    let j = choose|j: int| 0 <= j < s.len() && s[j].time == s[i].time;
    assert(j == i);
}

/// The states `upd` filed by time, a later state of one unit at one time
/// replacing an earlier one.
pub open spec fn filed(upd: Seq<UnitState>) -> Map<u64, Map<EID, UnitState>>
    decreases upd.len(),
{
    if upd.len() == 0 {
        Map::empty()
    } else {
        let m = filed(upd.drop_last());
        let u = upd.last();
        m.insert(
            u.time,
            (if m.contains_key(u.time) {
                m[u.time]
            } else {
                Map::<EID, UnitState>::empty()
            }).insert(u.id, u),
        )
    }
}

/// The ledger of confirmed changes: delta snapshots ordered by time, no two
/// at the same time.
pub struct Timeline {
    snapshots: Vec<Snapshot>,
}

impl View for Timeline {
    type V = Map<u64, Map<EID, UnitState>>;

    open spec fn view(&self) -> Map<u64, Map<EID, UnitState>> {
        buckets_to_map(self.buckets())
    }
}

impl Timeline {
    /// The buckets in ascending time order.
    pub closed spec fn buckets(&self) -> Seq<Snapshot> {
        self.snapshots@
    }

    pub open spec fn wf(&self) -> bool {
        &&& times_sorted(self.buckets())
        &&& forall|i: int| 0 <= i < self.buckets().len() ==> (#[trigger] self.buckets()[i]).wf()
    }

    pub fn new() -> (r: Self)
        ensures
            r.wf(),
            r.buckets().len() == 0,
            r@ == Map::<u64, Map<EID, UnitState>>::empty(),
    {
        let r = Timeline { snapshots: Vec::new() };
        assert(r@ =~= Map::<u64, Map<EID, UnitState>>::empty());
        r
    }

    pub fn len(&self) -> (r: usize)
        ensures
            r == self.buckets().len(),
    {
        self.snapshots.len()
    }

    pub fn bucket_at(&self, i: usize) -> (r: &Snapshot)
        requires
            i < self.buckets().len(),
        ensures
            *r == self.buckets()[i as int],
    {
        &self.snapshots[i]
    }

    /// The position of the bucket at time `t`, or where it would go.
    fn position(&self, t: u64) -> (r: usize)
        requires
            self.wf(),
        ensures
            r <= self.buckets().len(),
            forall|j: int| 0 <= j < r ==> self.buckets()[j].time < t,
            r < self.buckets().len() ==> self.buckets()[r as int].time >= t,
    {
        let mut i: usize = 0;
        while i < self.snapshots.len() && self.snapshots[i].time < t
            invariant
                i <= self.snapshots@.len(),
                forall|j: int| 0 <= j < i ==> self.snapshots@[j].time < t,
            decreases self.snapshots@.len() - i,
        {
            i = i + 1;
        }
        i
    }

    /// Puts `b` in place of the bucket at its time, or adds it.
    pub fn insert_snapshot(&mut self, b: Snapshot)
        requires
            old(self).wf(),
            b.wf(),
        ensures
            final(self).wf(),
            final(self)@ == old(self)@.insert(b.time, b.units()),
    {
        let ghost s0 = self.buckets();
        let ghost t = b.time;
        let ghost bu = b.units();
        proof {
            assert forall|j: int| 0 <= j < s0.len() implies #[trigger] buckets_to_map(s0).contains_key(s0[j].time)
                && buckets_to_map(s0)[s0[j].time] == s0[j].units() by {
                lemma_bucket(s0, j);
            }
        }
        let i = self.position(b.time);
        if i < self.snapshots.len() && self.snapshots[i].time == b.time {
            self.snapshots.set(i, b);
            let ghost s1 = self.buckets();
            assert(s1 == s0.update(i as int, b));
            assert(times_sorted(s1));
            proof {
                assert forall|j: int| 0 <= j < s1.len() implies #[trigger] buckets_to_map(s1).contains_key(s1[j].time)
                    && buckets_to_map(s1)[s1[j].time] == s1[j].units() by {
                    lemma_bucket(s1, j);
                }
            }
            assert forall|tt: u64| #[trigger] self@.contains_key(tt) == old(self)@.insert(t, bu).contains_key(tt)
                && (self@.contains_key(tt) ==> self@[tt] == old(self)@.insert(t, bu)[tt]) by {
                if tt == t {
                    assert(s1[i as int].time == t);
                } else {
                    if seq_has_time(s1, tt) {
                        let j = choose|j: int| 0 <= j < s1.len() && s1[j].time == tt;
                        assert(s0[j] == s1[j]);
                    }
                    if seq_has_time(s0, tt) {
                        let j = choose|j: int| 0 <= j < s0.len() && s0[j].time == tt;
                        assert(s0[j] == s1[j]);
                    }
                }
            }
            assert(self@ =~= old(self)@.insert(t, bu));
        } else {
            self.snapshots.insert(i, b);
            let ghost s1 = self.buckets();
            assert(s1 == s0.insert(i as int, b));
            assert(times_sorted(s1)) by {
                assert forall|a: int, c: int| 0 <= a < c < s1.len() implies s1[a].time < s1[c].time by {
                    if c < i {
                    } else if a > i {
                        assert(s1[a] == s0[a - 1]);
                        assert(s1[c] == s0[c - 1]);
                    } else if a == i {
                        assert(s1[c] == s0[c - 1]);
                        assert(s0[i as int].time >= t);
                        assert(s0[i as int].time != t);
                        if c - 1 > i {
                            assert(s0[i as int].time < s0[c - 1].time);
                        }
                    } else {
                        if c != i {
                            assert(s1[c] == s0[c - 1]);
                        }
                    }
                }
            }
            proof {
                assert forall|j: int| 0 <= j < s1.len() implies #[trigger] buckets_to_map(s1).contains_key(s1[j].time)
                    && buckets_to_map(s1)[s1[j].time] == s1[j].units() by {
                    lemma_bucket(s1, j);
                }
            }
            assert forall|tt: u64| #[trigger] self@.contains_key(tt) == old(self)@.insert(t, bu).contains_key(tt)
                && (self@.contains_key(tt) ==> self@[tt] == old(self)@.insert(t, bu)[tt]) by {
                if tt == t {
                    assert(s1[i as int].time == t);
                } else {
                    if seq_has_time(s1, tt) {
                        let j = choose|j: int| 0 <= j < s1.len() && s1[j].time == tt;
                        if j < i {
                            assert(s0[j] == s1[j]);
                        } else {
                            assert(s0[j - 1] == s1[j]);
                        }
                    }
                    if seq_has_time(s0, tt) {
                        let j = choose|j: int| 0 <= j < s0.len() && s0[j].time == tt;
                        if j < i {
                            assert(s0[j] == s1[j]);
                        } else {
                            assert(s0[j] == s1[j + 1]);
                        }
                    }
                }
            }
            assert(self@ =~= old(self)@.insert(t, bu));
        }
    }

    /// Files `state` in the bucket at its own time, creating the bucket if
    /// there is none, and returns the state it replaced there.
    pub fn insert(&mut self, state: UnitState) -> (r: Option<UnitState>)
        requires
            old(self).wf(),
        ensures
            final(self).wf(),
            final(self)@ == old(self)@.insert(
                state.time,
                (if old(self)@.contains_key(state.time) {
                    old(self)@[state.time]
                } else {
                    Map::<EID, UnitState>::empty()
                }).insert(state.id, state),
            ),
            r == (if old(self)@.contains_key(state.time) && old(self)@[state.time].contains_key(state.id) {
                Some(old(self)@[state.time][state.id])
            } else {
                None
            }),
    {
        let ghost s0 = self.buckets();
        let i = self.position(state.time);
        if i < self.snapshots.len() && self.snapshots[i].time == state.time {
            let mut b = self.snapshots[i].duplicate();
            proof {
                lemma_bucket(s0, i as int);
            }
            let r = b.insert(state);
            self.insert_snapshot(b);
            r
        } else {
            proof {
                if seq_has_time(s0, state.time) {
                    let j = choose|j: int| 0 <= j < s0.len() && s0[j].time == state.time;
                    if j >= i {
                        if j > i {
                            assert(s0[i as int].time < s0[j].time);
                        }
                    }
                }
            }
            let mut b = Snapshot::with_time(state.time);
            b.insert(state);
            self.insert_snapshot(b);
            None
        }
    }

    /// A timeline holding `states`, each filed at its own time.
    pub fn from_states(states: &Vec<UnitState>) -> (r: Self)
        ensures
            r.wf(),
            r@ == filed(states@),
    {
        let mut result = Timeline::new();
        let mut i: usize = 0;
        assert(states@.subrange(0, 0) =~= Seq::<UnitState>::empty());
        while i < states.len()
            invariant
                i <= states@.len(),
                result.wf(),
                result@ == filed(states@.subrange(0, i as int)),
            decreases states@.len() - i,
        {
            assert(states@.subrange(0, i + 1).drop_last() =~= states@.subrange(0, i as int));
            result.insert(states[i]);
            i = i + 1;
        }
        assert(states@.subrange(0, states@.len() as int) =~= states@);
        result
    }

    /// Takes out the earliest bucket, or an empty snapshot at time 0 when there
    /// is none.
    pub fn first(self) -> (r: Snapshot)
        requires
            self.wf(),
        ensures
            r.wf(),
            self@.dom().len() == 0 ==> r.time == 0 && r.units() == Map::<EID, UnitState>::empty(),
            self@.dom().len() > 0 ==> self@.contains_key(r.time) && r.units() == self@[r.time]
                && forall|t: u64| #[trigger] self@.contains_key(t) ==> r.time <= t,
    {
        let ghost s = self.buckets();
        proof {
            self.lemma_dom();
        }
        if self.snapshots.len() == 0 {
            Snapshot::new()
        } else {
            proof {
                lemma_bucket(s, 0);
                assert forall|t: u64| #[trigger] self@.contains_key(t) implies s[0].time <= t by {
                    let j = choose|j: int| 0 <= j < s.len() && s[j].time == t;
                    if j > 0 {
                        assert(s[0].time < s[j].time);
                    }
                }
            }
            let mut v = self.snapshots;
            v.remove(0)
        }
    }

    pub proof fn lemma_dom(&self)
        requires
            self.wf(),
        ensures
            self@.dom().finite(),
            (self@.dom().len() == 0) == (self.buckets().len() == 0),
    {
        let s = self.buckets();
        let ts = s.map_values(|b: Snapshot| b.time);
        assert forall|t: u64| self@.dom().contains(t) <==> ts.to_set().contains(t) by {
            if self@.dom().contains(t) {
                let i = choose|i: int| 0 <= i < s.len() && s[i].time == t;
                assert(ts[i] == t);
            }
            if ts.to_set().contains(t) {
                let i = choose|i: int| 0 <= i < ts.len() && ts[i] == t;
                assert(s[i].time == t);
                assert(seq_has_time(s, t));
            }
        }
        assert(self@.dom() =~= ts.to_set());
        assert(ts.no_duplicates()) by {
            assert forall|i: int, j: int| 0 <= i < ts.len() && 0 <= j < ts.len() && i != j implies ts[i]
                != ts[j] by {
                if i < j {
                    assert(s[i].time < s[j].time);
                } else {
                    assert(s[j].time < s[i].time);
                }
            }
        }
        ts.unique_seq_to_set();
    }
}

/// `m` after every bucket of `bs` whose time lies in (lo, hi] has, in order,
/// overwritten the entries it holds.
pub open spec fn catch_up(m: Map<EID, UnitState>, bs: Seq<Snapshot>, lo: u64, hi: u64) -> Map<
    EID,
    UnitState,
>
    decreases bs.len(),
{
    if bs.len() == 0 {
        m
    } else {
        let prev = catch_up(m, bs.drop_last(), lo, hi);
        let b = bs.last();
        if lo < b.time && b.time <= hi {
            prev.union_prefer_right(b.units())
        } else {
            prev
        }
    }
}

/// The world at `t` that replay gives from `s` and `tl`: catch up on the
/// buckets after `s.time` up to `t`, then carry every unit to `t`.
pub open spec fn replayed(s: Snapshot, tl: Timeline, t: u64) -> Map<EID, UnitState> {
    extrapolated(catch_up(s.units(), tl.buckets(), s.time, t), t)
}

impl Snapshot {
    /// Catches up on the buckets of `timeline` with time in
    /// (`self.time`, `new_time`], in time order, and moves `time` to
    /// `new_time`. Positions are left as they were recorded.
    pub fn update_precise(&mut self, timeline: &Timeline, new_time: u64)
        requires
            old(self).wf(),
            timeline.wf(),
            old(self).time <= new_time,
        ensures
            final(self).wf(),
            final(self).time == new_time,
            final(self).units() == catch_up(old(self).units(), timeline.buckets(), old(self).time, new_time),
    {
        let lo = self.time;
        let ghost bs = timeline.buckets();
        let mut i: usize = 0;
        assert(bs.subrange(0, 0) =~= Seq::<Snapshot>::empty());
        while i < timeline.len()
            invariant
                self.wf(),
                timeline.wf(),
                bs == timeline.buckets(),
                i <= bs.len(),
                self.time == lo,
                lo == old(self).time,
                self.units() == catch_up(old(self).units(), bs.subrange(0, i as int), lo, new_time),
            decreases bs.len() - i,
        {
            let b = timeline.bucket_at(i);
            assert(bs.subrange(0, i + 1).drop_last() =~= bs.subrange(0, i as int));
            assert(bs.subrange(0, i + 1).last() == bs[i as int]);
            if lo < b.time && b.time <= new_time {
                self.copy_units(b);
            }
            i = i + 1;
        }
        assert(bs.subrange(0, bs.len() as int) =~= bs);
        self.time = new_time;
    }

    /// The world at `new_time`, no earlier than the snapshot's time: catch up
    /// on `timeline`, then carry every unit to `new_time`.
    pub fn update(&mut self, timeline: &Timeline, new_time: u64)
        requires
            old(self).wf(),
            timeline.wf(),
            old(self).time <= new_time,
        ensures
            final(self).wf(),
            final(self).time == new_time,
            final(self).units() == replayed(*old(self), *timeline, new_time),
    {
        self.update_precise(timeline, new_time);
        self.extrapolate(new_time);
    }
}

/// The states recorded in one bucket, each with the bucket's time, in id
/// order.
pub open spec fn bucket_events(b: Snapshot) -> Seq<(u64, UnitState)> {
    b.states.entries().map_values(|e: (EID, UnitState)| (b.time, e.1))
}

/// Every recorded state of the buckets `bs`, in time order.
pub open spec fn event_log(bs: Seq<Snapshot>) -> Seq<(u64, UnitState)>
    decreases bs.len(),
{
    if bs.len() == 0 {
        Seq::empty()
    } else {
        event_log(bs.drop_last()) + bucket_events(bs.last())
    }
}

/// `m` after each event of `log` recorded in (lo, hi], in order, has
/// overwritten the state of its unit.
pub open spec fn fold_log(m: Map<EID, UnitState>, log: Seq<(u64, UnitState)>, lo: u64, hi: u64) -> Map<
    EID,
    UnitState,
>
    decreases log.len(),
{
    if log.len() == 0 {
        m
    } else {
        let prev = fold_log(m, log.drop_last(), lo, hi);
        let (t, u) = log.last();
        if lo < t && t <= hi {
            prev.insert(u.id, u)
        } else {
            prev
        }
    }
}

proof fn lemma_fold_log_concat(m: Map<EID, UnitState>, a: Seq<(u64, UnitState)>, b: Seq<(u64, UnitState)>, lo: u64, hi: u64)
    ensures
        fold_log(m, a + b, lo, hi) == fold_log(fold_log(m, a, lo, hi), b, lo, hi),
    decreases b.len(),
{
    if b.len() == 0 {
        assert(a + b =~= a);
    } else {
        assert((a + b).drop_last() =~= a + b.drop_last());
        assert((a + b).last() == b.last());
        lemma_fold_log_concat(m, a, b.drop_last(), lo, hi);
    }
}

proof fn lemma_prefix_map<V>(s: Seq<(EID, V)>, n: int)
    requires
        keys_sorted(s),
        0 <= n < s.len(),
    ensures
        seq_to_map(s.subrange(0, n + 1)) == seq_to_map(s.subrange(0, n)).insert(s[n].0, s[n].1),
{
    let a = s.subrange(0, n);
    let b = s.subrange(0, n + 1);
    lemma_entries(a);
    lemma_entries(b);
    assert forall|k: EID| #[trigger] seq_to_map(b).contains_key(k) == seq_to_map(a).insert(s[n].0, s[n].1).contains_key(k)
        && (seq_to_map(b).contains_key(k) ==> seq_to_map(b)[k] == seq_to_map(a).insert(s[n].0, s[n].1)[k]) by {
        if k == s[n].0 {
            assert(b[n] == s[n]);
        } else {
            if seq_has(b, k) {
                let i = choose|i: int| 0 <= i < b.len() && b[i].0 == k;
                assert(a[i] == b[i]);
            }
            if seq_has(a, k) {
                let i = choose|i: int| 0 <= i < a.len() && a[i].0 == k;
                assert(a[i] == b[i]);
            }
        }
    }
    assert(seq_to_map(b) =~= seq_to_map(a).insert(s[n].0, s[n].1));
}

proof fn lemma_bucket_fold(m: Map<EID, UnitState>, b: Snapshot, lo: u64, hi: u64)
    requires
        b.wf(),
    ensures
        fold_log(m, bucket_events(b), lo, hi) == (if lo < b.time && b.time <= hi {
            m.union_prefer_right(b.units())
        } else {
            m
        }),
{
    let s = b.states.entries();
    let ev = bucket_events(b);
    assert forall|n: int| 0 <= n <= s.len() implies fold_log(m, #[trigger] ev.subrange(0, n), lo, hi) == (if lo < b.time
        && b.time <= hi {
        m.union_prefer_right(seq_to_map(s.subrange(0, n)))
    } else {
        m
    }) by {
        lemma_bucket_fold_prefix(m, b, lo, hi, n);
    }
    assert(ev.subrange(0, s.len() as int) =~= ev);
    assert(s.subrange(0, s.len() as int) =~= s);
}

proof fn lemma_bucket_fold_prefix(m: Map<EID, UnitState>, b: Snapshot, lo: u64, hi: u64, n: int)
    requires
        b.wf(),
        0 <= n <= b.states.entries().len(),
    ensures
        fold_log(m, bucket_events(b).subrange(0, n), lo, hi) == (if lo < b.time && b.time <= hi {
            m.union_prefer_right(seq_to_map(b.states.entries().subrange(0, n)))
        } else {
            m
        }),
    decreases n,
{
    let s = b.states.entries();
    let ev = bucket_events(b);
    if n == 0 {
        assert(ev.subrange(0, 0) =~= Seq::<(u64, UnitState)>::empty());
        assert(seq_to_map(s.subrange(0, 0)) =~= Map::<EID, UnitState>::empty());
        assert(m.union_prefer_right(Map::<EID, UnitState>::empty()) =~= m);
    } else {
        lemma_bucket_fold_prefix(m, b, lo, hi, n - 1);
        assert(ev.subrange(0, n).drop_last() =~= ev.subrange(0, n - 1));
        assert(ev.subrange(0, n).last() == (b.time, s[n - 1].1));
        lemma_prefix_map(s, n - 1);
        lemma_entry(s, n - 1);
        assert(b.units().contains_key(s[n - 1].0));
        assert(s[n - 1].1.id == s[n - 1].0);
        if lo < b.time && b.time <= hi {
            let p = seq_to_map(s.subrange(0, n - 1));
            assert(m.union_prefer_right(p).insert(s[n - 1].0, s[n - 1].1) =~= m.union_prefer_right(
                p.insert(s[n - 1].0, s[n - 1].1),
            ));
        }
    }
}

proof fn lemma_catch_up_is_fold(m: Map<EID, UnitState>, bs: Seq<Snapshot>, lo: u64, hi: u64)
    requires
        forall|i: int| 0 <= i < bs.len() ==> (#[trigger] bs[i]).wf(),
    ensures
        catch_up(m, bs, lo, hi) == fold_log(m, event_log(bs), lo, hi),
    decreases bs.len(),
{
    if bs.len() > 0 {
        let d = bs.drop_last();
        assert forall|i: int| 0 <= i < d.len() implies (#[trigger] d[i]).wf() by {
            assert(d[i] == bs[i]);
        }
        lemma_catch_up_is_fold(m, d, lo, hi);
        lemma_fold_log_concat(m, event_log(d), bucket_events(bs.last()), lo, hi);
        assert(bs[bs.len() - 1].wf());
        lemma_bucket_fold(catch_up(m, d, lo, hi), bs.last(), lo, hi);
    }
}

/// Replaying a timeline from a snapshot to time `t` gives the same world as
/// folding the timeline's whole event log in time order: every state
/// recorded after the snapshot's time and no later than `t` overwrites its
/// unit in turn, and then every unit is carried to `t`.
pub proof fn lemma_replay_is_log_fold(s: Snapshot, tl: Timeline, t: u64)
    requires
        s.wf(),
        tl.wf(),
    ensures
        replayed(s, tl, t) == extrapolated(fold_log(s.units(), event_log(tl.buckets()), s.time, t), t),
{
    lemma_catch_up_is_fold(s.units(), tl.buckets(), s.time, t);
}

} // verus!
