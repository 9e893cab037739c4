//! The client: plan queues, the guess of this round's moves, and the repair of
//! its beliefs against the authority's outcome.
use vstd::prelude::*;
use crate::command::{Command, dist_sq, duration_of, ended, inferred, started};
use crate::geometry::{Point, Walls};
use crate::model::{NULL_ID, Snapshot, Timeline, UnitState};
use crate::server::{Server, invalid, participants, resolution};
use crate::table::{EID, IdMap, empty_map, lemma_entries, lemma_entry, lemma_prefix_full, lemma_prefix_step, prefix_has, seq_has};

verus! {

/// The command believed in flight for a unit, with its predicted completion
/// time; `None` when idle.
pub type CurrentCommand = Option<(u64, Command)>;

/// Pending commands of each unit, first to run first.
pub type Plan = IdMap<Vec<Command>>;

/// The map of plan queues as sequences.
pub open spec fn plan_view(p: Plan) -> Map<EID, Seq<Command>> {
    p@.map_values(|v: Vec<Command>| v@)
}

proof fn lemma_plan_view_insert(p: Plan, q: Plan, id: EID, v: Vec<Command>)
    requires
        q@ == p@.insert(id, v),
    ensures
        plan_view(q) == plan_view(p).insert(id, v@),
{
    assert(plan_view(q) =~= plan_view(p).insert(id, v@));
}

/// The head of `id`'s queue, if any.
pub open spec fn next_planned(plans: Map<EID, Seq<Command>>, id: EID) -> Option<Command> {
    if plans.contains_key(id) && plans[id].len() > 0 {
        Some(plans[id][0])
    } else {
        None
    }
}

/// `u` after leaving its current command and entering the next planned one.
pub open spec fn stepped(u: UnitState, comm: CurrentCommand, next: Option<Command>) -> UnitState {
    let a = match comm {
        Some((t, c)) => ended(u, c, t),
        None => u,
    };
    match next {
        Some(c) => started(a, c),
        None => a,
    }
}

/// The units that this round's step changes, in their new state.
pub open spec fn moves_of(
    cur: Map<EID, UnitState>,
    comms: Map<EID, CurrentCommand>,
    plans: Map<EID, Seq<Command>>,
) -> Map<EID, UnitState> {
    Map::new(
        |id: EID|
            comms.contains_key(id) && cur.contains_key(id) && stepped(cur[id], comms[id], next_planned(plans, id))
                != cur[id],
        |id: EID| stepped(cur[id], comms[id], next_planned(plans, id)),
    )
}

/// The outcome's state `u` of unit `id` agrees with what was expected of it.
/// A unit left out of the expected moves was expected to stay as `cur` has
/// it; a unit the client knows nothing of agrees.
pub open spec fn agrees(expected: Map<EID, UnitState>, cur: Map<EID, UnitState>, id: EID, u: UnitState) -> bool {
    if expected.contains_key(id) {
        expected[id] == u
    } else if cur.contains_key(id) {
        cur[id] == u
    } else {
        true
    }
}

/// The plan queues after the outcome `out`: a unit that agrees loses the head
/// of its queue, one that does not loses its whole queue.
pub open spec fn plans_after(
    plans: Map<EID, Seq<Command>>,
    expected: Map<EID, UnitState>,
    cur: Map<EID, UnitState>,
    out: Map<EID, UnitState>,
) -> Map<EID, Seq<Command>> {
    Map::new(
        |id: EID| plans.contains_key(id) || (out.contains_key(id) && !agrees(expected, cur, id, out[id])),
        |id: EID|
            if out.contains_key(id) {
                if agrees(expected, cur, id, out[id]) {
                    if plans[id].len() > 0 {
                        plans[id].drop_first()
                    } else {
                        plans[id]
                    }
                } else {
                    Seq::empty()
                }
            } else {
                plans[id]
            },
    )
}

/// The commands in flight after the outcome `out` at time `t`: a unit that
/// agrees runs the head of its queue from `t`; one that does not is given
/// the command inferred from its state.
pub open spec fn commands_after(
    comms: Map<EID, CurrentCommand>,
    plans: Map<EID, Seq<Command>>,
    expected: Map<EID, UnitState>,
    cur: Map<EID, UnitState>,
    out: Map<EID, UnitState>,
    t: u64,
) -> Map<EID, CurrentCommand> {
    Map::new(
        |id: EID| comms.contains_key(id) || out.contains_key(id),
        |id: EID|
            if out.contains_key(id) {
                if agrees(expected, cur, id, out[id]) {
                    match next_planned(plans, id) {
                        Some(c) => Some((t.saturating_add(duration_of(out[id], c)), c)),
                        None => None,
                    }
                } else {
                    inferred(out[id], t.saturating_add(1))
                }
            } else {
                comms[id]
            },
    )
}

/// `after` is `before` once it has taken in the outcome `out` of a round in
/// which it expected `expected`.
pub open spec fn accepted(before: Client, expected: Map<EID, UnitState>, out: Snapshot, after: Client) -> bool {
    &&& after.map == before.map
    &&& after.init == before.init
    &&& after.current.time == out.time.saturating_add(1)
    &&& after.current.units() == before.current.units().union_prefer_right(out.units())
    &&& after.confirmed@ == before.confirmed@.insert(out.time, out.units())
    &&& plan_view(after.plans) == plans_after(plan_view(before.plans), expected, before.current.units(), out.units())
    &&& after.current_commands@ == commands_after(
        before.current_commands@,
        plan_view(before.plans),
        expected,
        before.current.units(),
        out.units(),
        out.time,
    )
}

/// `upd` lists the states of `m`, each once.
pub open spec fn lists(upd: Seq<UnitState>, m: Map<EID, UnitState>) -> bool {
    &&& upd.len() == m.dom().len()
    &&& forall|i: int| 0 <= i < upd.len() ==> m.contains_key(#[trigger] upd[i].id) && m[upd[i].id] == upd[i]
}

/// One preview round that committed something takes the client `before` and
/// the authority `sim` to `after` and `sim_after`: the client's moves, listed
/// in some order, resolve to a non-empty delta, which the authority commits
/// and the client takes in.
pub open spec fn round_step(before: Client, sim: Server, after: Client, sim_after: Server) -> bool {
    exists|upd: Seq<UnitState>, out: Snapshot|
        {
            &&& #[trigger] lists(upd, before.moves())
            &&& (out.time, out.units()) == resolution(sim.map@, sim.current, upd)
            &&& out.units().dom().len() > 0
            &&& sim_after.map == sim.map
            &&& sim_after.current.time == out.time
            &&& sim_after.current.units() == sim.current.units().union_prefer_right(out.units())
            &&& #[trigger] accepted(before, before.moves(), out, after)
        }
}

/// The round from `c` against `sim` commits nothing: some listing of the
/// moves has a taking-part submission rejected, or resolves to an empty delta.
pub open spec fn round_idle(c: Client, sim: Server) -> bool {
    exists|upd: Seq<UnitState>|
        #[trigger] lists(upd, c.moves()) && ((exists|k: EID|
            #[trigger] participants(sim.map@, sim.current, upd).contains_key(k) && invalid(
                sim.map@,
                sim.current.units(),
                participants(sim.map@, sim.current, upd)[k],
            )) || resolution(
            sim.map@,
            sim.current,
            upd,
        ).1.dom().len() == 0)
}

/// `c` starts a preview of `from`: the same beliefs, plans and commands in
/// flight, with nothing confirmed yet.
pub open spec fn preview_start(from: Client, c: Client) -> bool {
    &&& c.wf()
    &&& c.map@ == from.map@
    &&& c.current.time == from.current.time
    &&& c.current.units() == from.current.units()
    &&& c.current_commands@ == from.current_commands@
    &&& plan_view(c.plans) == plan_view(from.plans)
    &&& c.confirmed@ == Map::<u64, Map<EID, UnitState>>::empty()
}

/// `cs` and `ss` are the clients and authorities of a preview of `from`:
/// starting from copies of `from`'s beliefs, each round commits something,
/// and the run ends after `max_rounds` rounds or at a round that commits
/// nothing.
pub open spec fn preview_run(from: Client, cs: Seq<Client>, ss: Seq<Server>, max_rounds: int) -> bool {
    &&& cs.len() == ss.len()
    &&& 1 <= cs.len() <= max_rounds + 1
    &&& preview_start(from, cs[0])
    &&& ss[0].current.time == from.current.time
    &&& ss[0].current.units() == from.current.units()
    &&& ss[0].map@ == from.map@
    &&& forall|i: int| 0 <= i < cs.len() - 1 ==> #[trigger] round_step(cs[i], ss[i], cs[i + 1], ss[i + 1])
    &&& cs.len() <= max_rounds ==> round_idle(cs.last(), ss.last())
}

/// Copies a queue of commands.
fn copy_commands(v: &Vec<Command>) -> (r: Vec<Command>)
    ensures
        r@ == v@,
{
    let mut r: Vec<Command> = Vec::new();
    let mut i: usize = 0;
    while i < v.len()
        invariant
            i <= v@.len(),
            r@ == v@.subrange(0, i as int),
        decreases v@.len() - i,
    {
        r.push(v[i]);
        i = i + 1;
        assert(r@ =~= v@.subrange(0, i as int));
    }
    assert(r@ =~= v@);
    r
}

/// Copies a table of queues.
pub fn copy_plan(p: &Plan) -> (r: Plan)
    requires
        p.wf(),
    ensures
        r.wf(),
        plan_view(r) == plan_view(*p),
{
    let ghost s = p.entries();
    proof {
        lemma_entries(s);
    }
    let mut r: Plan = IdMap::new();
    let mut i: usize = 0;
    while i < p.len()
        invariant
            p.wf(),
            s == p.entries(),
            i <= s.len(),
            r.wf(),
            forall|k: EID| #[trigger] r@.contains_key(k) == prefix_has(s, i as int, k),
            forall|k: EID| #[trigger] r@.contains_key(k) ==> r@[k]@ == p@[k]@,
        decreases s.len() - i,
    {
        let k = p.key_at(i);
        let q = copy_commands(p.value_at(i));
        proof {
            lemma_entry(s, i as int);
            lemma_prefix_step(s, i as int);
        }
        r.insert(k, q);
        i = i + 1;
    }
    proof {
        lemma_prefix_full(s);
    }
    assert(plan_view(r) =~= plan_view(*p));
    r
}

/// The client's side of a session.
pub struct Client {
    pub map: Walls,
    pub init: Snapshot,
    pub confirmed: Timeline,
    pub current: Snapshot,
    pub current_commands: IdMap<CurrentCommand>,
    pub plans: Plan,
}

impl Client {
    /// A client that starts from `init`, idle, with empty queues.
    pub fn new(init: Snapshot, map: Walls) -> (r: Self)
        requires
            init.wf(),
        ensures
            r.wf(),
            r.map == map,
            r.init == init,
            r.confirmed@ == Map::<u64, Map<EID, UnitState>>::empty(),
            r.current.time == init.time,
            r.current.units() == init.units(),
            r.current_commands@ == init.units().map_values(|u: UnitState| None::<(u64, Command)>),
            plan_view(r.plans) == init.units().map_values(|u: UnitState| Seq::<Command>::empty()),
    {
        let confirmed = Timeline::new();
        let current = init.duplicate();
        let current_commands: IdMap<CurrentCommand> = empty_map(&init.states);
        let plans: Plan = empty_map(&init.states);
        assert(current_commands@ =~= init.units().map_values(|u: UnitState| None::<(u64, Command)>));
        assert(plan_view(plans) =~= init.units().map_values(|u: UnitState| Seq::<Command>::empty()));
        Client { map, init, confirmed, current, current_commands, plans }
    }

    pub open spec fn wf(&self) -> bool {
        &&& self.init.wf()
        &&& self.confirmed.wf()
        &&& self.current.wf()
        &&& self.current_commands.wf()
        &&& self.plans.wf()
    }

    /// The next moves this client would submit for its own state.
    pub open spec fn moves(&self) -> Map<EID, UnitState> {
        moves_of(self.current.units(), self.current_commands@, plan_view(self.plans))
    }

    /// Steps every unit that has a current-command entry: leave the command
    /// in flight at its completion time, enter the head of the queue, and keep
    /// the unit if that changed it.
    pub fn next_moves(&self) -> (r: IdMap<UnitState>)
        requires
            self.wf(),
        ensures
            r.wf(),
            r@ == self.moves(),
    {
        let ghost s = self.current_commands.entries();
        let ghost cur = self.current.units();
        let ghost comms = self.current_commands@;
        let ghost plans = plan_view(self.plans);
        proof {
            lemma_entries(s);
        }
        let mut moves: IdMap<UnitState> = IdMap::new();
        let mut i: usize = 0;
        while i < self.current_commands.len()
            invariant
                self.wf(),
                s == self.current_commands.entries(),
                cur == self.current.units(),
                comms == self.current_commands@,
                plans == plan_view(self.plans),
                i <= s.len(),
                moves.wf(),
                forall|k: EID| #[trigger]
                    moves@.contains_key(k) == (prefix_has(s, i as int, k) && moves_of(cur, comms, plans).contains_key(k)),
                forall|k: EID| #[trigger] moves@.contains_key(k) ==> moves@[k] == moves_of(cur, comms, plans)[k],
            decreases s.len() - i,
        {
            let id = self.current_commands.key_at(i);
            let comm = *self.current_commands.value_at(i);
            proof {
                lemma_entry(s, i as int);
                lemma_prefix_step(s, i as int);
            }
            match self.current.states.get(id) {
                Some(old_state) => {
                    let old_state = *old_state;
                    let mut state = old_state;
                    let new_comm = match self.plans.get(id) {
                        Some(q) => if q.len() > 0 {
                            Some(q[0])
                        } else {
                            None
                        },
                        None => None,
                    };
                    assert(new_comm == next_planned(plans, id));
                    match comm {
                        Some((time, c)) => {
                            state.command_end(c, time);
                        },
                        None => {},
                    }
                    match new_comm {
                        Some(c) => {
                            state.command_start(c);
                        },
                        None => {},
                    }
                    assert(state == stepped(old_state, comm, new_comm));
                    if state != old_state {
                        moves.insert(id, state);
                    }
                },
                None => {},
            }
            i = i + 1;
        }
        proof {
            lemma_prefix_full(s);
        }
        assert(moves@ =~= moves_of(cur, comms, plans));
        moves
    }

    /// Takes in the authority's outcome for a round in which this client
    /// expected `expected`. The confirmed cursor moves one tick past the
    /// outcome and the outcome joins the confirmed timeline. Each unit of the
    /// outcome replaces the client's belief; where it agrees with the
    /// expectation (a unit left out of `expected` was expected unchanged), the head of its queue (if any) becomes its command in
    /// flight, ending its duration after the outcome's time; where it does
    /// not, its queue is dropped and its command is inferred from its state.
    pub fn accept_outcome(&mut self, expected: &IdMap<UnitState>, outcome: &Snapshot)
        requires
            old(self).wf(),
            expected.wf(),
            outcome.wf(),
        ensures
            final(self).wf(),
            final(self).map == old(self).map,
            final(self).init == old(self).init,
            final(self).current.time == outcome.time.saturating_add(1),
            final(self).current.units() == old(self).current.units().union_prefer_right(outcome.units()),
            final(self).confirmed@ == old(self).confirmed@.insert(outcome.time, outcome.units()),
            plan_view(final(self).plans) == plans_after(
                plan_view(old(self).plans),
                expected@,
                old(self).current.units(),
                outcome.units(),
            ),
            final(self).current_commands@ == commands_after(
                old(self).current_commands@,
                plan_view(old(self).plans),
                expected@,
                old(self).current.units(),
                outcome.units(),
                outcome.time,
            ),
            forall|id: EID| #[trigger]
                outcome.units().contains_key(id) && agrees(expected@, old(self).current.units(), id, outcome.units()[id]) ==> match next_planned(
                    plan_view(old(self).plans),
                    id,
                ) {
                    Some(c) => {
                        &&& plan_view(final(self).plans)[id] == plan_view(old(self).plans)[id].drop_first()
                        &&& final(self).current_commands@[id] == Some(
                            (outcome.time.saturating_add(duration_of(outcome.units()[id], c)), c),
                        )
                    },
                    None => {
                        &&& plan_view(final(self).plans).contains_key(id) == plan_view(old(self).plans).contains_key(id)
                        &&& plan_view(old(self).plans).contains_key(id) ==> plan_view(final(self).plans)[id].len() == 0
                        &&& final(self).current_commands@[id] == None::<(u64, Command)>
                    },
                },
            forall|id: EID| #[trigger]
                outcome.units().contains_key(id) && !agrees(expected@, old(self).current.units(), id, outcome.units()[id]) ==> {
                    &&& plan_view(final(self).plans)[id] == Seq::<Command>::empty()
                    &&& final(self).current_commands@[id] == inferred(outcome.units()[id], final(self).current.time)
                },
    {
        let ghost s = outcome.states.entries();
        let ghost out = outcome.units();
        let ghost p0 = plan_view(self.plans);
        let ghost c0 = self.current_commands@;
        let ghost cur0 = self.current.units();
        let ghost pa = plans_after(p0, expected@, cur0, out);
        let ghost ca = commands_after(c0, p0, expected@, cur0, out, outcome.time);
        proof {
            lemma_entries(s);
        }
        self.current.time = outcome.time.saturating_add(1);
        self.confirmed.insert_snapshot(outcome.duplicate());
        let mut i: usize = 0;
        while i < outcome.states.len()
            invariant
                self.wf(),
                outcome.wf(),
                expected.wf(),
                s == outcome.states.entries(),
                out == outcome.units(),
                i <= s.len(),
                self.map == old(self).map,
                self.init == old(self).init,
                self.current.time == outcome.time.saturating_add(1),
                self.confirmed@ == old(self).confirmed@.insert(outcome.time, outcome.units()),
                p0 == plan_view(old(self).plans),
                c0 == old(self).current_commands@,
                cur0 == old(self).current.units(),
                pa == plans_after(p0, expected@, cur0, out),
                ca == commands_after(c0, p0, expected@, cur0, out, outcome.time),
                forall|k: EID| #[trigger]
                    self.current.units().contains_key(k) == (old(self).current.units().contains_key(k)
                        || prefix_has(s, i as int, k)),
                forall|k: EID| #[trigger]
                    self.current.units().contains_key(k) ==> self.current.units()[k] == (if prefix_has(s, i as int, k) {
                        out[k]
                    } else {
                        old(self).current.units()[k]
                    }),
                forall|k: EID| #[trigger]
                    plan_view(self.plans).contains_key(k) == (if prefix_has(s, i as int, k) {
                        pa.contains_key(k)
                    } else {
                        p0.contains_key(k)
                    }),
                forall|k: EID| #[trigger]
                    plan_view(self.plans).contains_key(k) ==> plan_view(self.plans)[k] == (if prefix_has(s, i as int, k) {
                        pa[k]
                    } else {
                        p0[k]
                    }),
                forall|k: EID| #[trigger]
                    self.current_commands@.contains_key(k) == (if prefix_has(s, i as int, k) {
                        ca.contains_key(k)
                    } else {
                        c0.contains_key(k)
                    }),
                forall|k: EID| #[trigger]
                    self.current_commands@.contains_key(k) ==> self.current_commands@[k] == (if prefix_has(s, i as int, k) {
                        ca[k]
                    } else {
                        c0[k]
                    }),
            decreases s.len() - i,
        {
            let id = outcome.states.key_at(i);
            let unit = *outcome.states.value_at(i);
            proof {
                lemma_entry(s, i as int);
                lemma_prefix_step(s, i as int);
                assert(!prefix_has(s, i as int, id)) by {
                    if prefix_has(s, i as int, id) {
                        let j = choose|j: int| 0 <= j < i && s[j].0 == id;
                        assert(s[j].0 < s[i as int].0);
                    }
                }
            }
            assert(self.current.units().contains_key(id) == cur0.contains_key(id));
            assert(self.current.units().contains_key(id) ==> self.current.units()[id] == cur0[id]);
            let matched = match expected.get(id) {
                Some(e) => *e == unit,
                None => match self.current.states.get(id) {
                    Some(before) => *before == unit,
                    None => true,
                },
            };
            assert(matched == agrees(expected@, cur0, id, out[id]));
            self.current.insert(unit);
            if matched {
                let comm = match self.plans.get(id) {
                    Some(q) => if q.len() > 0 {
                        assert(plan_view(self.plans).contains_key(id));
                        assert(q@ == p0[id]);
                        let c = q[0];
                        let mut rest = copy_commands(q);
                        rest.remove(0);
                        assert(rest@ =~= p0[id].drop_first());
                        let ghost before = self.plans;
                        self.plans.insert(id, rest);
                        proof {
                            lemma_plan_view_insert(before, self.plans, id, rest);
                        }
                        Some(c)
                    } else {
                        assert(plan_view(self.plans).contains_key(id));
                        assert(q@ == p0[id]);
                        None
                    },
                    None => {
                        assert(!plan_view(self.plans).contains_key(id));
                        None
                    },
                };
                assert(comm == next_planned(p0, id));
                let cc = match comm {
                    Some(c) => Some((outcome.time.saturating_add(unit.command_duration(c)), c)),
                    None => None,
                };
                self.current_commands.insert(id, cc);
            } else {
                let ghost before = self.plans;
                let empty: Vec<Command> = Vec::new();
                self.plans.insert(id, empty);
                proof {
                    lemma_plan_view_insert(before, self.plans, id, empty);
                    assert(empty@ =~= Seq::<Command>::empty());
                }
                let cc = unit.infer_command(self.current.time);
                self.current_commands.insert(id, cc);
            }
            i = i + 1;
        }
        proof {
            lemma_prefix_full(s);
        }
        assert(self.current.units() =~= old(self).current.units().union_prefer_right(outcome.units()));
        assert(plan_view(self.plans) =~= pa);
        assert(self.current_commands@ =~= ca);
    }

    /// One round of the preview against the local authority `sim`: submit
    /// the next moves, resolve them, and take the outcome in. Returns false,
    /// with this client unchanged, when the authority rejects the moves or
    /// commits nothing.
    pub fn preview_round(&mut self, sim: &mut Server) -> (r: bool)
        requires
            old(self).wf(),
            old(sim).wf(),
        ensures
            final(self).wf(),
            final(sim).wf(),
            final(sim).map == old(sim).map,
            !r ==> *final(self) == *old(self),
            !r ==> final(sim).current.time == old(sim).current.time && final(sim).current.units() == old(
                sim,
            ).current.units(),
            !r ==> round_idle(*old(self), *old(sim)),
            r ==> round_step(*old(self), *old(sim), *final(self), *final(sim)),
    {
        let next = self.next_moves();
        let upd = next.values();
        proof {
            assert forall|i: int| 0 <= i < upd@.len() implies next@.contains_key(#[trigger] upd@[i].id)
                && next@[upd@[i].id] == upd@[i] by {
                let k = next.entries()[i].0;
                assert(next@.contains_key(k) && next@[k] == upd@[i]);
                assert(self.current.units().contains_key(k));
                assert(self.current.units()[k].id == k);
            }
        }
        match sim.resolve(&upd) {
            Ok(result) => {
                if result.states.len() == 0 {
                    assert(lists(upd@, old(self).moves()));
                    false
                } else {
                    self.accept_outcome(&next, &result);
                    assert(accepted(*old(self), old(self).moves(), result, *self));
                    assert(lists(upd@, old(self).moves()));
                    true
                }
            },
            Err(_) => {
                assert(lists(upd@, old(self).moves()));
                false
            },
        }
    }

    /// Fast-forwards a private copy of this client against a local copy of
    /// the authority, round after round, until a round commits nothing (or
    /// `max_rounds` rounds have run), assuming nothing interferes. Returns
    /// the plan queues it started from and the timeline it confirmed.
    pub fn gen_planned(&self, max_rounds: u64) -> (r: (Plan, Timeline))
        requires
            self.wf(),
        ensures
            r.0.wf(),
            plan_view(r.0) == plan_view(self.plans),
            r.1.wf(),
            exists|cs: Seq<Client>, ss: Seq<Server>|
                #[trigger] preview_run(*self, cs, ss, max_rounds as int) && cs.last().confirmed@ == r.1@,
    {
        let mut sims = Server::new(self.current.duplicate(), copy_walls(&self.map));
        let paths = copy_plan(&self.plans);
        let mut simc = Client {
            map: copy_walls(&self.map),
            init: Snapshot::new(),
            confirmed: Timeline::new(),
            current: self.current.duplicate(),
            current_commands: self.current_commands.copied(),
            plans: copy_plan(&self.plans),
        };
        let ghost mut cs: Seq<Client> = seq![simc];
        let ghost mut ss: Seq<Server> = seq![sims];
        let mut round: u64 = 0;
        let mut idle = false;
        while round < max_rounds && !idle
            invariant
                simc.wf(),
                sims.wf(),
                round <= max_rounds,
                cs.len() == ss.len(),
                cs.len() == round + 1,
                preview_start(*self, cs[0]),
                ss[0].current.time == self.current.time,
                ss[0].current.units() == self.current.units(),
                ss[0].map@ == self.map@,
                forall|i: int| 0 <= i < cs.len() - 1 ==> #[trigger] round_step(cs[i], ss[i], cs[i + 1], ss[i + 1]),
                cs.last() == simc,
                !idle ==> ss.last() == sims,
                idle ==> round_idle(cs.last(), ss.last()),
            decreases max_rounds - round + (if idle {
                0int
            } else {
                1int
            }),
        {
            let ghost c0 = simc;
            let ghost s0 = sims;
            if simc.preview_round(&mut sims) {
                proof {
                    cs = cs.push(simc);
                    ss = ss.push(sims);
                    assert(round_step(cs[cs.len() - 2], ss[ss.len() - 2], cs[cs.len() - 1], ss[ss.len() - 1]));
                }
                round = round + 1;
            } else {
                proof {
                    assert(round_idle(c0, s0));
                }
                idle = true;
            }
        }
        let timeline = simc.confirmed;
        assert(cs.last().confirmed@ == timeline@);
        assert(preview_run(*self, cs, ss, max_rounds as int));
        (paths, timeline)
    }
}

/// Copies the walls.
fn copy_walls(w: &Walls) -> (r: Walls)
    ensures
        r@ == w@,
{
    let mut r: Walls = Vec::new();
    let mut i: usize = 0;
    while i < w.len()
        invariant
            i <= w@.len(),
            r@ == w@.subrange(0, i as int),
        decreases w@.len() - i,
    {
        r.push(w[i]);
        i = i + 1;
        assert(r@ =~= w@.subrange(0, i as int));
    }
    assert(r@ =~= w@);
    r
}

/// A local edit of a unit's plan queue.
#[derive(Clone, Copy, PartialEq, Eq, Structural, Debug)]
pub enum PlanEdit {
    /// Drop the last queued command.
    Pop,
    /// Queue a command at the end.
    Push(Command),
}

/// `q` after `edit`.
pub open spec fn edited(q: Seq<Command>, edit: PlanEdit) -> Seq<Command> {
    match edit {
        PlanEdit::Pop => if q.len() > 0 {
            q.drop_last()
        } else {
            q
        },
        PlanEdit::Push(c) => q.push(c),
    }
}

impl Client {
    /// Applies `edit` to the queue of unit `id`; a unit without a queue is
    /// left alone.
    pub fn edit_plan(&mut self, id: EID, edit: PlanEdit)
        requires
            old(self).wf(),
        ensures
            final(self).wf(),
            final(self).map == old(self).map,
            final(self).init == old(self).init,
            final(self).current.time == old(self).current.time,
            final(self).current.units() == old(self).current.units(),
            final(self).confirmed@ == old(self).confirmed@,
            final(self).current_commands@ == old(self).current_commands@,
            plan_view(final(self).plans) == (if plan_view(old(self).plans).contains_key(id) {
                plan_view(old(self).plans).insert(id, edited(plan_view(old(self).plans)[id], edit))
            } else {
                plan_view(old(self).plans)
            }),
    {
        let mut q = match self.plans.get(id) {
            Some(q) => copy_commands(q),
            None => {
                return;
            },
        };
        match edit {
            PlanEdit::Pop => {
                if q.len() > 0 {
                    q.pop();
                }
            },
            PlanEdit::Push(c) => {
                q.push(c);
            },
        }
        let ghost before = self.plans;
        assert(q@ =~= edited(plan_view(before)[id], edit));
        self.plans.insert(id, q);
        proof {
            lemma_plan_view_insert(before, self.plans, id, q);
        }
    }
}

/// The unit of `display` nearest to `pos`, the lowest id among equals, or
/// `NULL_ID` when there is none.
pub fn unit_nearest(display: &Snapshot, pos: Point) -> (r: EID)
    requires
        display.wf(),
    ensures
        display.units().dom().len() == 0 ==> r == NULL_ID,
        display.units().dom().len() > 0 ==> {
            &&& display.units().contains_key(r)
            &&& forall|k: EID| #[trigger] display.units().contains_key(k) ==> dist_sq(display.units()[r].pos, pos)
                <= dist_sq(display.units()[k].pos, pos)
            &&& forall|k: EID| #[trigger] display.units().contains_key(k) && k < r ==> dist_sq(display.units()[r].pos, pos)
                < dist_sq(display.units()[k].pos, pos)
        },
{
    let ghost s = display.states.entries();
    let ghost m = display.units();
    proof {
        lemma_entries(s);
    }
    let mut best: Option<(EID, i128)> = None;
    let mut i: usize = 0;
    while i < display.states.len()
        invariant
            display.wf(),
            s == display.states.entries(),
            m == display.units(),
            i <= s.len(),
            i == 0 <==> best is None,
            match best {
                Some((b, d)) => {
                    &&& prefix_has(s, i as int, b)
                    &&& m.contains_key(b)
                    &&& d == dist_sq(m[b].pos, pos)
                    &&& forall|k: EID| #[trigger] prefix_has(s, i as int, k) ==> d <= dist_sq(m[k].pos, pos)
                    &&& forall|k: EID| #[trigger] prefix_has(s, i as int, k) && k < b ==> d < dist_sq(m[k].pos, pos)
                },
                None => true,
            },
        decreases s.len() - i,
    {
        let id = display.states.key_at(i);
        let u = *display.states.value_at(i);
        proof {
            lemma_entry(s, i as int);
            lemma_prefix_step(s, i as int);
        }
        let dx: i128 = u.pos.x as i128 - pos.x as i128;
        let dy: i128 = u.pos.y as i128 - pos.y as i128;
        assert(dx * dx <= 0x1_0000_0000_0000_0000 && dx * dx >= 0) by (nonlinear_arith)
            requires
                -0x1_0000_0000 <= dx <= 0x1_0000_0000,
        ;
        assert(dy * dy <= 0x1_0000_0000_0000_0000 && dy * dy >= 0) by (nonlinear_arith)
            requires
                -0x1_0000_0000 <= dy <= 0x1_0000_0000,
        ;
        let d: i128 = dx * dx + dy * dy;
        assert(d == dist_sq(u.pos, pos)) by (nonlinear_arith)
            requires
                dx == u.pos.x - pos.x,
                dy == u.pos.y - pos.y,
                d == dx * dx + dy * dy,
        ;
        proof {
            // Every earlier key is smaller than this one.
            assert forall|k: EID| #[trigger] prefix_has(s, i as int, k) implies k < id by {
                let j = choose|j: int| 0 <= j < i && s[j].0 == k;
                assert(s[j].0 < s[i as int].0);
            }
        }
        match best {
            Some((_, bd)) => {
                if d < bd {
                    best = Some((id, d));
                }
            },
            None => {
                best = Some((id, d));
            },
        }
        i = i + 1;
    }
    proof {
        lemma_prefix_full(s);
        lemma_entries(s);
        assert(display.units().dom().len() == s.len()) by {
            display.states.lemma_dom_len();
        }
        assert forall|k: EID| #[trigger] m.contains_key(k) implies prefix_has(s, s.len() as int, k) by {
            assert(seq_has(s, k));
        }
    }
    match best {
        Some((b, _)) => b,
        None => NULL_ID,
    }
}

} // verus!
