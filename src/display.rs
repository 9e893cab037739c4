//! What changed about a unit between two displayed instants.
use vstd::prelude::*;
use crate::model::{Snapshot, UnitState};
use crate::table::{EID, IdMap, lemma_entries, lemma_entry, lemma_prefix_full, lemma_prefix_step, prefix_has};

verus! {

/// Which parts of a unit's state changed.
#[derive(Clone, Copy, PartialEq, Eq, Structural, Debug)]
pub struct Update {
    pub vel: bool,
    pub target: bool,
}

impl Update {
    pub fn compare(one: UnitState, other: UnitState) -> (r: Update)
        ensures
            r.vel == (one.vel != other.vel),
            r.target == (one.target_id != other.target_id),
    {
        Update { vel: one.vel != other.vel, target: one.target_id != other.target_id }
    }
}

/// For each unit of `new` that `old` also holds, what changed between them.
pub fn updates_between(old: &Snapshot, new: &Snapshot) -> (r: IdMap<Update>)
    requires
        old.wf(),
        new.wf(),
    ensures
        r.wf(),
        r@.dom() == new.units().dom().intersect(old.units().dom()),
        forall|k: EID| #[trigger] r@.contains_key(k) ==> {
            &&& r@[k].vel == (old.units()[k].vel != new.units()[k].vel)
            &&& r@[k].target == (old.units()[k].target_id != new.units()[k].target_id)
        },
{
    let ghost s = new.states.entries();
    proof {
        lemma_entries(s);
    }
    let mut r: IdMap<Update> = IdMap::new();
    let mut i: usize = 0;
    while i < new.states.len()
        invariant
            old.wf(),
            new.wf(),
            s == new.states.entries(),
            i <= s.len(),
            r.wf(),
            forall|k: EID| #[trigger] r@.contains_key(k) == (prefix_has(s, i as int, k) && old.units().contains_key(k)),
            forall|k: EID| #[trigger] r@.contains_key(k) ==> {
                &&& new.units().contains_key(k)
                &&& r@[k].vel == (old.units()[k].vel != new.units()[k].vel)
                &&& r@[k].target == (old.units()[k].target_id != new.units()[k].target_id)
            },
        decreases s.len() - i,
    {
        let id = new.states.key_at(i);
        let unit = *new.states.value_at(i);
        proof {
            lemma_entry(s, i as int);
            lemma_prefix_step(s, i as int);
        }
        match old.states.get(id) {
            Some(prev) => {
                r.insert(id, Update::compare(*prev, unit));
            },
            None => {},
        }
        i = i + 1;
    }
    proof {
        lemma_prefix_full(s);
        lemma_entries(s);
    }
    assert(r@.dom() =~= new.units().dom().intersect(old.units().dom()));
    r
}

} // verus!
