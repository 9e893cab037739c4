//! Building the opening world and the walls from a scenario's contents.
use vstd::prelude::*;
use crate::geometry::{Point, Trig, Walls, origin, zero_point};
use crate::model::{Action, NULL_ID, Snapshot, UnitState, Weapon};
use crate::table::{EID, IdMap};

verus! {

/// Team ids.
pub type TID = u32;

/// One unit as a scenario lists it.
#[derive(Clone, Copy, PartialEq, Eq, Structural, Debug)]
pub struct Unit {
    pub team: TID,
    pub pos: Point,
    pub weapon: Weapon,
}

/// The opening state of the scenario unit `r`, given id `id`: standing at its
/// position, at rest, at time `t`, with no target.
pub open spec fn initial_state(id: EID, r: Unit, t: u64) -> UnitState {
    UnitState {
        pos: r.pos,
        vel: origin(),
        weapon: r.weapon,
        action: Action::Mobile,
        target_loc: origin(),
        target_id: NULL_ID,
        time: t,
        id,
    }
}

/// The triangles of a polygon fanned out from its first vertex.
pub open spec fn fan(p: Seq<Point>) -> Seq<Trig> {
    Seq::new(
        if p.len() >= 2 {
            (p.len() - 2) as nat
        } else {
            0
        },
        |i: int| Trig { a: p[0], b: p[i + 1], c: p[i + 2] },
    )
}

/// The triangles of all polygons, polygon by polygon.
pub open spec fn fans(ps: Seq<Seq<Point>>) -> Seq<Trig>
    decreases ps.len(),
{
    if ps.len() == 0 {
        Seq::empty()
    } else {
        fans(ps.drop_last()) + fan(ps.last())
    }
}

/// Numbers the units of a scenario from 0 in order, and gives each unit's
/// team and the opening world at time 0.
pub fn read_units(units: &Vec<Unit>) -> (r: (IdMap<TID>, Snapshot))
    requires
        units@.len() <= 0x1_0000_0000,
    ensures
        r.0.wf(),
        r.1.wf(),
        r.1.time == 0,
        r.0@ == Map::new(|k: EID| k < units@.len(), |k: EID| units@[k as int].team),
        r.1.units() == Map::new(|k: EID| k < units@.len(), |k: EID| initial_state(k, units@[k as int], 0)),
{
    let mut teams: IdMap<TID> = IdMap::new();
    let mut init = Snapshot::new();
    let mut i: usize = 0;
    while i < units.len()
        invariant
            units@.len() <= 0x1_0000_0000,
            i <= units@.len(),
            teams.wf(),
            init.wf(),
            init.time == 0,
            teams@ == Map::new(|k: EID| k < i, |k: EID| units@[k as int].team),
            init.units() == Map::new(|k: EID| k < i, |k: EID| initial_state(k, units@[k as int], 0)),
        decreases units@.len() - i,
    {
        let id = i as EID;
        let u = units[i];
        let unit = UnitState {
            id,
            pos: u.pos,
            vel: zero_point(),
            time: init.time,
            weapon: u.weapon,
            action: Action::Mobile,
            target_id: NULL_ID,
            target_loc: zero_point(),
        };
        init.insert(unit);
        teams.insert(id, u.team);
        i = i + 1;
        assert(teams@ =~= Map::new(|k: EID| k < i, |k: EID| units@[k as int].team));
        assert(init.units() =~= Map::new(|k: EID| k < i, |k: EID| initial_state(k, units@[k as int], 0)));
    }
    (teams, init)
}

/// The walls of a scenario: each polygon fanned into triangles from its
/// first vertex. Every polygon has at least one point; one of one or two
/// points gives no triangle.
pub fn read_map(map: &Vec<Vec<Point>>) -> (r: Walls)
    requires
        forall|i: int| 0 <= i < map@.len() ==> (#[trigger] map@[i])@.len() >= 1,
    ensures
        r@ == fans(map@.map_values(|p: Vec<Point>| p@)),
{
    let ghost ps = map@.map_values(|p: Vec<Point>| p@);
    let mut result: Walls = Vec::new();
    let mut n: usize = 0;
    assert(ps.subrange(0, 0) =~= Seq::<Seq<Point>>::empty());
    while n < map.len()
        invariant
            n <= map@.len(),
            ps == map@.map_values(|p: Vec<Point>| p@),
            result@ == fans(ps.subrange(0, n as int)),
        decreases map@.len() - n,
    {
        let poly = &map[n];
        let ghost before = result@;
        let mut i: usize = 1;
        while i < poly.len() && i + 1 < poly.len()
            invariant
                1 <= i,
                poly@ == ps[n as int],
                poly@.len() < 2 ==> i == 1,
                poly@.len() >= 2 ==> i <= poly@.len() - 1,
                result@ == before + fan(poly@).subrange(0, i - 1),
            decreases poly@.len() - i,
        {
            result.push(Trig { a: poly[0], b: poly[i], c: poly[i + 1] });
            i = i + 1;
            assert(result@ =~= before + fan(poly@).subrange(0, i - 1));
        }
        assert(fan(poly@).subrange(0, i - 1) =~= fan(poly@));
        assert(ps.subrange(0, n + 1).drop_last() =~= ps.subrange(0, n as int));
        n = n + 1;
    }
    assert(ps.subrange(0, map@.len() as int) =~= ps);
    result
}

} // verus!
