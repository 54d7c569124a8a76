//! What a snapshot and a distance table must hold before launches are chosen.

use vstd::prelude::*;
use crate::snapshot::{Distances, GameState, PlanError, SnapshotView};

verus! {

/// Some planet of the snapshot bears `name`.
pub open spec fn known(snapshot: SnapshotView, name: Seq<char>) -> bool {
    exists|j: int| 0 <= j < snapshot.planets.len() && #[trigger] snapshot.planets[j].name == name
}

/// The fleet at position `i` names an origin or a destination that is no
/// planet of the snapshot.
pub open spec fn dangling(snapshot: SnapshotView, i: int) -> bool {
    !known(snapshot, snapshot.fleets[i].origin) || !known(snapshot, snapshot.fleets[i].destination)
}

/// No fleet of the snapshot dangles.
pub open spec fn sound(snapshot: SnapshotView) -> bool {
    forall|i: int| 0 <= i < snapshot.fleets.len() ==> !dangling(snapshot, i)
}

/// The table holds a distance for every pair of `n` planets.
pub open spec fn covers(distances: Seq<Seq<nat>>, n: nat) -> bool {
    &&& distances.len() == n
    &&& forall|i: int| 0 <= i < n ==> (#[trigger] distances[i]).len() == n
}

/// Tells whether some planet of the snapshot bears `name`.
pub fn names_planet(name: &String, state: &GameState) -> (found: bool)
    ensures
        found == known(state@, name@),
{
    let n: usize = state.planets.len();
    for j in 0..n
        invariant
            n == state.planets.len(),
            forall|k: int| 0 <= k < j ==> #[trigger] state@.planets[k].name != name@,
    {
        if state.planets[j].name == *name {
            assert(state@.planets[j as int].name == name@);
            return true;
        }
    }
    false
}

/// Checks that every fleet comes from a planet of the snapshot and is bound
/// for one. Where one does not, the error names the first such fleet.
pub fn check_references(state: &GameState) -> (res: Result<(), PlanError>)
    ensures
        match res {
            Ok(_) => sound(state@),
            Err(PlanError::InvalidSnapshot { fleet }) => {
                &&& fleet < state@.fleets.len()
                &&& dangling(state@, fleet as int)
                &&& forall|j: int| 0 <= j < fleet ==> !dangling(state@, j)
            },
            Err(_) => false,
        },
{
    let total: usize = state.expeditions.len();
    for i in 0..total
        invariant
            total == state.expeditions.len(),
            forall|j: int| 0 <= j < i ==> !dangling(state@, j),
    {
        let fleet = &state.expeditions[i];
        assert(state@.fleets[i as int] == fleet@);
        if !names_planet(&fleet.origin, state) || !names_planet(&fleet.destination, state) {
            return Err(PlanError::InvalidSnapshot { fleet: i });
        }
    }
    Ok(())
}

/// Tells whether the table holds a distance for every pair of `n` planets.
pub fn covers_planets(distances: &Distances, n: usize) -> (full: bool)
    ensures
        full == covers(distances@, n as nat),
{
    if distances.rows.len() != n {
        return false;
    }
    for i in 0..n
        invariant
            distances.rows.len() == n,
            forall|k: int| 0 <= k < i ==> (#[trigger] distances@[k]).len() == n,
    {
        if distances.rows[i].len() != n {
            assert(distances@[i as int].len() != n);
            return false;
        }
    }
    true
}

} // verus!
