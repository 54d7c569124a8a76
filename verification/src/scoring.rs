//! What a launch from one planet at another would take, and what it would
//! cost.

use vstd::prelude::*;
use crate::projection::{project, projection_fits, simulate_arrivals};
use crate::snapshot::{FleetView, GameState, Planet, PlanError, PlanetView, OWN_FACTION};

verus! {

/// A launch pays where the target is not projected to be the engine's own and
/// the source holds more than the ships that the launch takes.
pub open spec fn profitable(source_ships: nat, owner: nat, garrison: int) -> bool {
    owner != OWN_FACTION && garrison + 1 < source_ships
}

/// The least force that takes a planet projected to hold `garrison` ships.
pub open spec fn committed(garrison: int) -> int {
    garrison + 1
}

/// The cost of a launch: the committed force times the rounded-up distance.
pub open spec fn cost(distance: nat, garrison: int) -> int {
    distance * committed(garrison)
}

/// The rating of a launch from a planet with `source_ships` ships at a target
/// projected to belong to `owner` with `garrison` ships, `distance` away: the
/// committed force and the cost where the launch pays, `(0, 0)` where it does
/// not.
pub open spec fn rating(source_ships: nat, owner: nat, garrison: int, distance: nat) -> (int, int) {
    if profitable(source_ships, owner, garrison) {
        (committed(garrison), cost(distance, garrison))
    } else {
        (0, 0)
    }
}

/// The rating of a launch from `source` at `dest`, against the projection of
/// `dest`.
pub open spec fn rating_of(
    source: PlanetView,
    dest: PlanetView,
    distance: nat,
    fleets: Seq<FleetView>,
) -> (int, int) {
    rating(source.ships, project(dest, fleets).owner, project(dest, fleets).ships, distance)
}

/// The projection of `dest` fits a machine integer at every step, and so
/// does the cost of the launch.
pub open spec fn score_fits(
    source: PlanetView,
    dest: PlanetView,
    distance: nat,
    fleets: Seq<FleetView>,
) -> bool {
    projection_fits(dest, fleets) && rating_of(source, dest, distance, fleets).1 <= usize::MAX
}

/// Rates a launch from a planet with `source_ships` ships at a target
/// projected as `target` (owner, garrison), `distance` away.
///
/// Gives `(0, 0)` where the launch does not pay, else the committed force and
/// the cost; `Err(Overflow)` where the cost does not fit a `usize`.
pub fn rate(source_ships: usize, target: (usize, usize), distance: usize) -> (res: Result<
    (usize, usize),
    PlanError,
>)
    ensures
        match res {
            Ok(rated) => {
                &&& rated.0 == rating(
                    source_ships as nat,
                    target.0 as nat,
                    target.1 as int,
                    distance as nat,
                ).0
                &&& rated.1 == rating(
                    source_ships as nat,
                    target.0 as nat,
                    target.1 as int,
                    distance as nat,
                ).1
            },
            Err(e) => {
                &&& e == PlanError::Overflow
                &&& rating(source_ships as nat, target.0 as nat, target.1 as int, distance as nat).1
                    > usize::MAX
            },
        },
{
    if target.0 == OWN_FACTION || source_ships < 2 || target.1 >= source_ships - 1 {
        return Ok((0, 0));
    }
    let force: usize = target.1 + 1;
    match distance.checked_mul(force) {
        Some(price) => Ok((force, price)),
        None => Err(PlanError::Overflow),
    }
}

/// Rates a launch from `source` at `dest`, `distance` away, against the
/// projection of `dest`.
///
/// The result is a function of the arguments' values alone: `(0, 0)` where
/// the launch does not pay, else the committed force and the cost;
/// `Err(Overflow)` where a garrison of the projection or the cost does not
/// fit a `usize`.
pub fn score(source: &Planet, dest: &Planet, distance: usize, gamestate: &GameState) -> (res:
    Result<(usize, usize), PlanError>)
    ensures
        match res {
            Ok(rated) => {
                &&& score_fits(source@, dest@, distance as nat, gamestate@.fleets)
                &&& rated.0 == rating_of(source@, dest@, distance as nat, gamestate@.fleets).0
                &&& rated.1 == rating_of(source@, dest@, distance as nat, gamestate@.fleets).1
            },
            Err(e) => {
                &&& e == PlanError::Overflow
                &&& !score_fits(source@, dest@, distance as nat, gamestate@.fleets)
            },
        },
{
    match simulate_arrivals(dest, gamestate) {
        Ok(target) => rate(source.ship_count, target, distance),
        Err(e) => Err(e),
    }
}

} // verus!
