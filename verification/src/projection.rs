//! Projection of one planet: who holds it, and with how many ships, once the
//! last fleet now bound for it has landed.

use vstd::prelude::*;
use crate::arrivals::{
    arrival_order, arrivals, by_arrival, in_landing_order, inbound, landing_slot,
    lemma_by_arrival_ascends, lemma_by_arrival_keeps, lemma_landing_slot_sides, picked,
};
use crate::snapshot::{FleetView, GameState, Planet, PlanError, PlanetView, NEUTRAL};

verus! {

/// A planet while fleets land on it: its owner (`0` is neutral), its garrison,
/// and the turn up to which its growth has been counted.
pub struct Standing {
    pub owner: nat,
    pub ships: int,
    pub clock: nat,
}

/// Growth up to the turn `arrival`: a planet that somebody holds gains one
/// ship per turn, a neutral planet none.
pub open spec fn grown(s: Standing, arrival: nat) -> Standing {
    Standing {
        owner: s.owner,
        ships: if s.owner != NEUTRAL {
            s.ships + (arrival - s.clock)
        } else {
            s.ships
        },
        clock: arrival,
    }
}

/// The landing of `f`. A fleet of the owner joins the garrison. Any other
/// fleet fights it: the larger side keeps its surplus and the planet, and
/// equal sides leave the planet neutral and empty.
pub open spec fn landed(s: Standing, f: FleetView) -> Standing {
    if f.owner == s.owner {
        Standing { owner: s.owner, ships: s.ships + f.ships, clock: s.clock }
    } else if s.ships < f.ships {
        Standing { owner: f.owner, ships: f.ships - s.ships, clock: s.clock }
    } else if s.ships == f.ships {
        Standing { owner: NEUTRAL as nat, ships: 0, clock: s.clock }
    } else {
        Standing { owner: s.owner, ships: s.ships - f.ships, clock: s.clock }
    }
}

/// One fleet: growth up to its arrival, then its landing.
pub open spec fn after(s: Standing, f: FleetView) -> Standing {
    landed(grown(s, f.arrival), f)
}

/// The left fold of `after` over `line`, starting from `start`.
pub open spec fn replay(start: Standing, line: Seq<FleetView>) -> Standing
    decreases line.len(),
{
    if line.len() == 0 {
        start
    } else {
        after(replay(start, line.drop_last()), line.last())
    }
}

/// The planet as the snapshot shows it, at turn 0.
pub open spec fn start_of(planet: PlanetView) -> Standing {
    Standing { owner: planet.owner, ships: planet.ships as int, clock: 0 }
}

/// The planet after every fleet of `fleets` that is bound for it has landed.
pub open spec fn project(planet: PlanetView, fleets: Seq<FleetView>) -> Standing {
    replay(start_of(planet), arrivals(fleets, planet.name))
}

/// The garrison fits a machine integer after the growth before `f` and after
/// the landing of `f`.
pub open spec fn step_fits(before: Standing, f: FleetView) -> bool {
    grown(before, f.arrival).ships <= usize::MAX && after(before, f).ships <= usize::MAX
}

/// The garrison fits a machine integer at every step of the replay.
pub open spec fn replay_fits(start: Standing, line: Seq<FleetView>) -> bool {
    forall|k: int| 0 <= k < line.len() ==> step_fits(#[trigger] replay(start, line.take(k)), line[k])
}

/// The garrison fits a machine integer at every step of the projection.
pub open spec fn projection_fits(planet: PlanetView, fleets: Seq<FleetView>) -> bool {
    replay_fits(start_of(planet), arrivals(fleets, planet.name))
}

/// No fleet is bound for the planet.
pub open spec fn no_contact(planet: PlanetView, fleets: Seq<FleetView>) -> bool {
    forall|i: int| 0 <= i < fleets.len() ==> (#[trigger] fleets[i]).destination != planet.name
}

/// Somebody holds the planet, and every fleet bound for it is the owner's.
pub open spec fn among_friends(planet: PlanetView, fleets: Seq<FleetView>) -> bool {
    &&& planet.owner != NEUTRAL
    &&& forall|i: int|
        0 <= i < fleets.len() && (#[trigger] fleets[i]).destination == planet.name ==> fleets[i].owner
            == planet.owner
}

/// The turn in which the last of `fleets` lands, `0` where there is none.
pub open spec fn last_landing(fleets: Seq<FleetView>) -> nat
    decreases fleets.len(),
{
    if fleets.len() == 0 {
        0
    } else if last_landing(fleets.drop_last()) >= fleets.last().arrival {
        last_landing(fleets.drop_last())
    } else {
        fleets.last().arrival
    }
}

/// The ships of all of `fleets` together.
pub open spec fn total_ships(fleets: Seq<FleetView>) -> nat
    decreases fleets.len(),
{
    if fleets.len() == 0 {
        0
    } else {
        total_ships(fleets.drop_last()) + fleets.last().ships
    }
}

/// After a landing the clock stands at the turn of that landing.
pub proof fn lemma_replay_clock(start: Standing, line: Seq<FleetView>)
    ensures
        replay(start, line).clock == if line.len() == 0 {
            start.clock
        } else {
            line.last().arrival
        },
{
}

/// The projected owner and garrison of `planet`: `Ok((owner, garrison))`
/// where every intermediate garrison fits a `usize`, `Err(Overflow)` where
/// one does not.
///
/// A planet that no fleet is bound for is projected as it stands. A planet
/// that somebody holds and that only fleets of its owner are bound for keeps
/// its owner and gains one ship for every turn up to the last landing, and
/// the ships that land.
pub fn simulate_arrivals(planet: &Planet, gamestate: &GameState) -> (res: Result<
    (usize, usize),
    PlanError,
>)
    ensures
        match res {
            Ok(standing) => {
                &&& projection_fits(planet@, gamestate@.fleets)
                &&& standing.0 == project(planet@, gamestate@.fleets).owner
                &&& standing.1 == project(planet@, gamestate@.fleets).ships
            },
            Err(e) => e == PlanError::Overflow && !projection_fits(planet@, gamestate@.fleets),
        },
        no_contact(planet@, gamestate@.fleets) ==> res == Ok::<(usize, usize), PlanError>(
            (planet.faction_id(), planet.ship_count),
        ),
        among_friends(planet@, gamestate@.fleets) ==> (res matches Ok(standing) ==> {
            &&& standing.0 == planet@.owner
            &&& standing.1 == planet@.ships + last_landing(inbound(gamestate@.fleets, planet@.name))
                + total_ships(inbound(gamestate@.fleets, planet@.name))
        }),
{
    proof {
        if no_contact(planet@, gamestate@.fleets) {
            lemma_no_contact(planet@, gamestate@.fleets);
        }
        if among_friends(planet@, gamestate@.fleets) {
            lemma_growth_among_friends(planet@, gamestate@.fleets);
        }
    }
    let order = arrival_order(&planet.name, gamestate);
    let ghost line = arrivals(gamestate@.fleets, planet@.name);
    let ghost start = start_of(planet@);
    let mut owner: usize = planet.faction();
    let mut ship_count: usize = planet.ship_count;
    let mut last_simulated_turn: usize = 0;
    proof {
        lemma_by_arrival_ascends(inbound(gamestate@.fleets, planet@.name));
        assert(line.take(0).len() == 0);
    }
    for k in 0..order.len()
        invariant
            line == arrivals(gamestate@.fleets, planet@.name),
            line == picked(order@, gamestate@.fleets),
            start == start_of(planet@),
            no_contact(planet@, gamestate@.fleets) ==> projection_fits(planet@, gamestate@.fleets),
            in_landing_order(line),
            forall|j: int| 0 <= j < order.len() ==> order[j] < gamestate.expeditions.len(),
            forall|j: int| 0 <= j < k ==> step_fits(#[trigger] replay(start, line.take(j)), line[j]),
            replay(start, line.take(k as int)) == (Standing {
                owner: owner as nat,
                ships: ship_count as int,
                clock: last_simulated_turn as nat,
            }),
    {
        let expedition = &gamestate.expeditions[order[k]];
        proof {
            assert(expedition@ == line[k as int]);
            assert(line.take(k + 1).drop_last() == line.take(k as int));
            assert(line.take(k + 1).last() == line[k as int]);
            lemma_replay_clock(start, line.take(k as int));
            if k > 0 {
                assert(line.take(k as int).last() == line[k - 1]);
            }
        }
        if owner != NEUTRAL {
            match ship_count.checked_add(expedition.turns_remaining - last_simulated_turn) {
                Some(total) => {
                    ship_count = total;
                },
                None => {
                    return Err(PlanError::Overflow);
                },
            }
        }
        last_simulated_turn = expedition.turns_remaining;
        if expedition.owner == owner {
            match ship_count.checked_add(expedition.ship_count) {
                Some(total) => {
                    ship_count = total;
                },
                None => {
                    return Err(PlanError::Overflow);
                },
            }
        } else if ship_count < expedition.ship_count {
            owner = expedition.owner;
            ship_count = expedition.ship_count - ship_count;
        } else if ship_count == expedition.ship_count {
            owner = NEUTRAL;
            ship_count = 0;
        } else {
            ship_count -= expedition.ship_count;
        }
    }
    proof {
        assert(line.take(order.len() as int) == line);
    }
    Ok((owner, ship_count))
}

/// A planet that no fleet is bound for is projected as it stands: same owner,
/// same garrison, and nothing that could overflow.
pub proof fn lemma_no_contact(planet: PlanetView, fleets: Seq<FleetView>)
    requires
        no_contact(planet, fleets),
    ensures
        projection_fits(planet, fleets),
        project(planet, fleets).owner == planet.owner,
        project(planet, fleets).ships == planet.ships,
{
    let bound = |f: FleetView| f.destination == planet.name;
    fleets.lemma_all_neg_filter_empty(bound);
    assert(inbound(fleets, planet.name).len() == 0);
}

/// The projected garrison is never negative.
pub proof fn lemma_garrison_nonnegative(planet: PlanetView, fleets: Seq<FleetView>)
    ensures
        project(planet, fleets).ships >= 0,
{
    let line = arrivals(fleets, planet.name);
    lemma_by_arrival_ascends(inbound(fleets, planet.name));
    lemma_replay_nonnegative(start_of(planet), line);
}

/// A replay in landing order that starts with a garrison of no less than
/// nothing, no later than the first landing, never leaves less than nothing.
pub proof fn lemma_replay_nonnegative(start: Standing, line: Seq<FleetView>)
    requires
        start.ships >= 0,
        in_landing_order(line),
        line.len() > 0 ==> start.clock <= line[0].arrival,
    ensures
        replay(start, line).ships >= 0,
    decreases line.len(),
{
    if line.len() > 0 {
        let front = line.drop_last();
        assert forall|a: int, b: int| 0 <= a <= b < front.len() implies front[a].arrival
            <= front[b].arrival by {
            assert(front[a] == line[a] && front[b] == line[b]);
        }
        if front.len() > 0 {
            assert(front[0] == line[0]);
            assert(front.last() == line[front.len() - 1]);
        }
        lemma_replay_nonnegative(start, front);
        lemma_replay_clock(start, front);
    }
}

/// While only fleets of the owner land on a planet that somebody holds, the
/// planet keeps its owner, and its garrison is what it was, plus one ship for
/// every turn up to the last landing, plus the ships that landed.
pub proof fn lemma_growth_among_friends(planet: PlanetView, fleets: Seq<FleetView>)
    requires
        among_friends(planet, fleets),
    ensures
        project(planet, fleets).owner == planet.owner,
        project(planet, fleets).ships == planet.ships + last_landing(inbound(fleets, planet.name))
            + total_ships(inbound(fleets, planet.name)),
        project(planet, fleets).ships >= planet.ships + last_landing(inbound(fleets, planet.name)),
        last_landing(inbound(fleets, planet.name)) > 0 ==> project(planet, fleets).ships
            > planet.ships,
{
    let bound = inbound(fleets, planet.name);
    let line = by_arrival(bound);
    let friendly = |f: FleetView| f.owner == planet.owner;
    assert forall|k: int| 0 <= k < bound.len() implies friendly(bound[k]) by {
        fleets.lemma_filter_contains_rev(|f: FleetView| f.destination == planet.name, bound[k]);
        fleets.lemma_filter_pred(|f: FleetView| f.destination == planet.name, k);
        let i = choose|i: int| 0 <= i < fleets.len() && fleets[i] == bound[k];
        assert(fleets[i].destination == planet.name);
    }
    lemma_by_arrival_keeps(bound, friendly);
    lemma_by_arrival_ascends(bound);
    lemma_by_arrival_totals(bound);
    lemma_friendly_replay(start_of(planet), line);
}

/// The ships of a line with one more fleet in it.
proof fn lemma_total_ships_insert(line: Seq<FleetView>, p: int, f: FleetView)
    requires
        0 <= p <= line.len(),
    ensures
        total_ships(line.insert(p, f)) == total_ships(line) + f.ships,
    decreases line.len(),
{
    let out = line.insert(p, f);
    if p == line.len() {
        assert(out.drop_last() == line);
    } else {
        let front = line.drop_last();
        lemma_total_ships_insert(front, p, f);
        assert(out.drop_last() == front.insert(p, f));
        assert(out.last() == line.last());
    }
}

/// The landing order has the ships of the input, and its last fleet lands in
/// the turn of the input's last landing.
pub proof fn lemma_by_arrival_totals(fleets: Seq<FleetView>)
    ensures
        by_arrival(fleets).len() == fleets.len(),
        total_ships(by_arrival(fleets)) == total_ships(fleets),
        fleets.len() > 0 ==> by_arrival(fleets).last().arrival == last_landing(fleets),
    decreases fleets.len(),
{
    if fleets.len() > 0 {
        let rest = fleets.drop_last();
        let line = by_arrival(rest);
        let f = fleets.last();
        lemma_by_arrival_totals(rest);
        lemma_landing_slot_sides(line, f);
        let p = landing_slot(line, f);
        lemma_total_ships_insert(line, p, f);
        let out = line.insert(p, f);
        if p == line.len() {
            assert(out.last() == f);
            if line.len() == 0 {
                assert(last_landing(rest) == 0);
            }
        } else {
            assert(out.last() == line.last());
        }
    }
}

/// A replay of fleets of the owner in landing order, on a planet that
/// somebody holds.
proof fn lemma_friendly_replay(start: Standing, line: Seq<FleetView>)
    requires
        start.owner != NEUTRAL,
        in_landing_order(line),
        forall|k: int| 0 <= k < line.len() ==> #[trigger] line[k].owner == start.owner,
        line.len() > 0 ==> start.clock <= line[0].arrival,
    ensures
        replay(start, line).owner == start.owner,
        replay(start, line).ships == start.ships + total_ships(line) + if line.len() == 0 {
            0
        } else {
            line.last().arrival - start.clock
        },
    decreases line.len(),
{
    if line.len() > 0 {
        let front = line.drop_last();
        assert forall|a: int, b: int| 0 <= a <= b < front.len() implies front[a].arrival
            <= front[b].arrival by {
            assert(front[a] == line[a] && front[b] == line[b]);
        }
        assert forall|k: int| 0 <= k < front.len() implies #[trigger] front[k].owner
            == start.owner by {
            assert(front[k] == line[k]);
        }
        if front.len() > 0 {
            assert(front[0] == line[0]);
            assert(front.last() == line[front.len() - 1]);
        }
        lemma_friendly_replay(start, front);
        lemma_replay_clock(start, front);
    }
}

} // verus!
