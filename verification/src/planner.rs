//! The greedy choice of this turn's launches.
//!
//! Every pair of an own planet and a planet that is not the engine's own is
//! rated against the projection of the target. The cheapest launch that pays
//! is committed, its source is set aside, and the choice is made again among
//! the sources that are left, until no launch pays.

use vstd::prelude::*;
use crate::projection::{
    lemma_garrison_nonnegative, project, projection_fits, simulate_arrivals, Standing,
};
use crate::scoring::{committed, cost, profitable, rate};
use crate::snapshot::{
    Distances, GameState, Move, MoveView, PlanError, PlanetView, SnapshotView, Turn,
    OWN_FACTION,
};
use crate::validity::{check_references, covers, covers_planets, dangling, sound};

verus! {

/// The planet belongs to the engine's own faction.
pub open spec fn is_own(planet: PlanetView) -> bool {
    planet.owner == OWN_FACTION
}

/// The projection of the planet at position `d`.
pub open spec fn target_of(snapshot: SnapshotView, d: int) -> Standing {
    project(snapshot.planets[d], snapshot.fleets)
}

/// A launch from the planet at `s` at the planet at `d` is open: `s` is an
/// own planet whose name is not in `used`, `d` is not an own planet, and the
/// launch pays.
pub open spec fn candidate(snapshot: SnapshotView, used: Set<Seq<char>>, s: int, d: int) -> bool {
    &&& 0 <= s < snapshot.planets.len()
    &&& 0 <= d < snapshot.planets.len()
    &&& is_own(snapshot.planets[s])
    &&& !used.contains(snapshot.planets[s].name)
    &&& !is_own(snapshot.planets[d])
    &&& profitable(
        snapshot.planets[s].ships,
        target_of(snapshot, d).owner,
        target_of(snapshot, d).ships,
    )
}

/// The cost of the launch from `s` at `d`.
pub open spec fn pair_cost(
    snapshot: SnapshotView,
    distances: Seq<Seq<nat>>,
    s: int,
    d: int,
) -> int {
    cost(distances[s][d], target_of(snapshot, d).ships)
}

/// The launch `a` is taken before the launch `b`: it is cheaper, or as cheap
/// and no later in the enumeration, which runs through the sources in the
/// order of the snapshot and for each source through the targets in that
/// order.
pub open spec fn ahead(
    snapshot: SnapshotView,
    distances: Seq<Seq<nat>>,
    a: (int, int),
    b: (int, int),
) -> bool {
    let ca = pair_cost(snapshot, distances, a.0, a.1);
    let cb = pair_cost(snapshot, distances, b.0, b.1);
    ca < cb || (ca == cb && (a.0 < b.0 || (a.0 == b.0 && a.1 <= b.1)))
}

/// `pick` is an open launch that is taken before every other open launch.
pub open spec fn is_choice(
    snapshot: SnapshotView,
    distances: Seq<Seq<nat>>,
    used: Set<Seq<char>>,
    pick: (int, int),
) -> bool {
    &&& candidate(snapshot, used, pick.0, pick.1)
    &&& forall|s: int, d: int| #[trigger]
        candidate(snapshot, used, s, d) ==> ahead(snapshot, distances, pick, (s, d))
}

/// The launch to commit next, if any is open.
pub open spec fn choice(
    snapshot: SnapshotView,
    distances: Seq<Seq<nat>>,
    used: Set<Seq<char>>,
) -> Option<(int, int)> {
    if exists|pick: (int, int)| is_choice(snapshot, distances, used, pick) {
        Some(choose|pick: (int, int)| is_choice(snapshot, distances, used, pick))
    } else {
        None
    }
}

/// The move that commits the launch `pick`.
pub open spec fn launch(snapshot: SnapshotView, pick: (int, int)) -> MoveView {
    MoveView {
        origin: snapshot.planets[pick.0].name,
        destination: snapshot.planets[pick.1].name,
        ships: committed(target_of(snapshot, pick.1).ships) as nat,
    }
}

/// The positions of the planets whose name is not in `used`.
pub open spec fn idle(snapshot: SnapshotView, used: Set<Seq<char>>) -> Set<int> {
    Set::new(|i: int| 0 <= i < snapshot.planets.len() && !used.contains(snapshot.planets[i].name))
}

/// Setting aside the name of an idle planet leaves fewer idle planets.
pub proof fn lemma_idle_shrinks(snapshot: SnapshotView, used: Set<Seq<char>>, s: int)
    requires
        0 <= s < snapshot.planets.len(),
        !used.contains(snapshot.planets[s].name),
    ensures
        idle(snapshot, used).finite(),
        idle(snapshot, used.insert(snapshot.planets[s].name)).len() < idle(snapshot, used).len(),
{
    let n = snapshot.planets.len() as int;
    let before = idle(snapshot, used);
    let after = idle(snapshot, used.insert(snapshot.planets[s].name));
    vstd::set_lib::lemma_int_range(0, n);
    vstd::set_lib::lemma_len_subset(before, vstd::set_lib::set_int_range(0, n));
    assert(before.contains(s));
    assert(after.subset_of(before.remove(s)));
    vstd::set_lib::lemma_len_subset(after, before.remove(s));
}

/// The launches chosen from the state in which the names in `used` are set
/// aside, in the order in which they are chosen.
pub open spec fn plan_from(
    snapshot: SnapshotView,
    distances: Seq<Seq<nat>>,
    used: Set<Seq<char>>,
) -> Seq<MoveView>
    decreases idle(snapshot, used).len(),
{
    match choice(snapshot, distances, used) {
        None => Seq::empty(),
        Some(pick) => {
            proof {
                lemma_idle_shrinks(snapshot, used, pick.0);
            }
            seq![launch(snapshot, pick)] + plan_from(
                snapshot,
                distances,
                used.insert(snapshot.planets[pick.0].name),
            )
        },
    }
}

/// The launches of one turn.
pub open spec fn plan(snapshot: SnapshotView, distances: Seq<Seq<nat>>) -> Seq<MoveView> {
    plan_from(snapshot, distances, Set::empty())
}

/// An open launch that is taken before every other is the choice.
pub proof fn lemma_choice_is(
    snapshot: SnapshotView,
    distances: Seq<Seq<nat>>,
    used: Set<Seq<char>>,
    pick: (int, int),
)
    requires
        is_choice(snapshot, distances, used, pick),
    ensures
        choice(snapshot, distances, used) == Some(pick),
{
    let other = choose|other: (int, int)| is_choice(snapshot, distances, used, other);
    assert(candidate(snapshot, used, pick.0, pick.1));
    assert(candidate(snapshot, used, other.0, other.1));
    assert(ahead(snapshot, distances, pick, (other.0, other.1)));
    assert(ahead(snapshot, distances, other, (pick.0, pick.1)));
}

/// Some planet is the engine's own.
pub open spec fn has_own(snapshot: SnapshotView) -> bool {
    exists|i: int| 0 <= i < snapshot.planets.len() && is_own(#[trigger] snapshot.planets[i])
}

/// Some planet is not the engine's own.
pub open spec fn has_other(snapshot: SnapshotView) -> bool {
    exists|i: int| 0 <= i < snapshot.planets.len() && !is_own(#[trigger] snapshot.planets[i])
}

/// Tells whether the snapshot holds an own planet, and whether it holds a
/// planet that is not the engine's own.
pub fn sides_present(state: &GameState) -> (sides: (bool, bool))
    ensures
        sides.0 == has_own(state@),
        sides.1 == has_other(state@),
{
    let n: usize = state.planets.len();
    let mut own: bool = false;
    let mut other: bool = false;
    for i in 0..n
        invariant
            n == state.planets.len(),
            own == exists|k: int| 0 <= k < i && is_own(#[trigger] state@.planets[k]),
            other == exists|k: int| 0 <= k < i && !is_own(#[trigger] state@.planets[k]),
    {
        if state.planets[i].faction() == OWN_FACTION {
            assert(is_own(state@.planets[i as int]));
            own = true;
        } else {
            assert(!is_own(state@.planets[i as int]));
            other = true;
        }
    }
    (own, other)
}

/// The projections of the planets that are not the engine's own all fit.
pub open spec fn targets_fit(snapshot: SnapshotView) -> bool {
    forall|d: int|
        0 <= d < snapshot.planets.len() && !is_own(#[trigger] snapshot.planets[d])
            ==> projection_fits(snapshot.planets[d], snapshot.fleets)
}

/// `targets` holds, for every planet that is not the engine's own, its
/// projected owner and garrison.
pub open spec fn holds_targets(snapshot: SnapshotView, targets: Seq<(usize, usize)>) -> bool {
    &&& targets.len() == snapshot.planets.len()
    &&& forall|d: int|
        0 <= d < snapshot.planets.len() && !is_own(#[trigger] snapshot.planets[d]) ==> {
            &&& targets[d].0 == target_of(snapshot, d).owner
            &&& targets[d].1 == target_of(snapshot, d).ships
        }
}

/// Projects every planet that is not the engine's own. The entry of an own
/// planet, which is never a target, is `(0, 0)`.
pub fn project_targets(state: &GameState) -> (res: Result<Vec<(usize, usize)>, PlanError>)
    ensures
        match res {
            Ok(targets) => targets_fit(state@) && holds_targets(state@, targets@),
            Err(e) => e == PlanError::Overflow && !targets_fit(state@),
        },
{
    let n: usize = state.planets.len();
    let mut targets: Vec<(usize, usize)> = Vec::new();
    for d in 0..n
        invariant
            n == state.planets.len(),
            targets.len() == d,
            forall|k: int|
                0 <= k < d && !is_own(#[trigger] state@.planets[k]) ==> {
                    &&& projection_fits(state@.planets[k], state@.fleets)
                    &&& targets[k].0 == target_of(state@, k).owner
                    &&& targets[k].1 == target_of(state@, k).ships
                },
    {
        let planet = &state.planets[d];
        assert(state@.planets[d as int] == planet@);
        if planet.faction() == OWN_FACTION {
            targets.push((0, 0));
        } else {
            match simulate_arrivals(planet, state) {
                Ok(target) => {
                    targets.push(target);
                },
                Err(e) => {
                    return Err(e);
                },
            }
        }
    }
    Ok(targets)
}

/// The cost of every open launch fits a machine integer.
pub open spec fn costs_fit(
    snapshot: SnapshotView,
    distances: Seq<Seq<nat>>,
    used: Set<Seq<char>>,
) -> bool {
    forall|s: int, d: int| #[trigger]
        candidate(snapshot, used, s, d) ==> pair_cost(snapshot, distances, s, d) <= usize::MAX
}

/// `spent` flags the planets whose name is in `used`.
pub open spec fn flags(snapshot: SnapshotView, spent: Seq<bool>, used: Set<Seq<char>>) -> bool {
    &&& spent.len() == snapshot.planets.len()
    &&& forall|i: int|
        0 <= i < spent.len() ==> #[trigger] spent[i] == used.contains(snapshot.planets[i].name)
}

/// The pair at `a` comes before the pair at `b` in the enumeration.
pub open spec fn earlier(a: (int, int), b: (int, int)) -> bool {
    a.0 < b.0 || (a.0 == b.0 && a.1 < b.1)
}

/// What the search for the cheapest launch knows when it has rated every pair
/// before `next`: `best` is an open launch before `next`, with its force and
/// its cost, and is taken before every open launch before `next`; and where
/// there is no `best`, no launch before `next` is open.
spec fn searched(
    snapshot: SnapshotView,
    distances: Seq<Seq<nat>>,
    used: Set<Seq<char>>,
    best: Option<(usize, usize, usize, usize)>,
    next: (int, int),
) -> bool {
    &&& forall|s: int, d: int| #[trigger]
        candidate(snapshot, used, s, d) && earlier((s, d), next) ==> {
            &&& pair_cost(snapshot, distances, s, d) <= usize::MAX
            &&& best matches Some(b)
            &&& ahead(snapshot, distances, (b.0 as int, b.1 as int), (s, d))
        }
    &&& best matches Some(b) ==> {
        &&& candidate(snapshot, used, b.0 as int, b.1 as int)
        &&& earlier((b.0 as int, b.1 as int), next)
        &&& b.2 == committed(target_of(snapshot, b.1 as int).ships)
        &&& b.3 == pair_cost(snapshot, distances, b.0 as int, b.1 as int)
    }
}

/// Finds the launch to commit next among the sources that `spent` does not
/// flag: its source, its target and its force. `Ok(None)` where no launch is
/// open, `Err(Overflow)` where the cost of an open launch does not fit a
/// `usize`.
fn cheapest(
    state: &GameState,
    distances: &Distances,
    targets: &Vec<(usize, usize)>,
    spent: &Vec<bool>,
    Ghost(used): Ghost<Set<Seq<char>>>,
) -> (res: Result<Option<(usize, usize, usize)>, PlanError>)
    requires
        covers(distances@, state@.planets.len()),
        holds_targets(state@, targets@),
        flags(state@, spent@, used),
    ensures
        match res {
            Ok(Some(pick)) => {
                &&& costs_fit(state@, distances@, used)
                &&& is_choice(state@, distances@, used, (pick.0 as int, pick.1 as int))
                &&& pick.2 == committed(target_of(state@, pick.1 as int).ships)
            },
            Ok(None) => forall|s: int, d: int| !candidate(state@, used, s, d),
            Err(e) => e == PlanError::Overflow && !costs_fit(state@, distances@, used),
        },
{
    let n: usize = state.planets.len();
    let mut best: Option<(usize, usize, usize, usize)> = None;
    for s in 0..n
        invariant
            n == state.planets.len(),
            covers(distances@, state@.planets.len()),
            holds_targets(state@, targets@),
            flags(state@, spent@, used),
            searched(state@, distances@, used, best, (s as int, 0)),
    {
        let source = &state.planets[s];
        assert(state@.planets[s as int] == source@);
        if source.faction() == OWN_FACTION && !spent[s] {
            for d in 0..n
                invariant
                    n == state.planets.len(),
                    s < n,
                    covers(distances@, state@.planets.len()),
                    holds_targets(state@, targets@),
                    flags(state@, spent@, used),
                    state@.planets[s as int] == source@,
                    is_own(source@),
                    !used.contains(source@.name),
                    searched(state@, distances@, used, best, (s as int, d as int)),
            {
                let dest = &state.planets[d];
                assert(state@.planets[d as int] == dest@);
                if dest.faction() != OWN_FACTION {
                    assert(distances@[s as int].len() == distances.rows[s as int].len());
                    let distance: usize = distances.rows[s][d];
                    assert(distance == distances@[s as int][d as int]);
                    match rate(source.ship_count, targets[d], distance) {
                        Err(e) => {
                            assert(candidate(state@, used, s as int, d as int));
                            return Err(e);
                        },
                        Ok(rating) => {
                            if rating.0 != 0 {
                                let better: bool = match best {
                                    None => true,
                                    Some(b) => rating.1 < b.3,
                                };
                                if better {
                                    best = Some((s, d, rating.0, rating.1));
                                }
                            }
                        },
                    }
                }
            }
        }
    }
    match best {
        Some(b) => Ok(Some((b.0, b.1, b.2))),
        None => Ok(None),
    }
}

/// Every projection and every cost that the choice of launches reads fits a
/// machine integer.
pub open spec fn plan_fits(snapshot: SnapshotView, distances: Seq<Seq<nat>>) -> bool {
    targets_fit(snapshot) && costs_fit(snapshot, distances, Set::empty())
}

/// The move `m` is the launch from the planet at `s` at the planet at `d`,
/// and keeps the guard: `s` is an own planet and keeps at least one ship, `d`
/// is not projected to be the engine's own, and the force is one ship more
/// than the projected garrison of `d`.
pub open spec fn backs(snapshot: SnapshotView, m: MoveView, s: int, d: int) -> bool {
    &&& 0 <= s < snapshot.planets.len()
    &&& 0 <= d < snapshot.planets.len()
    &&& snapshot.planets[s].name == m.origin
    &&& snapshot.planets[d].name == m.destination
    &&& is_own(snapshot.planets[s])
    &&& m.ships <= snapshot.planets[s].ships - 1
    &&& target_of(snapshot, d).owner != OWN_FACTION
    &&& m.ships == target_of(snapshot, d).ships + 1
}

/// Some pair of planets backs the move `m`.
pub open spec fn guarded(snapshot: SnapshotView, m: MoveView) -> bool {
    exists|s: int, d: int| backs(snapshot, m, s, d)
}

/// No two moves leave from planets of the same name.
pub open spec fn distinct_origins(moves: Seq<MoveView>) -> bool {
    forall|i: int, j: int| 0 <= i < j < moves.len() ==> moves[i].origin != moves[j].origin
}

/// Where no launch is open, nothing is launched.
pub proof fn lemma_nothing_open(
    snapshot: SnapshotView,
    distances: Seq<Seq<nat>>,
    used: Set<Seq<char>>,
)
    requires
        forall|s: int, d: int| !candidate(snapshot, used, s, d),
    ensures
        plan_from(snapshot, distances, used).len() == 0,
{
    assert forall|pick: (int, int)| !is_choice(snapshot, distances, used, pick) by {
        assert(!candidate(snapshot, used, pick.0, pick.1));
    }
}

/// Every move of the plan keeps the guard: it takes no more than its source
/// has less one ship, and its target is not projected to be the engine's own.
pub proof fn lemma_plan_guarded(
    snapshot: SnapshotView,
    distances: Seq<Seq<nat>>,
    used: Set<Seq<char>>,
)
    ensures
        forall|k: int|
            0 <= k < plan_from(snapshot, distances, used).len() ==> guarded(
                snapshot,
                #[trigger] plan_from(snapshot, distances, used)[k],
            ),
    decreases idle(snapshot, used).len(),
{
    match choice(snapshot, distances, used) {
        None => {},
        Some(pick) => {
            let next = used.insert(snapshot.planets[pick.0].name);
            let rest = plan_from(snapshot, distances, next);
            let moves = plan_from(snapshot, distances, used);
            lemma_idle_shrinks(snapshot, used, pick.0);
            lemma_plan_guarded(snapshot, distances, next);
            lemma_garrison_nonnegative(snapshot.planets[pick.1], snapshot.fleets);
            assert(backs(snapshot, launch(snapshot, pick), pick.0, pick.1));
            assert forall|k: int| 0 <= k < moves.len() implies guarded(
                snapshot,
                #[trigger] moves[k],
            ) by {
                if k > 0 {
                    assert(moves[k] == rest[k - 1]);
                }
            }
        },
    }
}

/// No planet launches twice: no name in `used` and no name twice is among
/// the origins of the plan.
pub proof fn lemma_plan_one_launch_each(
    snapshot: SnapshotView,
    distances: Seq<Seq<nat>>,
    used: Set<Seq<char>>,
)
    ensures
        distinct_origins(plan_from(snapshot, distances, used)),
        forall|k: int|
            0 <= k < plan_from(snapshot, distances, used).len() ==> !used.contains(
                #[trigger] plan_from(snapshot, distances, used)[k].origin,
            ),
    decreases idle(snapshot, used).len(),
{
    match choice(snapshot, distances, used) {
        None => {},
        Some(pick) => {
            let next = used.insert(snapshot.planets[pick.0].name);
            let rest = plan_from(snapshot, distances, next);
            let moves = plan_from(snapshot, distances, used);
            lemma_idle_shrinks(snapshot, used, pick.0);
            lemma_plan_one_launch_each(snapshot, distances, next);
            assert forall|k: int| 0 <= k < moves.len() implies !used.contains(
                #[trigger] moves[k].origin,
            ) by {
                if k > 0 {
                    assert(moves[k] == rest[k - 1]);
                }
            }
            assert forall|i: int, j: int| 0 <= i < j < moves.len() implies moves[i].origin
                != moves[j].origin by {
                assert(moves[j] == rest[j - 1]);
                if i > 0 {
                    assert(moves[i] == rest[i - 1]);
                }
            }
        },
    }
}

/// The names from which the moves leave.
pub open spec fn origins(moves: Seq<MoveView>) -> Set<Seq<char>> {
    Set::new(|name: Seq<char>| exists|k: int| 0 <= k < moves.len() && #[trigger] moves[k].origin == name)
}

/// While a launch is open, one is chosen.
pub proof fn lemma_some_choice(
    snapshot: SnapshotView,
    distances: Seq<Seq<nat>>,
    used: Set<Seq<char>>,
    s: int,
    d: int,
)
    requires
        candidate(snapshot, used, s, d),
    ensures
        choice(snapshot, distances, used) is Some,
    decreases pair_cost(snapshot, distances, s, d), s, d,
{
    if !is_choice(snapshot, distances, used, (s, d)) {
        let (s2, d2) = choose|s2: int, d2: int|
            candidate(snapshot, used, s2, d2) && !ahead(snapshot, distances, (s, d), (s2, d2));
        lemma_garrison_nonnegative(snapshot.planets[d2], snapshot.fleets);
        let distance = distances[s2][d2];
        let force = committed(target_of(snapshot, d2).ships);
        assert(distance * force >= 0) by (nonlinear_arith)
            requires
                distance >= 0,
                force >= 0,
        ;
        lemma_some_choice(snapshot, distances, used, s2, d2);
    }
}

/// The plan ends only where nothing is left to launch: once the origins of
/// its moves are set aside too, no launch is open.
pub proof fn lemma_plan_exhausts(
    snapshot: SnapshotView,
    distances: Seq<Seq<nat>>,
    used: Set<Seq<char>>,
)
    ensures
        forall|s: int, d: int|
            !candidate(
                snapshot,
                used.union(origins(plan_from(snapshot, distances, used))),
                s,
                d,
            ),
    decreases idle(snapshot, used).len(),
{
    let moves = plan_from(snapshot, distances, used);
    match choice(snapshot, distances, used) {
        None => {
            assert(used.union(origins(moves)) == used);
            assert forall|s: int, d: int| !candidate(snapshot, used, s, d) by {
                if candidate(snapshot, used, s, d) {
                    lemma_some_choice(snapshot, distances, used, s, d);
                }
            }
        },
        Some(pick) => {
            let name = snapshot.planets[pick.0].name;
            let next = used.insert(name);
            let rest = plan_from(snapshot, distances, next);
            lemma_idle_shrinks(snapshot, used, pick.0);
            lemma_plan_exhausts(snapshot, distances, next);
            assert forall|other: Seq<char>|
                used.union(origins(moves)).contains(other) == next.union(origins(rest)).contains(
                    other,
                ) by {
                if origins(rest).contains(other) {
                    let k = choose|k: int| 0 <= k < rest.len() && rest[k].origin == other;
                    assert(moves[k + 1].origin == other);
                }
                if origins(moves).contains(other) {
                    let k = choose|k: int| 0 <= k < moves.len() && moves[k].origin == other;
                    if k > 0 {
                        assert(rest[k - 1].origin == other);
                    }
                }
                if other == name {
                    assert(moves[0].origin == other);
                }
            }
            assert(used.union(origins(moves)) == next.union(origins(rest)));
        },
    }
}

/// Chooses this turn's launches.
///
/// Fails with `InvalidSnapshot` where a fleet names a planet that the
/// snapshot does not hold, with `DistanceTable` where the table does not hold
/// a distance for every pair of planets, and with `Overflow` where both sides
/// hold a planet and a projection or a cost does not fit a `usize`. Else the
/// turn holds the launches of `plan`, in the order in which they were chosen:
/// no planet launches twice, every launch keeps the guard, and no launch is
/// left open among the planets that did not launch.
pub fn next_move(state: &GameState, distances: &Distances) -> (res: Result<Turn, PlanError>)
    ensures
        match res {
            Ok(turn) => {
                &&& sound(state@)
                &&& covers(distances@, state@.planets.len())
                &&& has_own(state@) && has_other(state@) ==> plan_fits(state@, distances@)
                &&& turn@ == plan(state@, distances@)
                &&& !has_own(state@) || !has_other(state@) ==> turn@.len() == 0
                &&& distinct_origins(turn@)
                &&& forall|k: int| 0 <= k < turn@.len() ==> guarded(state@, #[trigger] turn@[k])
                &&& forall|s: int, d: int| !candidate(state@, origins(turn@), s, d)
            },
            Err(PlanError::InvalidSnapshot { fleet }) => {
                &&& fleet < state@.fleets.len()
                &&& dangling(state@, fleet as int)
                &&& forall|j: int| 0 <= j < fleet ==> !dangling(state@, j)
            },
            Err(PlanError::DistanceTable) => {
                &&& sound(state@)
                &&& !covers(distances@, state@.planets.len())
            },
            Err(PlanError::Overflow) => {
                &&& sound(state@)
                &&& covers(distances@, state@.planets.len())
                &&& has_own(state@)
                &&& has_other(state@)
                &&& !plan_fits(state@, distances@)
            },
        },
{
    match check_references(state) {
        Ok(_) => {},
        Err(e) => {
            return Err(e);
        },
    }
    let n: usize = state.planets.len();
    if !covers_planets(distances, n) {
        return Err(PlanError::DistanceTable);
    }
    let mut moves: Vec<Move> = Vec::new();
    let ghost none: Set<Seq<char>> = Set::empty();
    proof {
        lemma_plan_guarded(state@, distances@, none);
        lemma_plan_one_launch_each(state@, distances@, none);
        lemma_plan_exhausts(state@, distances@, none);
        assert(none.union(origins(plan(state@, distances@))) == origins(plan(state@, distances@)));
    }
    let sides = sides_present(state);
    if !sides.0 || !sides.1 {
        proof {
            lemma_nothing_open(state@, distances@, none);
            assert(moves@.map_values(|m: Move| m@) == plan(state@, distances@));
        }
        return Ok(Turn { moves });
    }
    let targets = match project_targets(state) {
        Ok(targets) => targets,
        Err(e) => {
            return Err(e);
        },
    };
    let mut spent: Vec<bool> = Vec::new();
    for i in 0..n
        invariant
            spent.len() == i,
            forall|k: int| 0 <= k < i ==> !spent[k],
    {
        spent.push(false);
    }
    let ghost mut used: Set<Seq<char>> = none;
    let mut searching: bool = true;
    while searching
        invariant
            n == state.planets.len(),
            none == Set::<Seq<char>>::empty(),
            sound(state@),
            has_own(state@),
            has_other(state@),
            targets_fit(state@),
            covers(distances@, state@.planets.len()),
            holds_targets(state@, targets@),
            flags(state@, spent@, used),
            moves.len() == 0 && searching ==> used == none,
            moves.len() > 0 || !searching ==> costs_fit(state@, distances@, none),
            !searching ==> plan_from(state@, distances@, used).len() == 0,
            moves@.map_values(|m: Move| m@) + plan_from(state@, distances@, used) == plan(
                state@,
                distances@,
            ),
        decreases idle(state@, used).len() + if searching { 1nat } else { 0nat },
    {
        match cheapest(state, distances, &targets, &spent, Ghost(used)) {
            Err(e) => {
                proof {
                    let (s, d) = choose|s: int, d: int|
                        candidate(state@, used, s, d) && pair_cost(state@, distances@, s, d)
                            > usize::MAX;
                    assert(candidate(state@, none, s, d));
                }
                return Err(e);
            },
            Ok(None) => {
                proof {
                    lemma_nothing_open(state@, distances@, used);
                }
                searching = false;
            },
            Ok(Some(pick)) => {
                let origin = state.planets[pick.0].name.clone();
                let destination = state.planets[pick.1].name.clone();
                let ghost before = moves@.map_values(|m: Move| m@);
                let ghost chosen = (pick.0 as int, pick.1 as int);
                let ghost next = used.insert(state@.planets[pick.0 as int].name);
                proof {
                    lemma_choice_is(state@, distances@, used, chosen);
                    lemma_idle_shrinks(state@, used, chosen.0);
                    lemma_garrison_nonnegative(state@.planets[chosen.1], state@.fleets);
                }
                moves.push(Move { origin, destination, ship_count: pick.2 });
                proof {
                    assert(moves@.map_values(|m: Move| m@) == before.push(launch(state@, chosen)));
                    assert(before.push(launch(state@, chosen)) + plan_from(
                        state@,
                        distances@,
                        next,
                    ) == before + plan_from(state@, distances@, used));
                }
                for i in 0..n
                    invariant
                        n == state.planets.len(),
                        pick.0 < n,
                        spent.len() == n,
                        next == used.insert(state@.planets[pick.0 as int].name),
                        forall|k: int|
                            0 <= k < i ==> #[trigger] spent[k] == next.contains(
                                state@.planets[k].name,
                            ),
                        forall|k: int|
                            i <= k < n ==> #[trigger] spent[k] == used.contains(
                                state@.planets[k].name,
                            ),
                {
                    if state.planets[i].name == state.planets[pick.0].name {
                        spent.set(i, true);
                    }
                }
                proof {
                    used = next;
                }
            },
        }
    }
    Ok(Turn { moves })
}

} // verus!
