//! The data of one decision cycle and its mathematical model.

use vstd::prelude::*;

verus! {

/// Faction id of a planet that nobody owns.
pub const NEUTRAL: usize = 0;

/// Faction id reserved for the engine's own side.
pub const OWN_FACTION: usize = 1;

/// A planet as the engine reads it. `owner` absent, or present as `0`, means
/// that the planet is neutral.
#[derive(Clone, Debug)]
pub struct Planet {
    pub name: String,
    pub owner: Option<usize>,
    pub ship_count: usize,
}

/// A fleet in flight.
#[derive(Clone, Debug)]
pub struct Expedition {
    pub id: usize,
    pub origin: String,
    pub destination: String,
    pub turns_remaining: usize,
    pub owner: usize,
    pub ship_count: usize,
}

/// Everything visible at decision time.
#[derive(Clone, Debug)]
pub struct GameState {
    pub planets: Vec<Planet>,
    pub expeditions: Vec<Expedition>,
}

/// Rounded-up travel distances: `rows[s][d]` is the distance from the planet
/// at position `s` of the snapshot to the planet at position `d`.
#[derive(Clone, Debug)]
pub struct Distances {
    pub rows: Vec<Vec<usize>>,
}

/// A launch of `ship_count` ships from `origin` to `destination`.
#[derive(Clone, Debug)]
pub struct Move {
    pub origin: String,
    pub destination: String,
    pub ship_count: usize,
}

/// The engine's answer for one turn, in the order the launches were chosen.
#[derive(Clone, Debug)]
pub struct Turn {
    pub moves: Vec<Move>,
}

/// Why the engine gave no answer.
#[derive(Clone, Copy, Debug, PartialEq, Eq)]
pub enum PlanError {
    /// The fleet at position `fleet` names an origin or a destination that is
    /// no planet of the snapshot.
    InvalidSnapshot { fleet: usize },
    /// The distance table does not hold one entry per pair of planets.
    DistanceTable,
    /// A garrison or a cost does not fit the machine's integers.
    Overflow,
}

/// Model of a planet: its name, its owner (`0` is neutral) and its garrison.
pub struct PlanetView {
    pub name: Seq<char>,
    pub owner: nat,
    pub ships: nat,
}

/// Model of a fleet in flight.
pub struct FleetView {
    pub id: nat,
    pub origin: Seq<char>,
    pub destination: Seq<char>,
    pub arrival: nat,
    pub owner: nat,
    pub ships: nat,
}

/// Model of a snapshot.
pub struct SnapshotView {
    pub planets: Seq<PlanetView>,
    pub fleets: Seq<FleetView>,
}

/// Model of a launch.
pub struct MoveView {
    pub origin: Seq<char>,
    pub destination: Seq<char>,
    pub ships: nat,
}

/// The faction that holds a planet, with "nobody" folded into `0`.
pub open spec fn faction_of(owner: Option<usize>) -> nat {
    match owner {
        Some(id) => id as nat,
        None => NEUTRAL as nat,
    }
}

impl View for Planet {
    type V = PlanetView;

    open spec fn view(&self) -> PlanetView {
        PlanetView { name: self.name@, owner: faction_of(self.owner), ships: self.ship_count as nat }
    }
}

impl View for Expedition {
    type V = FleetView;

    open spec fn view(&self) -> FleetView {
        FleetView {
            id: self.id as nat,
            origin: self.origin@,
            destination: self.destination@,
            arrival: self.turns_remaining as nat,
            owner: self.owner as nat,
            ships: self.ship_count as nat,
        }
    }
}

impl View for GameState {
    type V = SnapshotView;

    open spec fn view(&self) -> SnapshotView {
        SnapshotView {
            planets: self.planets@.map_values(|p: Planet| p@),
            fleets: self.expeditions@.map_values(|e: Expedition| e@),
        }
    }
}

impl View for Distances {
    type V = Seq<Seq<nat>>;

    open spec fn view(&self) -> Seq<Seq<nat>> {
        self.rows@.map_values(|row: Vec<usize>| row@.map_values(|d: usize| d as nat))
    }
}

impl View for Move {
    type V = MoveView;

    open spec fn view(&self) -> MoveView {
        MoveView { origin: self.origin@, destination: self.destination@, ships: self.ship_count as nat }
    }
}

impl View for Turn {
    type V = Seq<MoveView>;

    open spec fn view(&self) -> Seq<MoveView> {
        self.moves@.map_values(|m: Move| m@)
    }
}

impl Planet {
    /// The owner as a faction id, `0` for a neutral planet.
    pub open spec fn faction_id(&self) -> usize {
        match self.owner {
            Some(id) => id,
            None => NEUTRAL,
        }
    }

    /// The owner as a faction id, `0` for a neutral planet.
    #[verifier::when_used_as_spec(faction_id)]
    pub fn faction(&self) -> (id: usize)
        ensures
            id == self.faction_id(),
            id == self@.owner,
    {
        match self.owner {
            Some(id) => id,
            None => NEUTRAL,
        }
    }
}

} // verus!
