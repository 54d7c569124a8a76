use fleet_planner::planner::{project_targets, sides_present};
use fleet_planner::validity::{covers_planets, names_planet};
use fleet_planner::{Distances, Expedition, GameState, PlanError, Planet, NEUTRAL, OWN_FACTION};

fn planet(name: &str, owner: Option<usize>, ship_count: usize) -> Planet {
    Planet { name: name.to_string(), owner, ship_count }
}

fn fleet(destination: &str, turns_remaining: usize, owner: usize, ship_count: usize) -> Expedition {
    Expedition {
        id: 7,
        origin: "Home".to_string(),
        destination: destination.to_string(),
        turns_remaining,
        owner,
        ship_count,
    }
}

#[test]
fn faction_folds_nobody_into_neutral() {
    assert_eq!(0, NEUTRAL);
    assert_eq!(1, OWN_FACTION);
    assert_eq!(0, planet("Rock", None, 1).faction());
    assert_eq!(0, planet("Rock", Some(0), 1).faction());
    assert_eq!(1, planet("Home", Some(1), 1).faction());
    assert_eq!(9, planet("Foe", Some(9), 1).faction());
}

#[test]
fn names_are_looked_up_exactly() {
    let state = GameState { planets: vec![planet("Home", Some(1), 1), planet("Rock", None, 1)], expeditions: vec![] };
    assert!(names_planet(&"Home".to_string(), &state));
    assert!(names_planet(&"Rock".to_string(), &state));
    assert!(!names_planet(&"home".to_string(), &state));
    assert!(!names_planet(&"".to_string(), &state));
}

#[test]
fn table_must_be_square_and_of_the_right_size() {
    assert!(covers_planets(&Distances { rows: vec![] }, 0));
    assert!(covers_planets(&Distances { rows: vec![vec![0, 1], vec![1, 0]] }, 2));
    assert!(!covers_planets(&Distances { rows: vec![vec![0, 1], vec![1, 0]] }, 3));
    assert!(!covers_planets(&Distances { rows: vec![vec![0, 1], vec![1, 0, 2]] }, 2));
    assert!(!covers_planets(&Distances { rows: vec![vec![0], vec![1]] }, 2));
}

#[test]
fn sides_are_told_apart_by_the_own_faction() {
    let sides = |planets: Vec<Planet>| sides_present(&GameState { planets, expeditions: vec![] });
    assert_eq!((false, false), sides(vec![]));
    assert_eq!((true, false), sides(vec![planet("Home", Some(1), 1)]));
    assert_eq!((false, true), sides(vec![planet("Foe", Some(2), 1), planet("Rock", None, 1)]));
    assert_eq!((true, true), sides(vec![planet("Foe", Some(2), 1), planet("Home", Some(1), 1)]));
}

#[test]
fn targets_are_projected_and_own_planets_are_not() {
    let state = GameState {
        planets: vec![planet("Foe", Some(2), 3), planet("Home", Some(1), 8), planet("Rock", None, 4)],
        expeditions: vec![fleet("Foe", 2, 2, 1), fleet("Home", 2, 1, 1), fleet("Rock", 5, 1, 6)],
    };
    assert_eq!(Ok(vec![(2, 6), (0, 0), (1, 2)]), project_targets(&state));
}

#[test]
fn targets_report_a_projection_that_does_not_fit() {
    let state = GameState {
        planets: vec![planet("Home", Some(1), usize::MAX), planet("Foe", Some(2), usize::MAX)],
        expeditions: vec![fleet("Home", 1, 1, 1)],
    };
    // the own planet would not fit either, but it is never projected
    assert_eq!(Ok(vec![(0, 0), (2, usize::MAX)]), project_targets(&state));
    let state = GameState {
        planets: vec![planet("Home", Some(1), 5), planet("Foe", Some(2), usize::MAX)],
        expeditions: vec![fleet("Foe", 1, 1, 1)],
    };
    assert_eq!(Err(PlanError::Overflow), project_targets(&state));
}
