use fleet_planner::{arrival_order, simulate_arrivals, Expedition, GameState, PlanError, Planet};

fn planet(name: &str, owner: Option<usize>, ship_count: usize) -> Planet {
    Planet { name: name.to_string(), owner, ship_count }
}

fn fleet(id: usize, destination: &str, turns_remaining: usize, owner: usize, ship_count: usize) -> Expedition {
    Expedition {
        id,
        origin: "Base".to_string(),
        destination: destination.to_string(),
        turns_remaining,
        owner,
        ship_count,
    }
}

fn snapshot(target: &Planet, expeditions: Vec<Expedition>) -> GameState {
    GameState { planets: vec![planet("Base", Some(1), 50), target.clone()], expeditions }
}

#[test]
fn test_simulate_arrivals() {
    let leegistan = Planet {
        name: "Planeet Leegistan".to_string(),
        owner: Some(1),
        ship_count: 0,
    };
    let neemmijover = Planet {
        name: "Planeet Neemmijover".to_string(),
        owner: None,
        ship_count: 1,
    };
    let swaparoo = Planet {
        name: "Planeet Swaparoo".to_string(),
        owner: None,
        ship_count: 1,
    };
    let reinforcement = Planet {
        name: "Planeet Reinforcement".to_string(),
        owner: Some(1),
        ship_count: 1,
    };
    let dummy_gamestate: GameState = GameState {
        planets: vec![
            leegistan.clone(),
            neemmijover.clone(),
            swaparoo.clone(),
            reinforcement.clone(),
        ],
        expeditions: vec![
            Expedition {
                destination: "Planeet Neemmijover".to_string(),
                id: 1,
                origin: "Planeet Leegistan".to_string(),
                owner: 2,
                ship_count: 2,
                turns_remaining: 2,
            },
            Expedition {
                destination: "Planeet Swaparoo".to_string(),
                id: 2,
                origin: "Planeet Leegistan".to_string(),
                owner: 2,
                ship_count: 2,
                turns_remaining: 1,
            },
            Expedition {
                destination: "Planeet Swaparoo".to_string(),
                id: 3,
                origin: "Planeet Leegistan".to_string(),
                owner: 1,
                ship_count: 20,
                turns_remaining: 10,
            },
            Expedition {
                destination: "Planeet Reinforcement".to_string(),
                id: 4,
                origin: "Planeet Leegistan".to_string(),
                owner: 1,
                ship_count: 2,
                turns_remaining: 2,
            },
        ],
    };

    assert_eq!(Ok((1, 0)), simulate_arrivals(&leegistan, &dummy_gamestate));
    assert_eq!(Ok((2, 1)), simulate_arrivals(&neemmijover, &dummy_gamestate));
    assert_eq!(Ok((1, 10)), simulate_arrivals(&swaparoo, &dummy_gamestate));
    assert_eq!(Ok((1, 5)), simulate_arrivals(&reinforcement, &dummy_gamestate));
}

#[test]
fn neutral_planet_without_arrivals_stays_as_it_is() {
    let target = planet("Rock", None, 5);
    let state = snapshot(&target, vec![]);
    assert_eq!(Ok((0, 5)), simulate_arrivals(&target, &state));
}

#[test]
fn owner_zero_is_neutral_too() {
    let target = planet("Rock", Some(0), 5);
    let state = snapshot(&target, vec![fleet(1, "Rock", 7, 2, 3)]);
    // no growth in seven turns, then 5 against 3
    assert_eq!(Ok((0, 2)), simulate_arrivals(&target, &state));
}

#[test]
fn planet_without_contact_ignores_other_fleets() {
    let target = planet("Rock", Some(3), 9);
    let state = snapshot(&target, vec![fleet(1, "Base", 4, 2, 30), fleet(2, "Elsewhere", 1, 2, 30)]);
    assert_eq!(Ok((3, 9)), simulate_arrivals(&target, &state));
}

#[test]
fn equal_forces_leave_the_planet_neutral_and_empty() {
    // garrison 3 grows to 5 in two turns, then meets 5 attackers
    let target = planet("Keep", Some(1), 3);
    let state = snapshot(&target, vec![fleet(1, "Keep", 2, 2, 5)]);
    assert_eq!(Ok((0, 0)), simulate_arrivals(&target, &state));
}

#[test]
fn larger_attack_captures_with_its_surplus() {
    let target = planet("Keep", Some(1), 3);
    let state = snapshot(&target, vec![fleet(1, "Keep", 2, 2, 9)]);
    assert_eq!(Ok((2, 4)), simulate_arrivals(&target, &state));
}

#[test]
fn smaller_attack_is_absorbed() {
    let target = planet("Keep", Some(1), 3);
    let state = snapshot(&target, vec![fleet(1, "Keep", 2, 2, 4)]);
    assert_eq!(Ok((1, 1)), simulate_arrivals(&target, &state));
}

#[test]
fn friendly_arrivals_add_growth_and_ships() {
    let target = planet("Keep", Some(4), 10);
    let state = snapshot(
        &target,
        vec![fleet(1, "Keep", 6, 4, 2), fleet(2, "Keep", 3, 4, 5), fleet(3, "Keep", 6, 4, 1)],
    );
    // 10 + 6 turns + (2 + 5 + 1) ships
    assert_eq!(Ok((4, 24)), simulate_arrivals(&target, &state));
}

#[test]
fn growth_resumes_under_the_new_owner() {
    let target = planet("Rock", None, 4);
    let state = snapshot(&target, vec![fleet(1, "Rock", 3, 2, 6), fleet(2, "Rock", 8, 1, 5)]);
    // neutral for 3 turns: 4 against 6 leaves 2 for faction 2; 5 turns of
    // growth make 7, which absorbs 5
    assert_eq!(Ok((2, 2)), simulate_arrivals(&target, &state));
}

#[test]
fn fleets_land_by_time_not_by_position() {
    let target = planet("Rock", None, 1);
    let late_first = snapshot(&target, vec![fleet(1, "Rock", 10, 1, 20), fleet(2, "Rock", 1, 2, 2)]);
    let early_first = snapshot(&target, vec![fleet(2, "Rock", 1, 2, 2), fleet(1, "Rock", 10, 1, 20)]);
    assert_eq!(Ok((1, 10)), simulate_arrivals(&target, &late_first));
    assert_eq!(Ok((1, 10)), simulate_arrivals(&target, &early_first));
}

#[test]
fn fleets_of_one_turn_land_in_snapshot_order() {
    let target = planet("Rock", None, 1);
    let two_then_three = snapshot(&target, vec![fleet(1, "Rock", 4, 2, 2), fleet(2, "Rock", 4, 3, 2)]);
    let three_then_two = snapshot(&target, vec![fleet(2, "Rock", 4, 3, 2), fleet(1, "Rock", 4, 2, 2)]);
    assert_eq!(Ok((3, 1)), simulate_arrivals(&target, &two_then_three));
    assert_eq!(Ok((2, 1)), simulate_arrivals(&target, &three_then_two));
}

#[test]
fn arrival_order_sorts_stably_and_filters() {
    let target = planet("Rock", None, 1);
    let state = snapshot(
        &target,
        vec![
            fleet(10, "Rock", 5, 2, 1),
            fleet(11, "Base", 1, 2, 1),
            fleet(12, "Rock", 2, 2, 1),
            fleet(13, "Rock", 5, 3, 1),
            fleet(14, "Rock", 2, 3, 1),
            fleet(15, "Rock", 0, 3, 1),
        ],
    );
    assert_eq!(vec![5, 2, 4, 0, 3], arrival_order(&target.name, &state));
    assert_eq!(vec![1], arrival_order(&"Base".to_string(), &state));
    assert_eq!(Vec::<usize>::new(), arrival_order(&"Nowhere".to_string(), &state));
}

#[test]
fn projection_reports_growth_that_does_not_fit() {
    let target = planet("Keep", Some(2), usize::MAX);
    let state = snapshot(&target, vec![fleet(1, "Keep", 1, 3, usize::MAX)]);
    assert_eq!(Err(PlanError::Overflow), simulate_arrivals(&target, &state));
}

#[test]
fn projection_reports_reinforcement_that_does_not_fit() {
    let target = planet("Keep", Some(2), usize::MAX - 1);
    let state = snapshot(&target, vec![fleet(1, "Keep", 0, 2, 2)]);
    assert_eq!(Err(PlanError::Overflow), simulate_arrivals(&target, &state));
}

#[test]
fn projection_at_the_limit_fits() {
    let target = planet("Keep", Some(2), usize::MAX - 3);
    let state = snapshot(&target, vec![fleet(1, "Keep", 1, 2, 2)]);
    assert_eq!(Ok((2, usize::MAX)), simulate_arrivals(&target, &state));
    let neutral = planet("Rock", None, usize::MAX);
    let state = snapshot(&neutral, vec![fleet(1, "Rock", 9, 2, usize::MAX)]);
    assert_eq!(Ok((0, 0)), simulate_arrivals(&neutral, &state));
}

#[test]
fn garrison_is_the_gap_between_the_sides() {
    for garrison in 0..6usize {
        for attackers in 0..12usize {
            for turns in 0..4usize {
                let target = planet("Keep", Some(2), garrison);
                let state = snapshot(&target, vec![fleet(1, "Keep", turns, 3, attackers)]);
                let defenders = garrison + turns;
                let expected = if attackers > defenders {
                    (3, attackers - defenders)
                } else if attackers == defenders {
                    (0, 0)
                } else {
                    (2, defenders - attackers)
                };
                assert_eq!(Ok(expected), simulate_arrivals(&target, &state));
            }
        }
    }
}
