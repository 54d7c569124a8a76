use fleet_planner::{rate, score, GameState, PlanError, Planet, Expedition};

fn rounded_distance(from: (f64, f64), to: (f64, f64)) -> usize {
    let dx = from.0 - to.0;
    let dy = from.1 - to.1;
    (dx * dx + dy * dy).sqrt().ceil() as usize
}

#[test]
fn test_score_fewer_ships() {
    // Same distance, fewer ships should pick fewest ships
    let homebase = Planet {
        name: "Homebase".to_string(),
        owner: Some(1),
        ship_count: 10,
    };
    let homebase_at = (0.0, 0.0);
    let fort = Planet {
        name: "Fort".to_string(),
        owner: Some(2),
        ship_count: 8,
    };
    let fort_at = (1.0, 0.0);
    let mudhut = Planet {
        name: "Mud Hut".to_string(),
        owner: Some(2),
        ship_count: 1,
    };
    let mudhut_at = (-1.0, 0.0);
    let dummy_gamestate: GameState = GameState {
        planets: vec![
            homebase.clone(),
            fort.clone(),
            mudhut.clone(),
        ],
        expeditions: vec![],
    };

    let mudhut_score = score(&homebase, &mudhut, rounded_distance(homebase_at, mudhut_at), &dummy_gamestate).unwrap();
    let fort_score = score(&homebase, &fort, rounded_distance(homebase_at, fort_at), &dummy_gamestate).unwrap();
    assert!(mudhut_score.1 < fort_score.1);
}

#[test]
fn test_score_empty_planet() {
    let homebase = Planet {
        name: "Homebase".to_string(),
        owner: Some(1),
        ship_count: 10,
    };
    let homebase_at = (0.0, 0.0);
    let empty = Planet {
        name: "Empty".to_string(),
        owner: None,
        ship_count: 0,
    };
    let empty_at = (1.0, 0.0);
    let dummy_gamestate: GameState = GameState {
        planets: vec![
            homebase.clone(),
            empty.clone(),
        ],
        expeditions: vec![],
    };

    let empty_score = score(&homebase, &empty, rounded_distance(homebase_at, empty_at), &dummy_gamestate).unwrap().1;
    assert!(empty_score > 0);
}

fn planet(name: &str, owner: Option<usize>, ship_count: usize) -> Planet {
    Planet { name: name.to_string(), owner, ship_count }
}

fn fleet(destination: &str, turns_remaining: usize, owner: usize, ship_count: usize) -> Expedition {
    Expedition {
        id: 0,
        origin: "Home".to_string(),
        destination: destination.to_string(),
        turns_remaining,
        owner,
        ship_count,
    }
}

#[test]
fn score_is_force_and_force_times_distance() {
    let home = planet("Home", Some(1), 10);
    let target = planet("Target", Some(2), 2);
    let state = GameState { planets: vec![home.clone(), target.clone()], expeditions: vec![] };
    assert_eq!(Ok((3, 9)), score(&home, &target, 3, &state));
    assert_eq!(Ok((3, 0)), score(&home, &target, 0, &state));
}

#[test]
fn score_rounds_the_distance_up() {
    let home = planet("Home", Some(1), 10);
    let target = planet("Target", Some(2), 2);
    let state = GameState { planets: vec![home.clone(), target.clone()], expeditions: vec![] };
    let distance = rounded_distance((0.0, 0.0), (1.5, 2.0));
    assert_eq!(3, distance);
    assert_eq!(Ok((3, 9)), score(&home, &target, distance, &state));
}

#[test]
fn score_reads_the_projection_not_the_present() {
    let home = planet("Home", Some(1), 30);
    let target = planet("Target", Some(2), 2);
    let state = GameState {
        planets: vec![home.clone(), target.clone()],
        expeditions: vec![fleet("Target", 4, 2, 5)],
    };
    // 2 + 4 turns + 5 ships = 11 defenders, so 12 ships at distance 2
    assert_eq!(Ok((12, 24)), score(&home, &target, 2, &state));
}

#[test]
fn score_is_the_same_whenever_it_is_asked() {
    let home = planet("Home", Some(1), 30);
    let near = planet("Near", Some(2), 2);
    let far = planet("Far", None, 7);
    let state = GameState {
        planets: vec![home.clone(), near.clone(), far.clone()],
        expeditions: vec![fleet("Near", 4, 2, 5), fleet("Far", 1, 3, 9)],
    };
    let first_near = score(&home, &near, 2, &state);
    let first_far = score(&home, &far, 5, &state);
    let second_far = score(&home, &far, 5, &state);
    let second_near = score(&home, &near, 2, &state);
    assert_eq!(first_near, second_near);
    assert_eq!(first_far, second_far);
    assert_eq!(Ok((3, 15)), first_far);
}

#[test]
fn launch_that_strips_the_source_does_not_pay() {
    let target = planet("Target", Some(2), 2);
    let state = GameState { planets: vec![target.clone()], expeditions: vec![] };
    assert_eq!(Ok((0, 0)), score(&planet("Home", Some(1), 3), &target, 1, &state));
    assert_eq!(Ok((0, 0)), score(&planet("Home", Some(1), 0), &target, 1, &state));
    assert_eq!(Ok((3, 3)), score(&planet("Home", Some(1), 4), &target, 1, &state));
}

#[test]
fn target_projected_as_own_does_not_pay() {
    let home = planet("Home", Some(1), 30);
    let target = planet("Target", Some(2), 2);
    let state = GameState {
        planets: vec![home.clone(), target.clone()],
        expeditions: vec![fleet("Target", 1, 1, 9)],
    };
    assert_eq!(Ok((0, 0)), score(&home, &target, 1, &state));
}

#[test]
fn score_reports_a_cost_that_does_not_fit() {
    let home = planet("Home", Some(1), 30);
    let target = planet("Target", Some(2), 1);
    let state = GameState { planets: vec![home.clone(), target.clone()], expeditions: vec![] };
    assert_eq!(Err(PlanError::Overflow), score(&home, &target, usize::MAX, &state));
    assert_eq!(Ok((2, usize::MAX - 1)), score(&home, &target, usize::MAX / 2, &state));
}

#[test]
fn score_reports_a_projection_that_does_not_fit() {
    let home = planet("Home", Some(1), 30);
    let target = planet("Target", Some(2), usize::MAX);
    let state = GameState {
        planets: vec![home.clone(), target.clone()],
        expeditions: vec![fleet("Target", 1, 2, 1)],
    };
    assert_eq!(Err(PlanError::Overflow), score(&home, &target, 1, &state));
}

#[test]
fn garrison_at_the_limit_does_not_pay() {
    let home = planet("Home", Some(1), usize::MAX);
    let target = planet("Target", None, usize::MAX);
    let state = GameState { planets: vec![home.clone(), target.clone()], expeditions: vec![] };
    assert_eq!(Ok((0, 0)), score(&home, &target, 1, &state));
}

#[test]
fn rate_takes_the_projection_as_it_is_given() {
    assert_eq!(Ok((6, 24)), rate(10, (2, 5), 4));
    assert_eq!(Ok((6, 24)), rate(7, (0, 5), 4));
    assert_eq!(Ok((0, 0)), rate(6, (0, 5), 4));
    assert_eq!(Ok((0, 0)), rate(10, (1, 5), 4));
    assert_eq!(Err(PlanError::Overflow), rate(10, (2, 5), usize::MAX / 3));
}
