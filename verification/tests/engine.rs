//! Behavior of the geometry, the rules and the stepping engine.

use flowca::{Comparison, ConfigError, Model, Neighborhood, Rule, State};

fn single_rule_model(width: u32, height: u32, state_count: u32, rules: Vec<Rule>, grid: Vec<u32>) -> Model {
    let initial: Vec<State> = grid.into_iter().map(State).collect();
    Model::new(width, height, state_count, rules, initial).unwrap()
}

#[test]
fn manhattan_distance_max_count() {
    assert_eq!(Neighborhood::ManhattanDistance(2).max_count(), 15);
    assert_eq!(Neighborhood::ManhattanDistance(1).max_count(), 3);
    assert_eq!(Neighborhood::ManhattanDistance(3).max_count(), 35);
}

#[test]
fn fixed_neighborhood_max_counts() {
    assert_eq!(Neighborhood::VonNeumann.max_count(), 4);
    assert_eq!(Neighborhood::Conway.max_count(), 8);
}

#[test]
fn abs_diff_comparison() {
    assert!(Comparison::AbsDiff(0).cmp(5, 5));
    assert!(!Comparison::AbsDiff(0).cmp(5, 6));
    assert!(Comparison::AbsDiff(2).cmp(1, 3));
    assert!(Comparison::AbsDiff(2).cmp(3, 1));
    assert!(!Comparison::AbsDiff(2).cmp(3, 2));
}

#[test]
fn plain_comparisons() {
    assert!(Comparison::Equal.cmp(4, 4));
    assert!(!Comparison::Equal.cmp(4, 5));
    assert!(Comparison::GreaterThan.cmp(5, 4));
    assert!(!Comparison::GreaterThan.cmp(4, 4));
    assert!(Comparison::GreaterThanOrEqual.cmp(4, 4));
    assert!(!Comparison::GreaterThanOrEqual.cmp(3, 4));
    assert!(Comparison::LessThan.cmp(3, 4));
    assert!(!Comparison::LessThan.cmp(4, 4));
    assert!(Comparison::LessThanOrEqual.cmp(4, 4));
    assert!(!Comparison::LessThanOrEqual.cmp(5, 4));
}

#[test]
fn von_neumann_neighbors_at_center() {
    let n = Neighborhood::VonNeumann.neighbors(4, (3, 3));
    assert_eq!(n, vec![5, 7, 3, 1]);
}

#[test]
fn conway_neighbors_at_center() {
    let n = Neighborhood::Conway.neighbors(4, (3, 3));
    assert_eq!(n, vec![5, 8, 2, 7, 3, 6, 0, 1]);
}

#[test]
fn neighbors_clip_at_edges() {
    // top-left corner of a 3x3 grid
    let n = Neighborhood::VonNeumann.neighbors(0, (3, 3));
    assert_eq!(n, vec![1, 3]);
    let n = Neighborhood::Conway.neighbors(0, (3, 3));
    assert_eq!(n, vec![1, 4, 3]);
}

#[test]
fn manhattan_window_is_half_open_and_holds_self() {
    // radius 1 spans dx, dy in -1..1, so it reaches up and left only,
    // and keeps the cell itself
    let n = Neighborhood::ManhattanDistance(1).neighbors(4, (3, 3));
    assert_eq!(n, vec![0, 3, 1, 4]);
}

#[test]
fn rule_apply_fires_on_match() {
    let rule = Rule {
        neighborhood: Neighborhood::VonNeumann,
        current: State(0),
        state_of_interest: State(1),
        target: 1,
        comparison: Comparison::GreaterThanOrEqual,
        result: State(1),
    };
    let world: Vec<State> = vec![0, 0, 0, 0, 1, 0, 0, 0, 0].into_iter().map(State).collect();
    // cell 1 has the center among its von Neumann neighbors
    assert_eq!(rule.apply(1, (3, 3), &world), Some(State(1)));
    // cell 0 does not
    assert_eq!(rule.apply(0, (3, 3), &world), None);
    // the center itself is not in state `current`
    assert_eq!(rule.apply(4, (3, 3), &world), None);
}

#[test]
fn single_seed_step_scenario() {
    // 3x3, two states, one rule: a cell in state 0 with at least one von
    // Neumann neighbor in state 1 becomes 1; initially only the center is 1
    let rule = Rule {
        neighborhood: Neighborhood::VonNeumann,
        current: State(0),
        state_of_interest: State(1),
        target: 1,
        comparison: Comparison::GreaterThanOrEqual,
        result: State(1),
    };
    let mut m = single_rule_model(3, 3, 2, vec![rule], vec![0, 0, 0, 0, 1, 0, 0, 0, 0]);
    m.step();
    assert_eq!(m.states(), vec![0, 1, 0, 1, 1, 1, 0, 1, 0]);
}

#[test]
fn reset_restores_the_initial_grid() {
    let mut m = Model::new_random(8, 6, 4, 3, 11).unwrap();
    let initial = m.states();
    m.step_for(5);
    m.reset();
    assert_eq!(m.states(), initial);
}

#[test]
fn states_stay_below_state_count() {
    let mut m = Model::new_random(10, 10, 6, 4, 99).unwrap();
    assert!(m.states().iter().all(|&s| s < 4));
    m.step_for(10);
    assert!(m.states().iter().all(|&s| s < 4));
    m.mutate(7);
    m.step_for(5);
    assert!(m.states().iter().all(|&s| s < 4));
    m.reset_random(13);
    assert!(m.states().iter().all(|&s| s < 4));
}

#[test]
fn same_seed_same_run() {
    let mut a = Model::new_random(12, 9, 5, 3, 42).unwrap();
    let mut b = Model::new_random(12, 9, 5, 3, 42).unwrap();
    assert_eq!(a.states(), b.states());
    for _ in 0..20 {
        a.step();
        b.step();
        assert_eq!(a.states(), b.states());
    }
}

#[test]
fn different_seeds_usually_differ() {
    let a = Model::new_random(12, 9, 5, 3, 1).unwrap();
    let b = Model::new_random(12, 9, 5, 3, 2).unwrap();
    assert_ne!(a.states(), b.states());
}

#[test]
fn step_for_matches_stepping_in_a_loop() {
    let mut a = Model::new_random(7, 7, 4, 3, 5).unwrap();
    let mut b = Model::new_random(7, 7, 4, 3, 5).unwrap();
    a.step_for(9);
    for _ in 0..9 {
        b.step();
    }
    assert_eq!(a.states(), b.states());
}

#[test]
fn rule_order_decides_the_winner() {
    // on a 1x1 grid both rules fire (zero neighbors equals a target of
    // zero), so whichever comes first decides the next state
    let first = Rule {
        neighborhood: Neighborhood::VonNeumann,
        current: State(0),
        state_of_interest: State(0),
        target: 0,
        comparison: Comparison::Equal,
        result: State(1),
    };
    let second = Rule { result: State(2), ..first };
    let mut a = single_rule_model(1, 1, 3, vec![first, second], vec![0]);
    let mut b = single_rule_model(1, 1, 3, vec![second, first], vec![0]);
    a.step();
    b.step();
    assert_eq!(a.states(), vec![1]);
    assert_eq!(b.states(), vec![2]);
    assert_ne!(a.states(), b.states());
}

#[test]
fn unmatched_cells_keep_their_state() {
    // no rules at all: the grid is a fixed point
    let mut m = single_rule_model(2, 2, 3, vec![], vec![2, 1, 0, 1]);
    m.step_for(4);
    assert_eq!(m.states(), vec![2, 1, 0, 1]);
}

#[test]
fn construction_rejects_an_empty_grid() {
    assert_eq!(Model::new_random(0, 5, 3, 2, 1).unwrap_err(), ConfigError::EmptyGrid);
    assert_eq!(Model::new_random(5, 0, 3, 2, 1).unwrap_err(), ConfigError::EmptyGrid);
    assert_eq!(
        Model::new(0, 4, 2, vec![], vec![]).unwrap_err(),
        ConfigError::EmptyGrid
    );
}

#[test]
fn construction_rejects_zero_states() {
    assert_eq!(Model::new_random(4, 4, 3, 0, 1).unwrap_err(), ConfigError::NoStates);
}

#[test]
fn getters_report_the_configuration() {
    let m = Model::new_random(6, 5, 7, 4, 3).unwrap();
    assert_eq!(m.rule_count(), 7);
    assert_eq!(m.state_count(), 4);
    assert_eq!(m.states().len(), 30);
}

#[test]
fn mutate_keeps_the_grid_and_rule_count() {
    let mut m = Model::new_random(6, 5, 7, 4, 3).unwrap();
    let before = m.states();
    m.mutate(17);
    assert_eq!(m.states(), before);
    assert_eq!(m.rule_count(), 7);
    m.perturb(18);
    assert_eq!(m.states(), before);
    assert_eq!(m.rule_count(), 7);
}

#[test]
fn reset_random_replaces_the_snapshot() {
    let mut m = Model::new_random(20, 20, 3, 4, 8).unwrap();
    m.step_for(3);
    m.reset_random(1234);
    let fresh = m.states();
    assert_eq!(fresh.len(), 400);
    assert!(fresh.iter().all(|&s| s < 4));
    // the fresh grid is now the snapshot reset() returns to
    m.step_for(3);
    m.reset();
    assert_eq!(m.states(), fresh);
}
