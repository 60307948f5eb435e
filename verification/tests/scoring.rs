//! Behavior of the statistics layer: walks over recorded frames and the
//! sampled totals.

use flowca::stats::{first_conway_match, path_walk, sum_samples};
use flowca::{Model, State};

fn grid(cells: Vec<u32>) -> Vec<State> {
    cells.into_iter().map(State).collect()
}

fn still_model() -> Model {
    // no rules: nothing ever changes
    let initial = grid(vec![0, 1, 0, 1, 2, 1, 0, 1, 0]);
    Model::new(3, 3, 3, vec![], initial).unwrap()
}

#[test]
fn stats_need_seventeen_frames() {
    let mut m = still_model();
    m.step_for(16);
    assert!(m.stats().is_none());
    m.step();
    assert!(m.stats().is_some());
}

#[test]
fn motionless_run_scores_zero() {
    let mut m = still_model();
    m.step_for(20);
    let st = m.stats().unwrap();
    assert_eq!(st.path_score_total, 0);
    // 4 sampled frames (20 - 16) times all 9 cells
    assert_eq!(st.path_score_samples, 36);
}

#[test]
fn motionless_run_waiting_times_are_the_step_count() {
    let mut m = still_model();
    m.step_for(20);
    let st = m.stats().unwrap();
    // no transitions were ever logged, so the pool is the nine live
    // timers, each at 20; the sample takes the whole pool
    assert_eq!(st.time_in_state_samples, 9);
    assert_eq!(st.time_in_state_total, 180);
}

#[test]
fn path_walk_tracks_a_moving_blob() {
    // a lone 1 marches right one cell per frame along a 20x1 strip
    let mut frames: Vec<Vec<State>> = Vec::new();
    for k in 0..17 {
        let mut fr = vec![0u32; 20];
        fr[k] = 1;
        frames.push(grid(fr));
    }
    // fifteen moves of one cell each, squared
    assert_eq!(path_walk(&frames, (20, 1), 0, 0), 225);
}

#[test]
fn path_walk_stops_when_the_start_cell_recovers() {
    // the tracked state reappears at the start cell on the very next
    // frame, so the walk never moves
    let mut frames: Vec<Vec<State>> = Vec::new();
    for _ in 0..17 {
        frames.push(grid(vec![1, 0, 0, 0]));
    }
    assert_eq!(path_walk(&frames, (2, 2), 0, 0), 0);
}

#[test]
fn path_walk_stops_when_the_trail_goes_cold() {
    // the tracked state disappears entirely after one move
    let mut frames: Vec<Vec<State>> = Vec::new();
    frames.push(grid(vec![1, 0, 0, 0]));
    frames.push(grid(vec![0, 1, 0, 0]));
    for _ in 2..17 {
        frames.push(grid(vec![0, 0, 0, 0]));
    }
    // one move right: displacement (-1, 0)
    assert_eq!(path_walk(&frames, (2, 2), 0, 0), 1);
}

#[test]
fn first_conway_match_scans_in_order() {
    // around the center of a 3x3 grid the scan starts to the right
    let fr = grid(vec![0, 0, 0, 2, 0, 2, 0, 0, 0]);
    assert_eq!(first_conway_match(&fr, (3, 3), State(2), 4), Some(5));
    assert_eq!(first_conway_match(&fr, (3, 3), State(7), 4), None);
    // the cell itself is not part of its Moore neighborhood
    let lone = grid(vec![0, 0, 0, 0, 2, 0, 0, 0, 0]);
    assert_eq!(first_conway_match(&lone, (3, 3), State(2), 4), None);
}

#[test]
fn sum_samples_adds_the_picked_positions() {
    let pool: Vec<u32> = vec![5, 10, 20, 40];
    let idx: Vec<usize> = vec![2, 0];
    assert_eq!(sum_samples(&pool, &idx), 25);
    assert_eq!(sum_samples(&pool, &Vec::new()), 0);
}

#[test]
fn single_state_grids_hold_only_zero() {
    let m = Model::new_random(5, 5, 2, 1, 77).unwrap();
    assert!(m.states().iter().all(|&s| s == 0));
}

#[test]
fn path_score_total_respects_its_sample_bound() {
    let mut m = Model::new_random(10, 10, 5, 3, 21).unwrap();
    m.step_for(40);
    let st = m.stats().unwrap();
    assert!(st.path_score_total <= 450 * st.path_score_samples);
    assert_eq!(st.path_score_samples, 24 * 100);
}
