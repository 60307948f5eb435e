//! Bounds that every randomized draw respects, whatever the seed.

use flowca::{Comparison, Neighborhood, Rule, State};
use rand::rngs::SmallRng;
use rand::SeedableRng;

fn rule_fields_in_range(r: &Rule, state_count: u32) -> bool {
    let mc = r.neighborhood.max_count();
    let cmp_ok = match r.comparison {
        Comparison::AbsDiff(d) => 1 <= d && d < mc,
        _ => true,
    };
    r.current.0 < state_count
        && r.state_of_interest.0 < state_count
        && r.result.0 < state_count
        && cmp_ok
}

#[test]
fn random_rules_respect_their_bounds() {
    let mut rng = SmallRng::seed_from_u64(2024);
    for _ in 0..200 {
        let r = Rule::new_random(4, &mut rng);
        assert!(rule_fields_in_range(&r, 4));
        assert!(r.target < r.neighborhood.max_count());
        match r.neighborhood {
            Neighborhood::ManhattanDistance(d) => assert!((1..4).contains(&d)),
            _ => panic!("a fresh rule draws a Manhattan window"),
        }
    }
}

#[test]
fn random_comparisons_bound_their_distance() {
    let mut rng = SmallRng::seed_from_u64(7);
    for _ in 0..200 {
        match Comparison::new_random(8, &mut rng) {
            Comparison::AbsDiff(d) => assert!((1..8).contains(&d)),
            _ => {}
        }
    }
}

#[test]
fn mutate_redraws_the_whole_rule_in_range() {
    let mut rng = SmallRng::seed_from_u64(3);
    let mut r = Rule {
        neighborhood: Neighborhood::VonNeumann,
        current: State(0),
        state_of_interest: State(0),
        target: 0,
        comparison: Comparison::Equal,
        result: State(0),
    };
    for _ in 0..50 {
        r.mutate(3, &mut rng);
        assert!(rule_fields_in_range(&r, 3));
        assert!(r.target < r.neighborhood.max_count());
    }
}

#[test]
fn perturb_changes_at_most_one_field() {
    let mut rng = SmallRng::seed_from_u64(5);
    for _ in 0..200 {
        let before = Rule::new_random(4, &mut rng);
        let mut after = before;
        after.perturb(4, &mut rng);
        assert!(rule_fields_in_range(&after, 4));
        let mut changed = 0;
        if after.neighborhood != before.neighborhood {
            changed += 1;
        }
        if after.current != before.current {
            changed += 1;
        }
        if after.state_of_interest != before.state_of_interest {
            changed += 1;
        }
        if after.target != before.target {
            changed += 1;
            // the target only ever drops by one here: the nudge is drawn
            // from {-1, 0} and the start value is already in clamp range
            assert_eq!(after.target + 1, before.target);
        }
        if after.comparison != before.comparison {
            changed += 1;
        }
        if after.result != before.result {
            changed += 1;
        }
        assert!(changed <= 1);
    }
}
