use match_planner::cost::{completion_cost, Cost};

#[test]
fn chain_scales_second_cost_by_fan_out() {
    let a = Cost { cost: 2000, io_ratio: 3000 };
    let b = Cost { cost: 500, io_ratio: 2000 };
    assert_eq!(a.chain(&b), Cost { cost: 3500, io_ratio: 6000 });
}

#[test]
fn chain_saturates() {
    let a = Cost { cost: u64::MAX - 1, io_ratio: 1000 };
    let b = Cost { cost: 10, io_ratio: 1000 };
    assert_eq!(a.chain(&b).cost, u64::MAX);
}

#[test]
fn join_adds_costs_and_divides_fan_out_by_key_size() {
    let a = Cost { cost: 100, io_ratio: 4000 };
    let b = Cost { cost: 200, io_ratio: 6000 };
    assert_eq!(a.join(&b, 2000), Cost { cost: 300, io_ratio: 12000 });
    // the fan-out never drops below one
    assert_eq!(a.join(&b, 1_000_000_000), Cost { cost: 300, io_ratio: 1000 });
}

#[test]
fn parallel_adds_both() {
    let a = Cost { cost: 100, io_ratio: 4000 };
    let b = Cost { cost: 200, io_ratio: 6000 };
    assert_eq!(a.combine_parallel(&b), Cost { cost: 300, io_ratio: 10000 });
}

#[test]
fn completion_cost_decays_per_produced_variable() {
    assert_eq!(completion_cost(1, 7), Cost { cost: 0, io_ratio: 1000 });
    assert_eq!(completion_cost(3, 0), Cost { cost: 3000, io_ratio: 1000 });
    assert_eq!(completion_cost(3, 2), Cost { cost: 2707, io_ratio: 1000 });
}

#[test]
fn trivial_threshold() {
    assert!(Cost::new_trivial().is_trivial());
    assert!(!Cost { cost: 11, io_ratio: 1000 }.is_trivial());
    assert_eq!(Cost::new_noop(), Cost { cost: 0, io_ratio: 1000 });
}
