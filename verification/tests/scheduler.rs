use kod_core::ecs::{System, SystemType, COMPONENT_TYPES};
use kod_core::scheduler::Scheduler;

fn sys(args: &[usize]) -> System {
    System { args: args.to_vec() }
}

fn compile(arg_lists: &[&[usize]]) -> Vec<Vec<usize>> {
    let mut s = Scheduler::new(10_000);
    for a in arg_lists {
        s.add_system_without_execution_order_generation(sys(a), SystemType::Update);
    }
    s.generate_execution_order();
    s.update_execution_order.clone()
}

#[test]
fn compile_same_registration_twice_is_identical() {
    let mut s = Scheduler::new(10_000);
    s.add_system_without_execution_order_generation(sys(&[0]), SystemType::Update);
    s.add_system_without_execution_order_generation(sys(&[1]), SystemType::Update);
    s.add_system_without_execution_order_generation(sys(&[0, 1]), SystemType::Update);
    s.add_system_without_execution_order_generation(sys(&[]), SystemType::Update);
    s.add_system_without_execution_order_generation(sys(&[COMPONENT_TYPES]), SystemType::Update);
    s.generate_execution_order();
    let first = s.update_execution_order.clone();
    s.generate_execution_order();
    let second = s.update_execution_order.clone();
    assert_eq!(first, second);
}

#[test]
fn greedy_fill_groups() {
    // A uses {T1}, B uses {T2}, C uses {T1}, registered A, B, C:
    // B joins A's group, C conflicts with A and opens the next group.
    let groups = compile(&[&[0], &[1], &[0]]);
    assert_eq!(groups, vec![vec![0, 1], vec![2]]);
}

#[test]
fn no_args_joins_first_group() {
    // A system declaring no types conflicts with nothing and joins the
    // first group it is scanned into.
    let groups = compile(&[&[0], &[1], &[0], &[]]);
    assert_eq!(groups, vec![vec![0, 1, 3], vec![2]]);
}

#[test]
fn wildcard_runs_alone() {
    let w = COMPONENT_TYPES;
    let groups = compile(&[&[0], &[w], &[1]]);
    assert_eq!(groups, vec![vec![0, 2], vec![1]]);

    let groups = compile(&[&[w], &[0], &[0]]);
    assert_eq!(groups, vec![vec![0], vec![1], vec![2]]);

    let groups = compile(&[&[w], &[w]]);
    assert_eq!(groups, vec![vec![0], vec![1]]);
}

#[test]
fn groups_are_pairwise_disjoint() {
    let arg_lists: Vec<Vec<usize>> = vec![
        vec![0],
        vec![0, 1],
        vec![1],
        vec![],
        vec![COMPONENT_TYPES],
        vec![0],
    ];
    let refs: Vec<&[usize]> = arg_lists.iter().map(|v| v.as_slice()).collect();
    let groups = compile(&refs);
    // Every registered system is placed exactly once.
    let mut placed: Vec<usize> = groups.iter().flatten().copied().collect();
    placed.sort();
    assert_eq!(placed, vec![0, 1, 2, 3, 4, 5]);
    // Within each group the declared sets are pairwise disjoint.
    for group in &groups {
        for (x, &a) in group.iter().enumerate() {
            for &b in group.iter().skip(x + 1) {
                for t in &arg_lists[a] {
                    assert!(
                        !arg_lists[b].contains(t),
                        "systems {a} and {b} share type {t} in group {group:?}"
                    );
                }
            }
        }
    }
}

#[test]
fn add_system_recompiles_at_once() {
    let mut s = Scheduler::new(10_000);
    s.add_system(sys(&[0]), SystemType::Update);
    assert_eq!(s.update_execution_order, vec![vec![0]]);
    s.add_system(sys(&[1]), SystemType::Update);
    assert_eq!(s.update_execution_order, vec![vec![0, 1]]);
    s.add_system(sys(&[0]), SystemType::Update);
    assert_eq!(s.update_execution_order, vec![vec![0, 1], vec![2]]);
    // Other phases are untouched.
    assert!(s.init_execution_order.is_empty());
    assert!(s.fixed_update_execution_order.is_empty());
    assert!(s.close_execution_order.is_empty());
}

#[test]
fn add_system_without_generation_leaves_order_stale() {
    let mut s = Scheduler::new(10_000);
    s.add_system_without_execution_order_generation(sys(&[0]), SystemType::Init);
    assert!(s.init_execution_order.is_empty());
    s.generate_execution_order();
    assert_eq!(s.init_execution_order, vec![vec![0]]);
}

#[test]
fn each_phase_keeps_its_own_list() {
    let mut s = Scheduler::new(10_000);
    s.add_system(sys(&[0]), SystemType::Init);
    s.add_system(sys(&[1]), SystemType::Update);
    s.add_system(sys(&[0]), SystemType::FixedUpdate);
    s.add_system(sys(&[1]), SystemType::Close);
    assert_eq!(s.init_systems.len(), 1);
    assert_eq!(s.update_systems.len(), 1);
    assert_eq!(s.fixed_update_systems.len(), 1);
    assert_eq!(s.close_systems.len(), 1);
    assert_eq!(s.init_execution_order, vec![vec![0]]);
    assert_eq!(s.update_execution_order, vec![vec![0]]);
    assert_eq!(s.fixed_update_execution_order, vec![vec![0]]);
    assert_eq!(s.close_execution_order, vec![vec![0]]);
}

#[test]
fn update_dt_follows_the_clock() {
    let mut s = Scheduler::new(10_000);
    let dt0 = s.init(1_000);
    assert_eq!(dt0, 0);
    let dt1 = s.update(3_000);
    assert_eq!(dt1, 2_000);
    let dt2 = s.update(4_500);
    assert_eq!(dt2, 1_500);
    let dt3 = s.close(5_000);
    assert_eq!(dt3, 500);
}

#[test]
fn fixed_update_dt_is_the_configured_interval() {
    let mut s = Scheduler::new(10_000);
    s.init(1_000);
    s.update(250_000);
    // The fixed-rate dt is the interval, never a measurement.
    assert_eq!(s.fixed_update(), 10_000);
}

#[test]
fn fixed_tick_plan_sleeps_the_remainder_or_reports_overrun() {
    let s = Scheduler::new(10_000);
    assert_eq!(s.after_fixed_tick(4_000), (6_000, 0));
    assert_eq!(s.after_fixed_tick(0), (10_000, 0));
    assert_eq!(s.after_fixed_tick(10_000), (0, 0));
    assert_eq!(s.after_fixed_tick(15_000), (0, 5_000));
}

#[test]
fn compiling_no_systems_yields_no_groups() {
    let groups = compile(&[]);
    assert!(groups.is_empty());
    let groups = compile(&[&[]]);
    assert_eq!(groups, vec![vec![0]]);
}

#[test]
fn lock_serializes_phase_drivers() {
    let mut s = Scheduler::new(10_000);
    assert!(s.force_lock());
    // While one driver holds the lock, another attempt fails.
    assert!(!s.force_lock());
    assert!(!s.force_lock());
    s.force_unlock();
    assert!(s.force_lock());
    s.force_unlock();
}
