//! Constraints: CPU-list parsing, building, and the resource pool.

use ai_tournament::constraints::cpu_list_to_hashset;
use ai_tournament::constraints::Constraints;
use ai_tournament::constraints::ConstraintsBuilder;
use ai_tournament::constraints::ConstraintsEnv;
use ai_tournament::constraints::ConstraintsError;

fn sorted(mut v: Vec<u8>) -> Vec<u8> {
    v.sort();
    v
}

#[test]
fn cpu_list_parses_ranges_and_singles() {
    assert_eq!(sorted(cpu_list_to_hashset("0-3,6").unwrap()), vec![0, 1, 2, 3, 6]);
    assert_eq!(sorted(cpu_list_to_hashset("7").unwrap()), vec![7]);
    // A reversed range covers the same CPUs.
    assert_eq!(sorted(cpu_list_to_hashset("3-1").unwrap()), vec![1, 2, 3]);
    // Overlaps are listed once.
    assert_eq!(sorted(cpu_list_to_hashset("1-3,2,3").unwrap()), vec![1, 2, 3]);
}

#[test]
fn cpu_list_rejects_malformed_input() {
    assert_eq!(cpu_list_to_hashset("").unwrap_err(), ConstraintsError::InvalidCpuList);
    assert_eq!(cpu_list_to_hashset("a").unwrap_err(), ConstraintsError::InvalidCpuList);
    assert_eq!(cpu_list_to_hashset("1-2-3").unwrap_err(), ConstraintsError::InvalidCpuList);
    assert_eq!(cpu_list_to_hashset("1,,2").unwrap_err(), ConstraintsError::InvalidCpuList);
    assert_eq!(cpu_list_to_hashset("300").unwrap_err(), ConstraintsError::InvalidCpuList);
}

#[test]
fn build_with_defaults_uses_machine_figures() {
    let c = ConstraintsBuilder::new().build_with_system(8_000_000, 4).unwrap();
    assert_eq!(sorted(c.cpus.clone()), vec![0, 1, 2, 3]);
    assert_eq!(c.cpus_per_agent, 1);
    assert_eq!(c.total_ram, 8_000_000);
    // Default per-agent RAM: the total split over 4 single-CPU agents.
    assert_eq!(c.agent_ram, 2_000_000);
    assert_eq!(c.time_budget, u64::MAX);
    assert_eq!(c.action_time, u64::MAX);
}

#[test]
fn build_respects_explicit_limits() {
    let c = ConstraintsBuilder::new()
        .with_max_total_ram(16)
        .with_ram_per_agent(2)
        .with_cpu_list("0-3,6")
        .with_cpus_per_agent(2)
        .with_time_budget(600_000_000)
        .with_action_timeout(200_000)
        .build_with_system(0, 0)
        .unwrap();
    assert_eq!(c.total_ram, 16_000_000);
    assert_eq!(c.agent_ram, 2_000_000);
    assert_eq!(sorted(c.cpus.clone()), vec![0, 1, 2, 3, 6]);
    assert_eq!(c.cpus_per_agent, 2);
    assert_eq!(c.time_budget, 600_000_000);
    assert_eq!(c.action_time, 200_000);
}

#[test]
fn build_rejects_agent_ram_over_total() {
    let e = ConstraintsBuilder::new()
        .with_max_total_ram(1)
        .with_ram_per_agent(2)
        .build_with_system(0, 4)
        .unwrap_err();
    assert_eq!(e, ConstraintsError::AgentRamExceedsTotal);
}

#[test]
fn build_rejects_more_cpus_per_agent_than_cpus() {
    let e = ConstraintsBuilder::new()
        .with_total_cpu_count(2)
        .with_cpus_per_agent(3)
        .build_with_system(1_000_000, 2)
        .unwrap_err();
    assert_eq!(e, ConstraintsError::CpusPerAgentExceedsCpus);
}

#[test]
fn build_rejects_unrepresentable_ram() {
    let e = ConstraintsBuilder::new()
        .with_max_total_ram(usize::MAX)
        .build_with_system(0, 4)
        .unwrap_err();
    assert_eq!(e, ConstraintsError::RamOverflow);
}

#[test]
fn build_rejects_bad_cpu_list() {
    let e = ConstraintsBuilder::new()
        .with_cpu_list("zero")
        .build_with_system(1_000_000, 2)
        .unwrap_err();
    assert_eq!(e, ConstraintsError::InvalidCpuList);
}

#[test]
fn builder_from_env_parses_values() {
    let env = ConstraintsEnv {
        max_total_ram: Some("16".to_string()),
        ram_per_agent: Some("2".to_string()),
        cpu_list: None,
        total_cpu_count: Some("4".to_string()),
        cpus_per_agent: Some("2".to_string()),
        time_budget_secs: Some("600".to_string()),
        action_timeout_ms: Some("200".to_string()),
    };
    let b = ConstraintsBuilder::from_env(env);
    assert_eq!(b.total_ram, Some(16));
    assert_eq!(b.agent_ram, Some(2));
    assert_eq!(b.cpus_per_agent, Some(2));
    assert_eq!(b.time_budget, Some(600_000_000));
    assert_eq!(b.action_time, Some(200_000));
}

#[test]
fn builder_from_env_unset_is_default() {
    let b = ConstraintsBuilder::from_env(ConstraintsEnv::unset());
    assert_eq!(b.total_ram, None);
    assert_eq!(b.agent_ram, None);
    assert_eq!(b.cpus_per_agent, None);
    assert_eq!(b.time_budget, None);
    assert_eq!(b.action_time, None);
}

#[test]
fn builder_from_env_ignores_unparsable_values() {
    let env = ConstraintsEnv {
        max_total_ram: Some("sixteen".to_string()),
        ram_per_agent: None,
        cpu_list: None,
        total_cpu_count: None,
        cpus_per_agent: None,
        time_budget_secs: None,
        action_timeout_ms: None,
    };
    let b = ConstraintsBuilder::from_env(env);
    assert_eq!(b.total_ram, None);
}

#[test]
fn pool_take_and_add_conserve_resources() {
    let mut pool = ConstraintsBuilder::new()
        .with_cpu_list("0-3")
        .with_max_total_ram(4)
        .with_ram_per_agent(1)
        .build_with_system(0, 0)
        .unwrap();
    let before_cpus = sorted(pool.cpus.clone());
    let before_ram = pool.total_ram;
    let slice = pool.try_take(2, 2_000_000).unwrap();
    assert_eq!(slice.cpus.len(), 2);
    assert_eq!(slice.total_ram, 2_000_000);
    assert_eq!(pool.total_ram, before_ram - 2_000_000);
    // The slice and the pool are disjoint.
    for cpu in &slice.cpus {
        assert!(!pool.cpus.contains(cpu));
    }
    // Freeing the slice restores the pool exactly.
    pool.add(slice);
    assert_eq!(sorted(pool.cpus.clone()), before_cpus);
    assert_eq!(pool.total_ram, before_ram);
}

#[test]
fn pool_try_take_fails_without_touching_the_pool() {
    let mut pool = ConstraintsBuilder::new()
        .with_cpu_list("0-1")
        .with_max_total_ram(1)
        .with_ram_per_agent(1)
        .build_with_system(0, 0)
        .unwrap();
    assert!(pool.try_take(3, 0).is_none());
    assert!(pool.try_take(0, 2_000_000).is_none());
    assert_eq!(pool.cpus.len(), 2);
    assert_eq!(pool.total_ram, 1_000_000);
    let b = Constraints::builder();
    assert!(b.total_ram.is_none());
    assert!(b.time_budget.is_none());
}
