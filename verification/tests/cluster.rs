use oxide_engine::cluster::initial_load_target;
use oxide_engine::{Cluster, ClusterConfig, LoadLevel, MigrationStart, ScalingEvent, SchedulerError, Severity, VmSpec, VmState};

fn small_config(host_count: u32) -> ClusterConfig {
    ClusterConfig { host_count, ..ClusterConfig::default() }
}

fn all_hosts(c: &Cluster) -> Vec<usize> {
    (0..c.hosts.len()).collect()
}

fn assert_within_capacity(c: &Cluster) {
    for h in c.hosts() {
        for n in &h.numa_nodes {
            assert!(n.cpu_used_millicores <= n.cpu_capacity_millicores);
            assert!(n.mem_used_mb <= n.mem_capacity_mb);
        }
        for d in &h.nvme_devices {
            assert!(d.used_iops <= d.max_iops);
        }
    }
}

#[test]
fn new_cluster_is_a_fresh_fleet() {
    let c = Cluster::new(ClusterConfig::default());
    assert_eq!(c.hosts.len(), 12);
    for (i, h) in c.hosts.iter().enumerate() {
        assert_eq!(h.id as usize, i);
        assert!(h.healthy);
        assert_eq!(h.numa_nodes.len(), 2);
        assert_eq!(h.total_cpu_capacity(), 32_000);
    }
    assert!(c.vms.is_empty());
    assert_eq!(c.next_vm_id, 1);
    assert_eq!(c.tick_count, 0);
    assert!(c.events.is_empty());
    assert_eq!(c.autoscaler.cooldown_ticks, 5);
    assert_eq!(c.autoscaler.scale_out_batch, 3);
}

#[test]
fn event_log_keeps_the_most_recent_events() {
    let mut c = Cluster::new(small_config(1));
    for i in 0..200 {
        c.log(Severity::Info, format!("event {i}"));
    }
    assert_eq!(c.events.len(), 150);
    assert_eq!(c.events.front().unwrap().message, "event 50");
    assert_eq!(c.events.back().unwrap().message, "event 199");
    c.advance_tick();
    c.log(Severity::Critical, "late".to_string());
    assert_eq!(c.events.back().unwrap().tick, 1);
    assert_eq!(c.events.back().unwrap().severity, Severity::Critical);
}

#[test]
fn new_vms_get_increasing_ids_and_stay_within_capacity() {
    let mut c = Cluster::new(small_config(2));
    let order = all_hosts(&c);
    let mut placed = 0;
    for _ in 0..100 {
        if c.place_new_vm(VmSpec::gpu_heavy(), &order).is_ok() {
            placed += 1;
        }
        assert_within_capacity(&c);
    }
    // Each host has two GPUs and 32 cores: four heavy VMs in all.
    assert_eq!(placed, 4);
    let ids: Vec<u64> = c.vms.iter().map(|v| v.id).collect();
    assert_eq!(ids, vec![1, 2, 3, 4]);
    assert_eq!(c.hosts[0].vm_ids, vec![1, 2]);
    assert_eq!(c.place_requested_vm(VmSpec::gpu_heavy(), &order), Err(SchedulerError::InsufficientCapacity));
    assert_eq!(c.placement_failures_total, 1);
    assert_eq!(c.next_vm_id, 5);
}

#[test]
fn host_failure_evacuates_by_live_migration() {
    let mut c = Cluster::new(small_config(3));
    let order = all_hosts(&c);
    let id = c.place_new_vm(VmSpec::small(), &order).unwrap();
    assert_eq!(c.vms[0].host_id, 0);
    let stranded = c.fail_host(0).unwrap();
    assert_eq!(stranded, vec![id]);
    assert!(!c.hosts[0].healthy);
    assert!(c.fail_host(0).is_none(), "a failed host fails only once");
    match c.start_migration(id, &order) {
        MigrationStart::Started { source_host, target_host, numa_node } => {
            assert_eq!(source_host, 0);
            assert_eq!(target_host, 1);
            assert_eq!(numa_node, 1);
        }
        other => panic!("expected a migration, got {other:?}"),
    }
    assert!(matches!(c.vms[0].state, VmState::Migrating { target_host: 1, .. }));
    assert_eq!(c.hosts[1].vm_ids, vec![id]);
    assert_eq!(c.start_migration(id, &order), MigrationStart::Skipped, "already migrating");
    assert_eq!(c.fleet_counts().migrating_vms, 1);
    assert!(c.complete_migration(id));
    assert!(c.hosts[0].vm_ids.is_empty(), "an evacuated host ends up empty");
    assert_eq!(c.hosts[1].vm_ids, vec![id]);
    assert!(c.hosts[2].vm_ids.is_empty());
    assert_eq!(c.hosts[0].total_cpu_used(), 0);
    assert_eq!(c.vms[0].host_id, 1);
    assert_eq!(c.vms[0].state, VmState::Running);
    assert_eq!(c.migrations_total, 1);
    assert!(!c.complete_migration(id));
    assert!(c.recover_host(0));
    assert!(c.hosts[0].healthy);
    assert!(!c.recover_host(0));
}

#[test]
fn vm_without_room_is_lost_on_evacuation() {
    let mut c = Cluster::new(small_config(1));
    let order = all_hosts(&c);
    let id = c.place_new_vm(VmSpec::small(), &order).unwrap();
    c.fail_host(0).unwrap();
    assert_eq!(c.start_migration(id, &order), MigrationStart::Lost);
    assert_eq!(c.vms.len(), 1);
    assert_eq!(c.vms[0].state, VmState::Terminated);
    assert!(c.hosts[0].vm_ids.is_empty());
    assert_eq!(c.hosts[0].total_cpu_used(), 0);
    assert_eq!(c.hosts[0].nvme_headroom_iops(), 1_000_000);
    let counts = c.fleet_counts();
    assert_eq!((counts.total_vms, counts.running_vms, counts.migrating_vms), (1, 0, 0));
    assert_eq!(c.start_migration(id, &order), MigrationStart::Skipped);
    assert!(!c.complete_migration(id));
    assert_eq!(c.idle_vm(), None);
}

#[test]
fn autoscaler_scales_in_the_first_idle_vm() {
    let mut c = Cluster::new(small_config(2));
    let order = all_hosts(&c);
    let heavy = c.place_new_vm(VmSpec::gpu_heavy(), &order).unwrap();
    let small = c.place_new_vm(VmSpec::small(), &order).unwrap();
    assert_eq!(c.idle_vm(), Some(small));
    assert_eq!(c.autoscale(LoadLevel::Low), Some(ScalingEvent::ScaleIn { vm_id: small }));
    assert_eq!(c.vms.len(), 1);
    assert_eq!(c.vms[0].id, heavy);
    assert_eq!(c.scale_in_events_total, 1);
    assert_eq!(c.autoscale(LoadLevel::High), None, "cooling down");
    for _ in 0..4 {
        c.autoscale(LoadLevel::Normal);
    }
    assert_eq!(c.autoscale(LoadLevel::High), Some(ScalingEvent::ScaleOut { count: 3 }));
    assert_eq!(c.scale_out_events_total, 1);
    assert_eq!(c.idle_vm(), None);
}

#[test]
fn fleet_counts_cover_healthy_hosts_only_for_gpus() {
    let mut c = Cluster::new(small_config(3));
    let order = all_hosts(&c);
    c.place_new_vm(VmSpec::gpu_heavy(), &order).unwrap();
    c.fail_host(2).unwrap();
    let counts = c.fleet_counts();
    assert_eq!(counts.total_hosts, 3);
    assert_eq!(counts.healthy_hosts, 2);
    assert_eq!(counts.total_vms, 1);
    assert_eq!(counts.running_vms, 1);
    assert_eq!(counts.total_gpus, 4);
    assert_eq!(counts.used_gpus, 1);
}

#[test]
fn random_specs_are_heavy_or_jittered_small() {
    let mut c = Cluster::new(ClusterConfig::default());
    let mut heavy = 0;
    let mut shapes = std::collections::HashSet::new();
    for _ in 0..1_000 {
        let s = c.random_spec();
        if s == VmSpec::gpu_heavy() {
            heavy += 1;
        } else {
            shapes.insert(s.vcpu_millicores);
            assert!((800..=1_400).contains(&s.vcpu_millicores));
            assert_eq!(s.mem_mb, 4_096 * (s.vcpu_millicores as u64 / 10) / 100);
            assert_eq!(s.gpu_count, 0);
        }
    }
    assert!(heavy > 50 && heavy < 300, "about 15% heavy, got {heavy}");
    assert!(shapes.len() > 30, "jitter should spread over 80%..=140%, got {} shapes", shapes.len());
}

#[test]
fn seeded_generators_repeat() {
    let mut a = Cluster::new(ClusterConfig::default());
    let mut b = Cluster::new(ClusterConfig::default());
    for _ in 0..20 {
        assert_eq!(a.random_spec(), b.random_spec());
    }
}

#[test]
fn spec_from_draws_picks_the_shape() {
    assert_eq!(VmSpec::from_draws(true, 0), VmSpec::gpu_heavy());
    assert_eq!(VmSpec::from_draws(false, 100), VmSpec::small());
    assert_eq!(VmSpec::from_draws(false, 140), VmSpec::scaled_small(140));
    assert_eq!(VmSpec::from_draws(false, 140).vcpu_millicores, 1_400);
}

#[test]
fn event_ticks_never_decrease() {
    let mut c = Cluster::new(small_config(1));
    for t in 0..5u64 {
        c.log(Severity::Info, format!("at {t}"));
        c.advance_tick();
    }
    let ticks: Vec<u64> = c.events.iter().map(|e| e.tick).collect();
    assert_eq!(ticks, vec![0, 1, 2, 3, 4]);
}

#[test]
fn scaled_small_rounds_down() {
    let s = VmSpec::scaled_small(80);
    assert_eq!(s.vcpu_millicores, 800);
    assert_eq!(s.mem_mb, 3_276);
    let s = VmSpec::scaled_small(137);
    assert_eq!(s.vcpu_millicores, 1_370);
    assert_eq!(s.mem_mb, 5_611);
}

#[test]
fn initial_load_is_three_and_a_half_per_host() {
    assert_eq!(initial_load_target(12), 42);
    assert_eq!(initial_load_target(1), 3);
    assert_eq!(initial_load_target(0), 0);
    assert_eq!(initial_load_target(u32::MAX), u32::MAX);
}
