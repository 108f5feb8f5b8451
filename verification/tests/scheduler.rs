use std::collections::HashSet;

use oxide_engine::{find_placement, place_batch_entry, violates_anti_affinity, Host, HostId, SchedulerError, VmId, VmSpec};

fn hosts(n: u32) -> Vec<Host> {
    (0..n).map(|id| Host::new(id, 1, 8_000, 16_384, 1, 1, 10_000)).collect()
}

/// The dashboard's host preference: weighted best-fit score over CPU,
/// memory and NVMe headroom, best first, the later host first on a tie.
fn ranking(hosts: &[Host]) -> Vec<usize> {
    let score = |h: &Host| -> f64 {
        let cpu = 1.0 - h.total_cpu_used() as f64 / h.total_cpu_capacity().max(1) as f64;
        let mem = 1.0 - h.total_mem_used() as f64 / h.total_mem_capacity().max(1) as f64;
        let cap: u32 = h.nvme_devices.iter().map(|d| d.max_iops).sum();
        let used: u32 = h.nvme_devices.iter().map(|d| d.used_iops).sum();
        let nvme = 1.0 - used as f64 / cap.max(1) as f64;
        0.4 * cpu + 0.35 * mem + 0.25 * nvme - 0.15 * (cpu - mem).abs()
    };
    let mut order: Vec<usize> = (0..hosts.len()).collect();
    order.sort_by(|&a, &b| score(&hosts[b]).partial_cmp(&score(&hosts[a])).unwrap().then(b.cmp(&a)));
    order
}

#[test]
fn rejects_when_no_host_has_capacity() {
    let hosts = hosts(1);
    let spec = VmSpec {
        vcpu_millicores: 100_000,
        mem_mb: 1_024,
        gpu_count: 0,
        nvme_iops: 0,
        anti_affinity_group: None,
    };
    assert_eq!(find_placement(&hosts, &spec, &[], &ranking(&hosts)), Err(SchedulerError::InsufficientCapacity));
}

#[test]
fn skips_unhealthy_hosts() {
    let mut hosts = hosts(2);
    hosts[0].healthy = false;
    let spec = VmSpec::small();
    let decision = find_placement(&hosts, &spec, &[], &ranking(&hosts)).unwrap();
    assert_eq!(decision.host_id, 1);
}

#[test]
fn anti_affinity_forces_different_hosts() {
    let mut hosts = hosts(2);
    let spec = VmSpec {
        vcpu_millicores: 1_000,
        mem_mb: 1_024,
        gpu_count: 0,
        nvme_iops: 0,
        anti_affinity_group: Some(7),
    };

    let first = find_placement(&hosts, &spec, &[], &ranking(&hosts)).unwrap();
    hosts.iter_mut().find(|h| h.id == first.host_id).unwrap().place(1, first.numa_node, &spec);
    let group_hosts = vec![(7, first.host_id)];

    let second = find_placement(&hosts, &spec, &group_hosts, &ranking(&hosts)).unwrap();
    assert_ne!(second.host_id, first.host_id);
}

#[test]
fn anti_affinity_violation_reported_when_only_conflicting_host_has_room() {
    let hosts = hosts(1);
    let spec = VmSpec {
        vcpu_millicores: 1_000,
        mem_mb: 1_024,
        gpu_count: 0,
        nvme_iops: 0,
        anti_affinity_group: Some(1),
    };
    let group_hosts = vec![(1, 0)];
    assert_eq!(find_placement(&hosts, &spec, &group_hosts, &ranking(&hosts)), Err(SchedulerError::AntiAffinityViolation(1)));
}

#[test]
fn batch_placement_spreads_load_across_hosts() {
    let mut hosts = hosts(4);
    let specs: Vec<(VmId, VmSpec)> = (0..4).map(|i| (i as VmId, VmSpec::small())).collect();
    let mut group_hosts: Vec<(u32, HostId)> = Vec::new();
    let mut results = Vec::new();
    for (vm_id, spec) in &specs {
        let order = ranking(&hosts);
        results.push((*vm_id, place_batch_entry(&mut hosts, *vm_id, spec, &mut group_hosts, &order)));
    }
    assert!(results.iter().all(|(_, r)| r.is_ok()));
    let distinct_hosts: HashSet<_> = results.iter().map(|(_, r)| r.as_ref().unwrap().host_id).collect();
    assert!(distinct_hosts.len() > 1, "batch scoring should not pile every VM onto a single host");
}

#[test]
fn first_eligible_host_in_ranking_wins() {
    let hosts = hosts(3);
    let spec = VmSpec::small();
    let d = find_placement(&hosts, &spec, &[], &[1, 0, 2]).unwrap();
    assert_eq!(d.host_id, 1);
    assert_eq!(d.numa_node, 0);
    let d = find_placement(&hosts, &spec, &[(5, 2)], &[2, 0, 1]).unwrap();
    assert_eq!(d.host_id, 2, "a VM without a group ignores group records");
}

#[test]
fn unhealthy_conflict_free_host_does_not_count_as_room() {
    let mut hosts = hosts(2);
    hosts[1].healthy = false;
    let spec = VmSpec { anti_affinity_group: Some(3), ..VmSpec::small() };
    assert_eq!(find_placement(&hosts, &spec, &[(3, 0)], &[0, 1]), Err(SchedulerError::AntiAffinityViolation(3)));
    hosts[0].healthy = false;
    assert_eq!(find_placement(&hosts, &spec, &[(3, 0)], &[0, 1]), Err(SchedulerError::InsufficientCapacity));
}

#[test]
fn batch_entry_records_group_and_charges_host() {
    let mut hosts = hosts(2);
    let mut groups: Vec<(u32, HostId)> = Vec::new();
    let spec = VmSpec { anti_affinity_group: Some(9), ..VmSpec::small() };
    let p = place_batch_entry(&mut hosts, 10, &spec, &mut groups, &[0, 1]).unwrap();
    assert_eq!(p.host_id, 0);
    assert_eq!(groups, vec![(9, 0)]);
    assert_eq!(hosts[0].vm_ids, vec![10]);
    assert_eq!(hosts[0].total_cpu_used(), 1_000);
    let p = place_batch_entry(&mut hosts, 11, &spec, &mut groups, &[0, 1]).unwrap();
    assert_eq!(p.host_id, 1);
    let r = place_batch_entry(&mut hosts, 12, &spec, &mut groups, &[0, 1]);
    assert_eq!(r, Err(SchedulerError::AntiAffinityViolation(9)));
    assert_eq!(groups.len(), 2);
}

#[test]
fn anti_affinity_check_matches_group_and_host() {
    let hosts = hosts(2);
    let grouped = VmSpec { anti_affinity_group: Some(4), ..VmSpec::small() };
    assert!(violates_anti_affinity(&hosts[1], &grouped, &[(3, 1), (4, 1)]));
    assert!(!violates_anti_affinity(&hosts[0], &grouped, &[(3, 0), (4, 1)]));
    assert!(!violates_anti_affinity(&hosts[1], &VmSpec::small(), &[(4, 1)]));
}
