use oxide_engine::{Host, NumaNode, NvmeDevice, VmSpec};

fn test_host() -> Host {
    Host::new(0, 2, 4_000, 8_192, 1, 1, 10_000)
}

#[test]
fn place_then_release_returns_to_baseline() {
    let mut host = test_host();
    let spec = VmSpec {
        vcpu_millicores: 2_000,
        mem_mb: 4_096,
        gpu_count: 1,
        nvme_iops: 5_000,
        anti_affinity_group: None,
    };
    let node = host.best_numa_fit(&spec).expect("should fit");
    host.place(1, node, &spec);
    assert_eq!(host.total_cpu_used(), 2_000);
    assert_eq!(host.free_gpus(), 0);
    assert_eq!(host.nvme_headroom_iops(), 5_000);

    host.release(1, node, &spec);
    assert_eq!(host.total_cpu_used(), 0);
    assert_eq!(host.free_gpus(), 1);
    assert_eq!(host.nvme_headroom_iops(), 10_000);
}

#[test]
fn best_numa_fit_rejects_oversized_gpu_request() {
    let host = test_host();
    let spec = VmSpec {
        vcpu_millicores: 1_000,
        mem_mb: 1_024,
        gpu_count: 5,
        nvme_iops: 100,
        anti_affinity_group: None,
    };
    assert!(host.best_numa_fit(&spec).is_none());
}

#[test]
fn new_host_is_fresh_and_numbered() {
    let host = Host::new(7, 3, 16_000, 131_072, 2, 2, 500_000);
    assert_eq!(host.id, 7);
    assert!(host.healthy);
    assert_eq!(host.numa_nodes.len(), 3);
    for (i, n) in host.numa_nodes.iter().enumerate() {
        assert_eq!(n.id as usize, i);
        assert_eq!(n.cpu_used_millicores, 0);
    }
    assert_eq!(host.gpus.len(), 2);
    assert_eq!(host.gpus[1].model, "A10-24GB");
    assert_eq!(host.total_cpu_capacity(), 48_000);
    assert_eq!(host.total_mem_capacity(), 393_216);
    assert_eq!(host.total_mem_used(), 0);
    assert_eq!(host.free_gpus(), 2);
    assert_eq!(host.nvme_headroom_iops(), 1_000_000);
    assert!(host.vm_ids.is_empty());
}

#[test]
fn best_numa_fit_prefers_most_cpu_headroom_and_last_on_tie() {
    let mut host = test_host();
    let spec = VmSpec {
        vcpu_millicores: 1_000,
        mem_mb: 1_024,
        gpu_count: 0,
        nvme_iops: 0,
        anti_affinity_group: None,
    };
    // Both nodes are idle: the later one wins the tie.
    assert_eq!(host.best_numa_fit(&spec), Some(1));
    host.place(1, 1, &spec);
    // Node 0 now has more CPU headroom.
    assert_eq!(host.best_numa_fit(&spec), Some(0));
}

#[test]
fn best_numa_fit_rejects_when_no_node_or_nvme_has_room() {
    let host = test_host();
    let too_big = VmSpec {
        vcpu_millicores: 4_001,
        mem_mb: 1,
        gpu_count: 0,
        nvme_iops: 0,
        anti_affinity_group: None,
    };
    assert_eq!(host.best_numa_fit(&too_big), None);
    let too_many_iops = VmSpec {
        vcpu_millicores: 1,
        mem_mb: 1,
        gpu_count: 0,
        nvme_iops: 10_001,
        anti_affinity_group: None,
    };
    assert_eq!(host.best_numa_fit(&too_many_iops), None);
}

#[test]
fn iops_are_reserved_and_returned_greedily() {
    let mut host = Host::new(0, 1, 8_000, 8_192, 0, 2, 1_000);
    let spec = VmSpec {
        vcpu_millicores: 100,
        mem_mb: 100,
        gpu_count: 0,
        nvme_iops: 1_500,
        anti_affinity_group: None,
    };
    host.place(1, 0, &spec);
    assert_eq!(host.nvme_devices[0].used_iops, 1_000);
    assert_eq!(host.nvme_devices[1].used_iops, 500);
    let smaller = VmSpec { nvme_iops: 1_200, ..spec };
    host.release(1, 0, &smaller);
    assert_eq!(host.nvme_devices[0].used_iops, 0);
    assert_eq!(host.nvme_devices[1].used_iops, 300);
    assert_eq!(host.numa_nodes[0].cpu_used_millicores, 0);
    assert!(host.vm_ids.is_empty());
}

#[test]
fn place_hands_out_only_free_gpus_and_release_frees_only_own() {
    let mut host = Host::new(0, 1, 8_000, 8_192, 3, 0, 0);
    let one = VmSpec {
        vcpu_millicores: 10,
        mem_mb: 10,
        gpu_count: 1,
        nvme_iops: 0,
        anti_affinity_group: None,
    };
    let two = VmSpec { gpu_count: 2, ..one };
    host.place(1, 0, &one);
    host.place(2, 0, &two);
    assert_eq!(host.gpus[0].assigned_to, Some(1));
    assert_eq!(host.gpus[1].assigned_to, Some(2));
    assert_eq!(host.gpus[2].assigned_to, Some(2));
    host.release(2, 0, &two);
    assert_eq!(host.gpus[0].assigned_to, Some(1));
    assert_eq!(host.free_gpus(), 2);
    assert_eq!(host.vm_ids, vec![1]);
}

#[test]
fn release_never_goes_below_zero() {
    let mut host = test_host();
    let spec = VmSpec {
        vcpu_millicores: 500,
        mem_mb: 500,
        gpu_count: 0,
        nvme_iops: 50,
        anti_affinity_group: None,
    };
    host.release(9, 0, &spec);
    assert_eq!(host.total_cpu_used(), 0);
    assert_eq!(host.total_mem_used(), 0);
    assert_eq!(host.nvme_headroom_iops(), 10_000);
}

#[test]
fn headrooms_saturate_when_overcommitted() {
    let node = NumaNode {
        id: 0,
        cpu_capacity_millicores: 100,
        cpu_used_millicores: 150,
        mem_capacity_mb: 10,
        mem_used_mb: 4,
    };
    assert_eq!(node.cpu_headroom(), 0);
    assert_eq!(node.mem_headroom(), 6);
    let dev = NvmeDevice { id: 0, max_iops: 1_000, used_iops: 1_200 };
    assert_eq!(dev.headroom_iops(), 0);
}
