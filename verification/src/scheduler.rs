use vstd::prelude::*;

use crate::host::{best_fit, place_fits_counters, placed, free_gpu_of, iops_headroom_of, total, Host, HostId};
use crate::vm::{VmId, VmSpec};

verus! {

/// Why a VM could not be placed.
#[derive(Debug, Clone, Copy, PartialEq, Eq, Structural)]
pub enum SchedulerError {
    /// No host has sufficient CPU/memory/GPU/NVMe headroom for the requested spec.
    InsufficientCapacity,
    /// Placing this VM would violate the anti-affinity group it names.
    AntiAffinityViolation(u32),
}

/// Where a VM goes: a host and one of its NUMA nodes.
#[derive(Debug, Clone, Copy, PartialEq, Eq, Structural)]
pub struct Placement {
    pub host_id: HostId,
    pub numa_node: u8,
}

/// Placing a VM of spec `s` on `h` would put two members of its
/// anti-affinity group on the same host.
pub open spec fn violates_group(h: Host, s: VmSpec, group_hosts: Seq<(u32, HostId)>) -> bool {
    match s.anti_affinity_group {
        Some(group) => exists|k: int|
            0 <= k < group_hosts.len() && #[trigger] group_hosts[k] == (group, h.id),
        None => false,
    }
}

/// `h` can take a VM of spec `s` if anti-affinity is ignored.
pub open spec fn fits_ignoring_affinity(h: Host, s: VmSpec) -> bool {
    h.healthy && best_fit(h, s) is Some
}

/// `h` is a candidate for a VM of spec `s`: healthy, no anti-affinity
/// conflict, and enough headroom.
pub open spec fn eligible(h: Host, s: VmSpec, group_hosts: Seq<(u32, HostId)>) -> bool {
    fits_ignoring_affinity(h, s) && !violates_group(h, s, group_hosts)
}

/// `best_numa_fit` can run on `h` for `s` without its IOPS sum overflowing.
pub open spec fn fit_computable(h: Host, s: VmSpec) -> bool {
    total(h.gpus@, free_gpu_of()) >= s.gpu_count ==> total(h.nvme_devices@, iops_headroom_of())
        <= u32::MAX
}

/// `ranking` lists host positions below `n`, each of them at least once.
/// The scheduler prefers hosts that come earlier in the ranking.
pub open spec fn is_ranking(ranking: Seq<usize>, n: int) -> bool {
    &&& forall|k: int| 0 <= k < ranking.len() ==> #[trigger] ranking[k] < n
    &&& forall|i: int| 0 <= i < n ==> #[trigger] ranking.contains(i as usize)
}

/// Position `k` of the ranking names the first eligible host.
pub open spec fn is_first_eligible(
    hosts: Seq<Host>,
    s: VmSpec,
    group_hosts: Seq<(u32, HostId)>,
    ranking: Seq<usize>,
    k: int,
) -> bool {
    &&& 0 <= k < ranking.len()
    &&& eligible(hosts[ranking[k] as int], s, group_hosts)
    &&& forall|m: int|
        0 <= m < k ==> !eligible(#[trigger] hosts[ranking[m] as int], s, group_hosts)
}

/// What the scheduler answers when no host is eligible.
pub open spec fn rejection(hosts: Seq<Host>, s: VmSpec) -> SchedulerError {
    match s.anti_affinity_group {
        Some(group) => if exists|i: int|
            0 <= i < hosts.len() && fits_ignoring_affinity(#[trigger] hosts[i], s) {
            SchedulerError::AntiAffinityViolation(group)
        } else {
            SchedulerError::InsufficientCapacity
        },
        None => SchedulerError::InsufficientCapacity,
    }
}

/// The preconditions under which the scheduler can evaluate every host it
/// looks at: the healthy hosts without a group conflict, and every healthy
/// host when none is eligible.
pub open spec fn scheduling_computable(
    hosts: Seq<Host>,
    s: VmSpec,
    group_hosts: Seq<(u32, HostId)>,
) -> bool {
    &&& forall|i: int|
        0 <= i < hosts.len() && (#[trigger] hosts[i]).healthy && !violates_group(
            hosts[i],
            s,
            group_hosts,
        ) ==> fit_computable(hosts[i], s)
    &&& (forall|i: int| 0 <= i < hosts.len() ==> !eligible(#[trigger] hosts[i], s, group_hosts))
        ==> forall|i: int|
        0 <= i < hosts.len() && (#[trigger] hosts[i]).healthy ==> fit_computable(hosts[i], s)
}

pub fn violates_anti_affinity(host: &Host, spec: &VmSpec, group_hosts: &[(u32, HostId)]) -> (r:
    bool)
    ensures
        r == violates_group(*host, *spec, group_hosts@),
{
    match spec.anti_affinity_group {
        Some(group) => {
            let mut k: usize = 0;
            while k < group_hosts.len()
                invariant
                    0 <= k <= group_hosts@.len(),
                    spec.anti_affinity_group == Some(group),
                    forall|m: int| 0 <= m < k ==> #[trigger] group_hosts@[m] != (group, host.id),
                decreases group_hosts@.len() - k,
            {
                let (g, h) = group_hosts[k];
                if g == group && h == host.id {
                    assert(group_hosts@[k as int] == (group, host.id));
                    return true;
                }
                k = k + 1;
            }
            false
        },
        None => false,
    }
}

/// The position (in `hosts`) and NUMA node of the first eligible host in
/// `ranking`, or the reason no host is eligible.
pub(crate) fn choose_host(
    hosts: &[Host],
    spec: &VmSpec,
    group_hosts: &[(u32, HostId)],
    ranking: &[usize],
) -> (r: Result<(usize, u8), SchedulerError>)
    requires
        is_ranking(ranking@, hosts@.len() as int),
        scheduling_computable(hosts@, *spec, group_hosts@),
    ensures
        match r {
            Ok((i, n)) => exists|k: int|
                is_first_eligible(hosts@, *spec, group_hosts@, ranking@, k) && ranking@[k] == i
                    && best_fit(hosts@[i as int], *spec) == Some(n),
            Err(e) => {
                &&& forall|i: int|
                    0 <= i < hosts@.len() ==> !eligible(#[trigger] hosts@[i], *spec, group_hosts@)
                &&& e == rejection(hosts@, *spec)
            },
        },
{
    let mut k: usize = 0;
    while k < ranking.len()
        invariant
            0 <= k <= ranking@.len(),
            is_ranking(ranking@, hosts@.len() as int),
            scheduling_computable(hosts@, *spec, group_hosts@),
            forall|m: int|
                0 <= m < k ==> !eligible(#[trigger] hosts@[ranking@[m] as int], *spec, group_hosts@),
        decreases ranking@.len() - k,
    {
        let i = ranking[k];
        let host = &hosts[i];
        if host.healthy && !violates_anti_affinity(host, spec, group_hosts) {
            match host.best_numa_fit(spec) {
                Some(n) => {
                    assert(is_first_eligible(hosts@, *spec, group_hosts@, ranking@, k as int));
                    return Ok((i, n));
                },
                None => {},
            }
        }
        k = k + 1;
    }
    let n_hosts = hosts.len();
    assert forall|i: int| 0 <= i < hosts@.len() implies !eligible(
        #[trigger] hosts@[i],
        *spec,
        group_hosts@,
    ) by {
        assert(i < n_hosts);
        assert(ranking@.contains(i as usize));
        let m = choose|m: int| 0 <= m < ranking@.len() && ranking@[m] == i as usize;
        assert(!eligible(hosts@[ranking@[m] as int], *spec, group_hosts@));
    }
    let mut any_fits = false;
    let mut j: usize = 0;
    while j < hosts.len()
        invariant
            0 <= j <= hosts@.len(),
            scheduling_computable(hosts@, *spec, group_hosts@),
            forall|i: int| 0 <= i < hosts@.len() ==> !eligible(#[trigger] hosts@[i], *spec, group_hosts@),
            any_fits == exists|i: int| 0 <= i < j && fits_ignoring_affinity(#[trigger] hosts@[i], *spec),
        decreases hosts@.len() - j,
    {
        if hosts[j].healthy && hosts[j].best_numa_fit(spec).is_some() {
            any_fits = true;
        }
        j = j + 1;
    }
    match spec.anti_affinity_group {
        Some(group) => {
            if any_fits {
                Err(SchedulerError::AntiAffinityViolation(group))
            } else {
                Err(SchedulerError::InsufficientCapacity)
            }
        },
        None => Err(SchedulerError::InsufficientCapacity),
    }
}

/// Finds the placement for a single VM spec: the first host in `ranking`
/// that is healthy, has no anti-affinity conflict and has room, on the NUMA
/// node `best_numa_fit` picks there. When there is none, the answer is an
/// anti-affinity violation if the VM names a group and some healthy host has
/// room, and insufficient capacity otherwise.
pub fn find_placement(
    hosts: &[Host],
    spec: &VmSpec,
    group_hosts: &[(u32, HostId)],
    ranking: &[usize],
) -> (r: Result<Placement, SchedulerError>)
    requires
        is_ranking(ranking@, hosts@.len() as int),
        scheduling_computable(hosts@, *spec, group_hosts@),
    ensures
        r is Ok <==> exists|i: int|
            0 <= i < hosts@.len() && eligible(#[trigger] hosts@[i], *spec, group_hosts@),
        match r {
            Ok(p) => exists|k: int|
                is_first_eligible(hosts@, *spec, group_hosts@, ranking@, k) && p == (Placement {
                    host_id: hosts@[ranking@[k] as int].id,
                    numa_node: best_fit(hosts@[ranking@[k] as int], *spec).unwrap(),
                }),
            Err(e) => e == rejection(hosts@, *spec),
        },
{
    match choose_host(hosts, spec, group_hosts, ranking) {
        Ok((i, n)) => Ok(Placement { host_id: hosts[i].id, numa_node: n }),
        Err(e) => Err(e),
    }
}

/// Host `j` is the first host whose id is `id`.
pub open spec fn is_first_host_with_id(hosts: Seq<Host>, id: HostId, j: int) -> bool {
    &&& 0 <= j < hosts.len()
    &&& hosts[j].id == id
    &&& forall|m: int| 0 <= m < j ==> #[trigger] hosts[m].id != id
}

/// Places one VM of a batch against the hosts as the earlier entries of
/// the batch have left them: finds its placement as `find_placement` does
/// and, on success, records its anti-affinity group (if any) against the
/// chosen host and charges the VM to the first host carrying that id.
pub fn place_batch_entry(
    hosts: &mut Vec<Host>,
    vm_id: VmId,
    spec: &VmSpec,
    group_hosts: &mut Vec<(u32, HostId)>,
    ranking: &[usize],
) -> (r: Result<Placement, SchedulerError>)
    requires
        is_ranking(ranking@, old(hosts)@.len() as int),
        scheduling_computable(old(hosts)@, *spec, old(group_hosts)@),
        forall|k: int, j: int|
            is_first_eligible(old(hosts)@, *spec, old(group_hosts)@, ranking@, k)
                && is_first_host_with_id(old(hosts)@, old(hosts)@[ranking@[k] as int].id, j)
                ==> place_fits_counters(
                old(hosts)@[j],
                best_fit(old(hosts)@[ranking@[k] as int], *spec).unwrap(),
                *spec,
            ),
    ensures
        r is Ok <==> exists|i: int|
            0 <= i < old(hosts)@.len() && eligible(#[trigger] old(hosts)@[i], *spec, old(group_hosts)@),
        match r {
            Ok(p) => {
                &&& exists|k: int|
                    is_first_eligible(old(hosts)@, *spec, old(group_hosts)@, ranking@, k) && p == (
                    Placement {
                        host_id: old(hosts)@[ranking@[k] as int].id,
                        numa_node: best_fit(old(hosts)@[ranking@[k] as int], *spec).unwrap(),
                    })
                &&& final(group_hosts)@ == match spec.anti_affinity_group {
                    Some(group) => old(group_hosts)@.push((group, p.host_id)),
                    None => old(group_hosts)@,
                }
                &&& final(hosts)@.len() == old(hosts)@.len()
                &&& forall|j: int|
                    0 <= j < old(hosts)@.len() ==> if is_first_host_with_id(
                        old(hosts)@,
                        p.host_id,
                        j,
                    ) {
                        placed(old(hosts)@[j], #[trigger] final(hosts)@[j], vm_id, p.numa_node, *spec)
                    } else {
                        final(hosts)@[j] == old(hosts)@[j]
                    }
            },
            Err(e) => {
                &&& e == rejection(old(hosts)@, *spec)
                &&& final(hosts)@ == old(hosts)@
                &&& final(group_hosts)@ == old(group_hosts)@
            },
        },
{
    let decision = find_placement(hosts.as_slice(), spec, group_hosts.as_slice(), ranking);
    match decision {
        Ok(p) => {
            let ghost k = choose|k: int|
                is_first_eligible(old(hosts)@, *spec, old(group_hosts)@, ranking@, k) && p == (
                Placement {
                    host_id: old(hosts)@[ranking@[k] as int].id,
                    numa_node: best_fit(old(hosts)@[ranking@[k] as int], *spec).unwrap(),
                });
            match spec.anti_affinity_group {
                Some(group) => group_hosts.push((group, p.host_id)),
                None => {},
            }
            let mut j: usize = 0;
            while j < hosts.len() && hosts[j].id != p.host_id
                invariant
                    hosts@ == old(hosts)@,
                    0 <= j <= hosts@.len(),
                    forall|m: int| 0 <= m < j ==> #[trigger] hosts@[m].id != p.host_id,
                decreases hosts@.len() - j,
            {
                j = j + 1;
            }
            if j < hosts.len() {
                assert(is_first_host_with_id(old(hosts)@, p.host_id, j as int));
                hosts[j].place(vm_id, p.numa_node, spec);
            }
            proof {
                assert forall|m: int| 0 <= m < old(hosts)@.len() && is_first_host_with_id(old(hosts)@, p.host_id, m)
                    implies m == j by {}
            }
            Ok(p)
        },
        Err(e) => Err(e),
    }
}

} // verus!
