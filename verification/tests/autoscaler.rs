use oxide_engine::{default_scale_out_spec, Autoscaler, LoadLevel, ScalingEvent, VmSpec};

// The dashboard turns fleet CPU utilization into a load level with its
// thresholds (0.75 and 0.25 by default): 0.9 and 0.95 are high, 0.1 is low.

#[test]
fn scales_out_when_over_threshold() {
    let mut scaler = Autoscaler::new(5, 3);
    let event = scaler.evaluate(LoadLevel::High, None);
    assert!(matches!(event, Some(ScalingEvent::ScaleOut { .. })));
}

#[test]
fn scales_in_only_when_idle_vm_available() {
    let mut scaler = Autoscaler::new(5, 3);
    assert!(scaler.evaluate(LoadLevel::Low, None).is_none());

    let mut scaler = Autoscaler::new(5, 3);
    let event = scaler.evaluate(LoadLevel::Low, Some(42));
    assert!(matches!(event, Some(ScalingEvent::ScaleIn { vm_id: 42 })));
}

#[test]
fn respects_cooldown_between_events() {
    let mut scaler = Autoscaler::new(3, 3);
    assert!(scaler.evaluate(LoadLevel::High, None).is_some());
    assert!(scaler.evaluate(LoadLevel::High, None).is_none(), "should be in cooldown");
    assert!(scaler.evaluate(LoadLevel::High, None).is_none());
    assert!(scaler.evaluate(LoadLevel::High, None).is_none());
    assert!(scaler.evaluate(LoadLevel::High, None).is_some(), "cooldown should have elapsed");
}

#[test]
fn scale_out_uses_configured_batch_and_normal_load_does_nothing() {
    let mut scaler = Autoscaler::new(0, 4);
    assert_eq!(scaler.evaluate(LoadLevel::High, Some(1)), Some(ScalingEvent::ScaleOut { count: 4 }));
    assert_eq!(scaler.evaluate(LoadLevel::Normal, Some(1)), None);
    assert_eq!(scaler.evaluate(LoadLevel::Low, Some(8)), Some(ScalingEvent::ScaleIn { vm_id: 8 }));
    assert_eq!(scaler.cooldown_remaining, 0);
}

#[test]
fn cooldown_counts_down_whatever_the_load() {
    let mut scaler = Autoscaler::new(2, 1);
    assert!(scaler.evaluate(LoadLevel::Low, Some(3)).is_some());
    assert_eq!(scaler.cooldown_remaining, 2);
    assert!(scaler.evaluate(LoadLevel::Low, Some(3)).is_none());
    assert!(scaler.evaluate(LoadLevel::High, None).is_none());
    assert_eq!(scaler.cooldown_remaining, 0);
    assert!(scaler.evaluate(LoadLevel::High, None).is_some());
}

#[test]
fn default_scale_out_spec_is_small() {
    assert_eq!(default_scale_out_spec(), VmSpec::small());
    let s = VmSpec::small();
    assert_eq!((s.vcpu_millicores, s.mem_mb, s.gpu_count, s.nvme_iops), (1_000, 4_096, 0, 2_000));
    let g = VmSpec::gpu_heavy();
    assert_eq!((g.vcpu_millicores, g.mem_mb, g.gpu_count, g.nvme_iops), (8_000, 65_536, 1, 20_000));
    assert_eq!(g.anti_affinity_group, None);
}
