use vstd::prelude::*;

use crate::vm::{small_spec, VmId, VmSpec};

verus! {

/// Where fleet-average CPU utilization stands against the autoscaler's
/// thresholds.
#[derive(Debug, Clone, Copy, PartialEq, Eq, Structural)]
pub enum LoadLevel {
    /// At or above the scale-out threshold.
    High,
    /// Between the two thresholds.
    Normal,
    /// At or below the scale-in threshold (and not at or above the
    /// scale-out one).
    Low,
}

/// A scaling decision.
#[derive(Debug, Clone, Copy, PartialEq, Eq, Structural)]
pub enum ScalingEvent {
    ScaleOut { count: u32 },
    ScaleIn { vm_id: VmId },
}

/// The autoscaler's decision logic: scale out on high load, scale in an
/// idle VM on low load, and stay quiet for `cooldown_ticks` evaluations
/// after every decision so transient spikes do not make it thrash.
#[derive(Debug, Clone, Copy)]
pub struct Autoscaler {
    pub cooldown_ticks: u32,
    pub scale_out_batch: u32,
    /// Evaluations left before the autoscaler may decide again.
    pub cooldown_remaining: u32,
}

/// One evaluation: the autoscaler's next state and its decision.
pub open spec fn step(a: Autoscaler, load: LoadLevel, idle_vm: Option<VmId>) -> (
    Autoscaler,
    Option<ScalingEvent>,
) {
    if a.cooldown_remaining > 0 {
        (
            Autoscaler { cooldown_remaining: (a.cooldown_remaining - 1) as u32, ..a },
            None,
        )
    } else {
        match load {
            LoadLevel::High => (
                Autoscaler { cooldown_remaining: a.cooldown_ticks, ..a },
                Some(ScalingEvent::ScaleOut { count: a.scale_out_batch }),
            ),
            LoadLevel::Low => match idle_vm {
                Some(vm_id) => (
                    Autoscaler { cooldown_remaining: a.cooldown_ticks, ..a },
                    Some(ScalingEvent::ScaleIn { vm_id }),
                ),
                None => (a, None),
            },
            LoadLevel::Normal => (a, None),
        }
    }
}

/// The decisions of successive evaluations on `inputs`, starting from `a`.
pub open spec fn decisions(a: Autoscaler, inputs: Seq<(LoadLevel, Option<VmId>)>) -> Seq<
    Option<ScalingEvent>,
>
    decreases inputs.len(),
{
    if inputs.len() == 0 {
        Seq::empty()
    } else {
        let (next, d) = step(a, inputs[0].0, inputs[0].1);
        seq![d] + decisions(next, inputs.drop_first())
    }
}

impl Autoscaler {
    /// An autoscaler that may decide at its first evaluation.
    pub fn new(cooldown_ticks: u32, scale_out_batch: u32) -> (a: Self)
        ensures
            a == (Autoscaler { cooldown_ticks, scale_out_batch, cooldown_remaining: 0 }),
    {
        Autoscaler { cooldown_ticks, scale_out_batch, cooldown_remaining: 0 }
    }

    /// Returns a scaling decision for the current load, respecting the
    /// cooldown window: while it lasts, every evaluation only counts it
    /// down.
    pub fn evaluate(&mut self, load: LoadLevel, idle_vm: Option<VmId>) -> (r: Option<
        ScalingEvent,
    >)
        ensures
            (*final(self), r) == step(*old(self), load, idle_vm),
    {
        if self.cooldown_remaining > 0 {
            self.cooldown_remaining = self.cooldown_remaining - 1;
            return None;
        }
        match load {
            LoadLevel::High => {
                self.cooldown_remaining = self.cooldown_ticks;
                Some(ScalingEvent::ScaleOut { count: self.scale_out_batch })
            },
            LoadLevel::Low => match idle_vm {
                Some(vm_id) => {
                    self.cooldown_remaining = self.cooldown_ticks;
                    Some(ScalingEvent::ScaleIn { vm_id })
                },
                None => None,
            },
            LoadLevel::Normal => None,
        }
    }
}

/// After any scaling decision, the next `cooldown_ticks` evaluations decide
/// nothing whatever the load, and the one after them decides as a fresh
/// autoscaler would.
pub proof fn lemma_cooldown_after_decision(
    a: Autoscaler,
    load: LoadLevel,
    idle_vm: Option<VmId>,
    inputs: Seq<(LoadLevel, Option<VmId>)>,
)
    requires
        step(a, load, idle_vm).1 is Some,
    ensures
        decisions(step(a, load, idle_vm).0, inputs).len() == inputs.len(),
        forall|k: int|
            0 <= k < inputs.len() && k < a.cooldown_ticks ==> #[trigger] decisions(
                step(a, load, idle_vm).0,
                inputs,
            )[k] is None,
        inputs.len() > a.cooldown_ticks ==> decisions(step(a, load, idle_vm).0, inputs)[a.cooldown_ticks as int]
            == step(
            Autoscaler { cooldown_remaining: 0, ..a },
            inputs[a.cooldown_ticks as int].0,
            inputs[a.cooldown_ticks as int].1,
        ).1,
{
    lemma_countdown(step(a, load, idle_vm).0, inputs);
}

/// From a state with `c` evaluations of cooldown left, the next `c`
/// decisions are empty and the one after is taken by a fresh autoscaler.
pub proof fn lemma_countdown(a: Autoscaler, inputs: Seq<(LoadLevel, Option<VmId>)>)
    ensures
        decisions(a, inputs).len() == inputs.len(),
        forall|k: int|
            0 <= k < inputs.len() && k < a.cooldown_remaining ==> #[trigger] decisions(a, inputs)[k]
                is None,
        inputs.len() > a.cooldown_remaining ==> decisions(a, inputs)[a.cooldown_remaining as int]
            == step(
            Autoscaler { cooldown_remaining: 0, ..a },
            inputs[a.cooldown_remaining as int].0,
            inputs[a.cooldown_remaining as int].1,
        ).1,
    decreases inputs.len(),
{
    if inputs.len() > 0 {
        let (next, d) = step(a, inputs[0].0, inputs[0].1);
        lemma_countdown(next, inputs.drop_first());
        let rest = decisions(next, inputs.drop_first());
        assert(decisions(a, inputs) == seq![d] + rest);
        if a.cooldown_remaining > 0 {
            assert forall|k: int|
                0 <= k < inputs.len() && k < a.cooldown_remaining implies #[trigger] decisions(
                a,
                inputs,
            )[k] is None by {
                if k > 0 {
                    assert(decisions(a, inputs)[k] == rest[k - 1]);
                }
            }
            if inputs.len() > a.cooldown_remaining {
                let c = a.cooldown_remaining as int;
                assert(decisions(a, inputs)[c] == rest[c - 1]);
                assert(inputs.drop_first()[c - 1] == inputs[c]);
            }
        }
    }
}

/// What one evaluation does. While the cooldown lasts it only counts the
/// cooldown down and decides nothing. Outside the cooldown, high load
/// scales out by the configured batch, low load scales in the idle VM it
/// is offered (if any), and every decision starts a full cooldown; an
/// evaluation that decides nothing leaves the autoscaler as it was. The
/// settings never change.
pub proof fn lemma_evaluation(a: Autoscaler, load: LoadLevel, idle_vm: Option<VmId>)
    ensures
        ({
            let (next, d) = step(a, load, idle_vm);
            &&& next.cooldown_ticks == a.cooldown_ticks
            &&& next.scale_out_batch == a.scale_out_batch
            &&& a.cooldown_remaining > 0 ==> d is None && next.cooldown_remaining
                == a.cooldown_remaining - 1
            &&& a.cooldown_remaining == 0 && d is None ==> next == a
            &&& d is Some ==> a.cooldown_remaining == 0 && next.cooldown_remaining
                == a.cooldown_ticks
            &&& a.cooldown_remaining == 0 && load == LoadLevel::High ==> d == Some(
                ScalingEvent::ScaleOut { count: a.scale_out_batch },
            )
            &&& a.cooldown_remaining == 0 && load == LoadLevel::Low && idle_vm is Some ==> d
                == Some(ScalingEvent::ScaleIn { vm_id: idle_vm.unwrap() })
            &&& (load == LoadLevel::Normal || (load == LoadLevel::Low && idle_vm is None)) ==> d
                is None
        }),
{
}

/// Outside the cooldown, evaluations that decide nothing (normal load, or
/// low load with no idle VM) leave the autoscaler ready: a high load after
/// any number of them scales out at once.
pub proof fn lemma_quiet_keeps_ready(
    a: Autoscaler,
    inputs: Seq<(LoadLevel, Option<VmId>)>,
    idle_vm: Option<VmId>,
)
    requires
        a.cooldown_remaining == 0,
        forall|k: int|
            0 <= k < inputs.len() ==> (#[trigger] inputs[k]).0 == LoadLevel::Normal || (
            inputs[k].0 == LoadLevel::Low && inputs[k].1 is None),
    ensures
        decisions(a, inputs.push((LoadLevel::High, idle_vm))).len() == inputs.len() + 1,
        forall|k: int|
            0 <= k < inputs.len() ==> #[trigger] decisions(
                a,
                inputs.push((LoadLevel::High, idle_vm)),
            )[k] is None,
        decisions(a, inputs.push((LoadLevel::High, idle_vm)))[inputs.len() as int] == Some(
            ScalingEvent::ScaleOut { count: a.scale_out_batch },
        ),
    decreases inputs.len(),
{
    let all = inputs.push((LoadLevel::High, idle_vm));
    lemma_countdown(a, all);
    if inputs.len() > 0 {
        let (next, d) = step(a, all[0].0, all[0].1);
        assert(all[0] == inputs[0]);
        assert(next == a);
        assert(all.drop_first() =~= inputs.drop_first().push((LoadLevel::High, idle_vm)));
        assert forall|k: int|
            0 <= k < inputs.drop_first().len() implies (#[trigger] inputs.drop_first()[k]).0
            == LoadLevel::Normal || (inputs.drop_first()[k].0 == LoadLevel::Low
            && inputs.drop_first()[k].1 is None) by {
            assert(inputs.drop_first()[k] == inputs[k + 1]);
        }
        lemma_quiet_keeps_ready(a, inputs.drop_first(), idle_vm);
        let rest = decisions(a, all.drop_first());
        assert(decisions(a, all) == seq![d] + rest);
        assert forall|k: int| 0 <= k < inputs.len() implies #[trigger] decisions(a, all)[k] is None by {
            if k > 0 {
                assert(decisions(a, all)[k] == rest[k - 1]);
            }
        }
        assert(decisions(a, all)[inputs.len() as int] == rest[inputs.len() - 1]);
    } else {
        assert(all =~= seq![(LoadLevel::High, idle_vm)]);
        assert(all.drop_first() =~= Seq::<(LoadLevel, Option<VmId>)>::empty());
        assert(decisions(a, all) == seq![step(a, LoadLevel::High, idle_vm).1] + decisions(
            step(a, LoadLevel::High, idle_vm).0,
            all.drop_first(),
        ));
    }
}

/// The spec of the VMs the autoscaler adds when scaling out.
pub fn default_scale_out_spec() -> (s: VmSpec)
    ensures
        s == small_spec(),
{
    VmSpec::small()
}

} // verus!
