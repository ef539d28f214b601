//! Reconciliation: correction commands for desired attributes whose actual
//! value differs, issued only where the actual value is known and trusted.
use vstd::prelude::*;
use crate::floats::{f32_bits_le, f32_bits_lt, f32_is_nan, f32_le, f32_lt};
use crate::ordered_map::Duplicate;
use crate::outside::now_ms;
use crate::rules::{command_matches, commands_match, CommandPlan};
use crate::state_engine::{all_mismatches, StateEngine};
use crate::types::{Command, DeviceId, StateMismatch};

verus! {

#[derive(Debug, Clone)]
pub struct ReconciliationReport {
    pub completed_at: u64,
    pub devices_evaluated: u32,
    pub mismatches_found: u32,
    pub commands_issued: u32,
    /// Mismatches whose device never reported the attribute; left alone.
    pub skipped_no_actual: u32,
    /// Mismatches whose device is below the degraded threshold; left for
    /// continuous reconciliation.
    pub skipped_low_confidence: u32,
    pub unreachable_devices: Vec<DeviceId>,
}

/// The correction command for a mismatch: reconciler-originated (no rule)
/// and of the highest priority.
pub open spec fn correction(m: StateMismatch) -> CommandPlan {
    CommandPlan {
        device_id: m.device_id.0@,
        attribute: m.attribute.0@,
        value: m.desired,
        rule_id: None,
        priority: 255,
    }
}

/// Boot reconciliation acts on a mismatch whose actual value is known and
/// whose confidence is not below the threshold.
pub open spec fn boot_acts(m: StateMismatch, threshold: u32) -> bool {
    m.actual is Some && !f32_lt(m.confidence, threshold)
}

/// Continuous reconciliation acts on a mismatch whose actual value is known
/// and whose confidence is at or above the threshold.
pub open spec fn continuous_acts(m: StateMismatch, threshold: u32) -> bool {
    m.actual is Some && f32_le(threshold, m.confidence)
}

pub open spec fn boot_plans(ms: Seq<StateMismatch>, threshold: u32) -> Seq<CommandPlan>
    decreases ms.len(),
{
    if ms.len() == 0 {
        Seq::empty()
    } else if boot_acts(ms.last(), threshold) {
        boot_plans(ms.drop_last(), threshold).push(correction(ms.last()))
    } else {
        boot_plans(ms.drop_last(), threshold)
    }
}

pub open spec fn continuous_plans(ms: Seq<StateMismatch>, threshold: u32) -> Seq<CommandPlan>
    decreases ms.len(),
{
    if ms.len() == 0 {
        Seq::empty()
    } else if continuous_acts(ms.last(), threshold) {
        continuous_plans(ms.drop_last(), threshold).push(correction(ms.last()))
    } else {
        continuous_plans(ms.drop_last(), threshold)
    }
}

/// The devices of the mismatches without an actual value, in order.
pub open spec fn unreachable_ids(ms: Seq<StateMismatch>) -> Seq<Seq<char>>
    decreases ms.len(),
{
    if ms.len() == 0 {
        Seq::empty()
    } else if ms.last().actual is None {
        unreachable_ids(ms.drop_last()).push(ms.last().device_id.0@)
    } else {
        unreachable_ids(ms.drop_last())
    }
}

/// How many mismatches have a known actual value but a confidence below the
/// threshold.
pub open spec fn low_confidence_count(ms: Seq<StateMismatch>, threshold: u32) -> nat
    decreases ms.len(),
{
    if ms.len() == 0 {
        0
    } else {
        low_confidence_count(ms.drop_last(), threshold) + if ms.last().actual is Some && f32_lt(
            ms.last().confidence,
            threshold,
        ) {
            1nat
        } else {
            0nat
        }
    }
}

fn correction_command(m: &StateMismatch) -> (c: Command)
    ensures
        command_matches(c, correction(*m)),
{
    Command::new(m.device_id.duplicate(), m.attribute.duplicate(), m.desired.duplicate(), None, 255)
}

/// Every mismatch is either corrected or skipped for exactly one reason.
pub proof fn lemma_boot_partition(ms: Seq<StateMismatch>, threshold: u32)
    ensures
        boot_plans(ms, threshold).len() + unreachable_ids(ms).len() + low_confidence_count(
            ms,
            threshold,
        ) == ms.len(),
    decreases ms.len(),
{
    if ms.len() > 0 {
        lemma_boot_partition(ms.drop_last(), threshold);
    }
}

/// `p` sets the mismatched attribute of `m` to its desired value: same
/// device and attribute, the desired value, no rule, the highest priority.
pub open spec fn sets_to_desired(p: CommandPlan, m: StateMismatch) -> bool {
    &&& p.device_id == m.device_id.0@
    &&& p.attribute == m.attribute.0@
    &&& p.value == m.desired
    &&& p.rule_id is None
    &&& p.priority == 255
}

/// Every correction reconciliation plans sets a mismatched attribute to its
/// desired value: each planned command targets the device and attribute of
/// some mismatch whose actual value is known, carries that mismatch's
/// desired value, names no rule and has the highest priority. This holds of
/// boot and of continuous reconciliation alike.
pub proof fn law_corrections_restore_desired(ms: Seq<StateMismatch>, threshold: u32)
    ensures
        forall|k: int| #![trigger boot_plans(ms, threshold)[k]] 0 <= k < boot_plans(ms, threshold).len()
            ==> exists|j: int| #![trigger ms[j]] 0 <= j < ms.len() && ms[j].actual is Some && sets_to_desired(
                boot_plans(ms, threshold)[k],
                ms[j],
            ),
        forall|k: int| #![trigger continuous_plans(ms, threshold)[k]] 0 <= k < continuous_plans(ms, threshold).len()
            ==> exists|j: int| #![trigger ms[j]] 0 <= j < ms.len() && ms[j].actual is Some && sets_to_desired(
                continuous_plans(ms, threshold)[k],
                ms[j],
            ),
    decreases ms.len(),
{
    if ms.len() > 0 {
        let d = ms.drop_last();
        law_corrections_restore_desired(d, threshold);
        let n = ms.len() - 1;
        assert(ms.last() == ms[n]);
        let bp = boot_plans(ms, threshold);
        let bd = boot_plans(d, threshold);
        if boot_acts(ms.last(), threshold) {
            assert(bp == bd.push(correction(ms.last())));
        } else {
            assert(bp == bd);
        }
        assert forall|k: int| #![trigger bp[k]] 0 <= k < bp.len() implies exists|j: int| #![trigger ms[j]]
            0 <= j < ms.len() && ms[j].actual is Some && sets_to_desired(bp[k], ms[j]) by {
            if k < bd.len() {
                assert(bp[k] == bd[k]);
                let j = choose|j: int| 0 <= j < d.len() && d[j].actual is Some && sets_to_desired(bd[k], d[j]);
                assert(d[j] == ms[j]);
            } else {
                assert(bp[k] == correction(ms[n]));
                assert(sets_to_desired(bp[k], ms[n]));
            }
        }
        let cp = continuous_plans(ms, threshold);
        let cd = continuous_plans(d, threshold);
        assert forall|k: int| #![trigger cp[k]] 0 <= k < cp.len() implies exists|j: int| #![trigger ms[j]]
            0 <= j < ms.len() && ms[j].actual is Some && sets_to_desired(cp[k], ms[j]) by {
            if k < cd.len() {
                assert(cp[k] == cd[k]);
                let j = choose|j: int| 0 <= j < d.len() && d[j].actual is Some && sets_to_desired(cd[k], d[j]);
                assert(d[j] == ms[j]);
            } else {
                assert(cp[k] == correction(ms[n]));
                assert(sets_to_desired(cp[k], ms[n]));
            }
        }
    }
}

/// Boot and continuous reconciliation plan the same corrections for
/// mismatches whose confidences, like the threshold, are numbers (not NaN).
proof fn lemma_plans_agree(ms: Seq<StateMismatch>, threshold: u32)
    requires
        !f32_is_nan(threshold),
        forall|i: int| 0 <= i < ms.len() ==> !f32_is_nan(#[trigger] ms[i].confidence),
    ensures
        boot_plans(ms, threshold) == continuous_plans(ms, threshold),
    decreases ms.len(),
{
    if ms.len() > 0 {
        let d = ms.drop_last();
        assert forall|i: int| 0 <= i < d.len() implies !f32_is_nan(#[trigger] d[i].confidence) by {
            assert(d[i] == ms[i]);
        }
        lemma_plans_agree(d, threshold);
        assert(!f32_is_nan(ms[ms.len() - 1].confidence));
        assert(boot_acts(ms.last(), threshold) == continuous_acts(ms.last(), threshold));
    }
}

/// On the same state, boot and continuous reconciliation issue the same
/// corrections, in the same order, whenever no mismatch's confidence and
/// not the threshold is NaN: a known actual value whose confidence is not
/// below the threshold is one at or above it.
pub proof fn law_boot_and_continuous_agree(state_engine: StateEngine, degraded_threshold: u32)
    requires
        !f32_is_nan(degraded_threshold),
        forall|i: int|
            0 <= i < all_mismatches(state_engine.devices.entries@).len() ==> !f32_is_nan(
                #[trigger] all_mismatches(state_engine.devices.entries@)[i].confidence,
            ),
    ensures
        boot_plans(all_mismatches(state_engine.devices.entries@), degraded_threshold)
            == continuous_plans(all_mismatches(state_engine.devices.entries@), degraded_threshold),
{
    lemma_plans_agree(all_mismatches(state_engine.devices.entries@), degraded_threshold);
}

/// A prefix of the mismatches has no more unreachable devices and no more
/// low-confidence mismatches than the whole.
proof fn lemma_prefix_counts(ms: Seq<StateMismatch>, i: int, threshold: u32)
    requires
        0 <= i <= ms.len(),
    ensures
        unreachable_ids(ms.subrange(0, i)).len() <= unreachable_ids(ms).len(),
        low_confidence_count(ms.subrange(0, i), threshold) <= low_confidence_count(ms, threshold),
    decreases ms.len(),
{
    if i == ms.len() {
        assert(ms.subrange(0, i) =~= ms);
    } else {
        assert(ms.drop_last().subrange(0, i) =~= ms.subrange(0, i));
        lemma_prefix_counts(ms.drop_last(), i, threshold);
    }
}

/// Boot reconciliation at time `now`: diffs desired against actual and
/// issues a correction for each mismatch whose actual value is known and
/// whose confidence is not below `degraded_threshold`, reporting the rest.
pub fn boot_reconcile_at(state_engine: &StateEngine, degraded_threshold: u32, now: u64) -> (r: (
    Vec<Command>,
    ReconciliationReport,
))
    requires
        unreachable_ids(all_mismatches(state_engine.devices.entries@)).len() <= u32::MAX,
        low_confidence_count(all_mismatches(state_engine.devices.entries@), degraded_threshold)
            <= u32::MAX,
    ensures
        ({
            let ms = all_mismatches(state_engine.devices.entries@);
            &&& commands_match(r.0@, boot_plans(ms, degraded_threshold))
            &&& r.1.completed_at == now
            &&& r.1.devices_evaluated == state_engine.devices.entries@.len() as u32
            &&& r.1.mismatches_found == ms.len() as u32
            &&& r.1.commands_issued == r.0@.len() as u32
            &&& r.1.skipped_no_actual == unreachable_ids(ms).len()
            &&& r.1.skipped_low_confidence == low_confidence_count(ms, degraded_threshold)
            &&& r.1.unreachable_devices@.map_values(|d: DeviceId| d.0@) == unreachable_ids(ms)
        }),
{
    let mismatches = state_engine.diff();
    let ghost ms = mismatches@;
    proof {
        lemma_boot_partition(ms, degraded_threshold);
    }
    let mut commands: Vec<Command> = Vec::new();
    let mut skipped_no_actual: u32 = 0;
    let mut skipped_low_confidence: u32 = 0;
    let mut unreachable_devices: Vec<DeviceId> = Vec::new();
    let n = mismatches.len();
    let mismatches_found = #[verifier::truncate] (n as u32);
    let mut i: usize = 0;
    while i < n
        invariant
            n == ms.len(),
            unreachable_ids(ms).len() <= u32::MAX,
            low_confidence_count(ms, degraded_threshold) <= u32::MAX,
            mismatches@ == ms,
            i <= n,
            commands_match(commands@, boot_plans(ms.subrange(0, i as int), degraded_threshold)),
            skipped_no_actual == unreachable_ids(ms.subrange(0, i as int)).len(),
            skipped_low_confidence == low_confidence_count(ms.subrange(0, i as int), degraded_threshold),
            unreachable_devices@.map_values(|d: DeviceId| d.0@) == unreachable_ids(ms.subrange(0, i as int)),
        decreases n - i,
    {
        let m = &mismatches[i];
        let ghost t = ms.subrange(0, i + 1);
        proof {
            assert(t.drop_last() =~= ms.subrange(0, i as int));
            assert(t.last() == *m);
            lemma_boot_partition(t, degraded_threshold);
            lemma_boot_partition(ms.subrange(0, i as int), degraded_threshold);
            lemma_prefix_counts(ms, i + 1, degraded_threshold);
        }
        if m.actual.is_none() {
            skipped_no_actual = skipped_no_actual + 1;
            let ghost ub = unreachable_devices@;
            unreachable_devices.push(m.device_id.duplicate());
            proof {
                assert(unreachable_devices@.map_values(|d: DeviceId| d.0@) =~= ub.map_values(
                    |d: DeviceId| d.0@,
                ).push(m.device_id.0@));
            }
        } else if f32_bits_lt(m.confidence, degraded_threshold) {
            skipped_low_confidence = skipped_low_confidence + 1;
        } else {
            let ghost cb = commands@;
            let c = correction_command(m);
            commands.push(c);
            proof {
                let plans = boot_plans(t, degraded_threshold);
                assert forall|j: int| 0 <= j < commands@.len() implies #[trigger] command_matches(
                    commands@[j],
                    plans[j],
                ) by {
                    if j < cb.len() {
                        assert(commands@[j] == cb[j]);
                    }
                }
            }
        }
        i = i + 1;
    }
    assert(ms.subrange(0, n as int) =~= ms);
    let devices_evaluated = #[verifier::truncate] (state_engine.devices.entries.len() as u32);
    let commands_issued = #[verifier::truncate] (commands.len() as u32);
    let report = ReconciliationReport {
        completed_at: now,
        devices_evaluated,
        mismatches_found,
        commands_issued,
        skipped_no_actual,
        skipped_low_confidence,
        unreachable_devices,
    };
    (commands, report)
}

/// Boot reconciliation stamped with the current time.
pub fn boot_reconcile(state_engine: &StateEngine, degraded_threshold: u32) -> (r: (
    Vec<Command>,
    ReconciliationReport,
))
    requires
        unreachable_ids(all_mismatches(state_engine.devices.entries@)).len() <= u32::MAX,
        low_confidence_count(all_mismatches(state_engine.devices.entries@), degraded_threshold)
            <= u32::MAX,
    ensures
        ({
            let ms = all_mismatches(state_engine.devices.entries@);
            &&& commands_match(r.0@, boot_plans(ms, degraded_threshold))
            &&& r.1.devices_evaluated == state_engine.devices.entries@.len() as u32
            &&& r.1.mismatches_found == ms.len() as u32
            &&& r.1.commands_issued == r.0@.len() as u32
            &&& r.1.skipped_no_actual == unreachable_ids(ms).len()
            &&& r.1.skipped_low_confidence == low_confidence_count(ms, degraded_threshold)
            &&& r.1.unreachable_devices@.map_values(|d: DeviceId| d.0@) == unreachable_ids(ms)
        }),
{
    let now = now_ms();
    boot_reconcile_at(state_engine, degraded_threshold, now)
}

/// Continuous reconciliation: a correction for each mismatch whose actual
/// value is known and whose confidence is at or above `degraded_threshold`.
pub fn continuous_reconcile(state_engine: &StateEngine, degraded_threshold: u32) -> (r: Vec<Command>)
    ensures
        commands_match(
            r@,
            continuous_plans(all_mismatches(state_engine.devices.entries@), degraded_threshold),
        ),
{
    let mismatches = state_engine.diff();
    let ghost ms = mismatches@;
    let mut commands: Vec<Command> = Vec::new();
    let n = mismatches.len();
    let mut i: usize = 0;
    while i < n
        invariant
            n == ms.len(),
            mismatches@ == ms,
            i <= n,
            commands_match(commands@, continuous_plans(ms.subrange(0, i as int), degraded_threshold)),
        decreases n - i,
    {
        let m = &mismatches[i];
        let ghost t = ms.subrange(0, i + 1);
        proof {
            assert(t.drop_last() =~= ms.subrange(0, i as int));
            assert(t.last() == *m);
        }
        if m.actual.is_some() && f32_bits_le(degraded_threshold, m.confidence) {
            let ghost cb = commands@;
            let c = correction_command(m);
            commands.push(c);
            proof {
                let plans = continuous_plans(t, degraded_threshold);
                assert forall|j: int| 0 <= j < commands@.len() implies #[trigger] command_matches(
                    commands@[j],
                    plans[j],
                ) by {
                    if j < cb.len() {
                        assert(commands@[j] == cb[j]);
                    }
                }
            }
        }
        i = i + 1;
    }
    assert(ms.subrange(0, n as int) =~= ms);
    commands
}

} // verus!
