use vstd::prelude::*;
use crate::traits::Collaborators;
use crate::types::{Decision, ParaId, RelayBlockNumber, XcmMessage};

verus! {

/// Saturating addition on block numbers: a due date never wraps around.
pub open spec fn sat_add_u32(a: u32, b: u32) -> u32 {
    if a + b > u32::MAX {
        u32::MAX
    } else {
        (a + b) as u32
    }
}

/// What the deferral policy decides, as a pure function of the classifier's
/// verdict, the send block, the current relay block, the configured deferral
/// duration and the emergency override.
pub open spec fn spec_decision(
    classifier_matches: bool,
    sent_at: RelayBlockNumber,
    now: RelayBlockNumber,
    defer_duration: u32,
    defer_all_by: Option<u32>,
) -> Decision {
    match defer_all_by {
        Some(d) => Decision::DeferUntil(sat_add_u32(now, d)),
        None => if classifier_matches {
            Decision::DeferUntil(sat_add_u32(sent_at, defer_duration))
        } else {
            Decision::Execute
        },
    }
}

/// The deferral policy, in priority order: the emergency override defers
/// every message by a fixed delay from its arrival block; otherwise a
/// classifier-matched message is deferred to its send block plus the
/// configured duration, as a fraud-detection grace period; every other
/// message executes now.
pub fn decide_deferral<C: Collaborators>(
    c: &C,
    origin: ParaId,
    m: &XcmMessage,
    sent_at: RelayBlockNumber,
    now: RelayBlockNumber,
    defer_duration: u32,
    defer_all_by: Option<u32>,
) -> (d: Decision)
    ensures
        d == spec_decision(
            c.classifier_matches(origin, m.data@),
            sent_at,
            now,
            defer_duration,
            defer_all_by,
        ),
        defer_all_by matches Some(by) ==> d == Decision::DeferUntil(sat_add_u32(now, by)),
        defer_all_by is None && c.classifier_matches(origin, m.data@) ==> d
            == Decision::DeferUntil(sat_add_u32(sent_at, defer_duration)),
        defer_all_by is None && !c.classifier_matches(origin, m.data@) ==> d
            == Decision::Execute,
{
    match defer_all_by {
        Some(d) => {
            let to = if d > u32::MAX - now {
                u32::MAX
            } else {
                now + d
            };
            Decision::DeferUntil(to)
        },
        None => {
            if c.matches_deferral(origin, m) {
                let to = if defer_duration > u32::MAX - sent_at {
                    u32::MAX
                } else {
                    sent_at + defer_duration
                };
                Decision::DeferUntil(to)
            } else {
                Decision::Execute
            }
        },
    }
}

} // verus!
