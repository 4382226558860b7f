//! The exhaustive batch exclusivity engine.
//!
//! The reference algorithm and correctness oracle: every threshold-crossing
//! candidate is checked against every neighbor over the full exclusion
//! window, and the first failing comparison suppresses it. Cost is
//! O(T·C·D·W); the streaming engine computes the same result in one pass.

use vstd::prelude::*;

verus! {

use crate::collector::collect_events;
use crate::compare::{crosses_threshold, signed_gt};
use crate::events::{DetectError, PeakEvent, PeakSign};
use crate::graph::NeighborGraph;
use crate::model::{
    dominates_neighborhood,
    is_peak,
    is_peak_signed,
    lemma_peak_events_boundary_empty,
    peak_events,
    peak_mask,
    sgn_of,
    suppressed_by,
};
use crate::signal::Signal;
use crate::threshold::ThresholdSet;

/// The engines' argument validation: the adjacency and the threshold
/// vector must both cover exactly the signal's channels.
pub open spec fn dims_ok(signal: &Signal, graph: &NeighborGraph, thresholds: &ThresholdSet) -> bool {
    &&& graph@.len() == signal.spec_channels()
    &&& thresholds@.len() == signal.spec_channels()
}

/// Checks one threshold-crossing candidate against every neighbor over
/// the full exclusion window, short-circuiting on the first failing
/// comparison.
#[verifier::loop_isolation(false)]
fn candidate_dominates(
    signal: &Signal,
    graph: &NeighborGraph,
    w: usize,
    sign: PeakSign,
    t: usize,
    j: usize,
) -> (ok: bool)
    requires
        signal.wf(),
        graph.wf(),
        graph@.len() == signal.spec_channels(),
        sign != PeakSign::Both,
        w <= t,
        t + w < signal@.len(),
        j < graph@.len(),
    ensures
        ok == dominates_neighborhood(
            signal@,
            graph@,
            w as int,
            sgn_of(sign),
            t as int,
            j as int,
        ),
{
    let ghost sgn = sgn_of(sign);
    proof {
        signal.lemma_view_shape();
    }
    let c = graph.channel_count();
    let vt = signal.get(t, j);
    for k in 0..c
        invariant
            forall|k2: int, o2: int|
                0 <= k2 < k && graph@[j as int][k2] && t - w <= o2 <= t + w ==> !(
                #[trigger] suppressed_by(signal@, sgn, t as int, j as int, k2, o2)),
    {
        if graph.is_neighbor(j, k) {
            if k != j {
                let vk = signal.get(t, k);
                if signed_gt(sign, vk, vt) {
                    proof {
                        assert(suppressed_by(signal@, sgn, t as int, j as int, k as int, t as int));
                    }
                    return false;
                }
            }
            for o in 0..w
                invariant
                    forall|k2: int, o2: int|
                        0 <= k2 < k && graph@[j as int][k2] && t - w <= o2 <= t + w ==> !(
                        #[trigger] suppressed_by(signal@, sgn, t as int, j as int, k2, o2)),
                    forall|o2: int|
                        t - w <= o2 <= t + w && (o2 < t - w + o || t <= o2 <= t + o) ==> !(
                        #[trigger] suppressed_by(signal@, sgn, t as int, j as int, k as int, o2)),
            {
                let vp = signal.get(t - w + o, k);
                if !signed_gt(sign, vt, vp) {
                    proof {
                        assert(suppressed_by(
                            signal@,
                            sgn,
                            t as int,
                            j as int,
                            k as int,
                            t - w + o,
                        ));
                    }
                    return false;
                }
                let vf = signal.get(t + o + 1, k);
                if signed_gt(sign, vf, vt) {
                    proof {
                        assert(suppressed_by(
                            signal@,
                            sgn,
                            t as int,
                            j as int,
                            k as int,
                            t + o + 1,
                        ));
                    }
                    return false;
                }
            }
        } else {
            proof {
                assert(!graph@[j as int][k as int]);
            }
        }
    }
    true
}

/// One full-matrix suppression pass for a single polarity: the resulting
/// mask marks exactly the peaks of that polarity.
#[verifier::loop_isolation(false)]
fn batch_pass(
    signal: &Signal,
    graph: &NeighborGraph,
    thresholds: &ThresholdSet,
    w: usize,
    sign: PeakSign,
) -> (mask: Vec<Vec<bool>>)
    requires
        signal.wf(),
        graph.wf(),
        thresholds.wf(),
        dims_ok(signal, graph, thresholds),
        sign != PeakSign::Both,
        2 * (w as int) < signal@.len(),
    ensures
        mask.deep_view().len() == signal@.len(),
        forall|t: int|
            0 <= t < signal@.len() ==> (#[trigger] mask.deep_view()[t]).len() == graph@.len(),
        forall|t: int, j: int|
            0 <= t < signal@.len() && 0 <= j < graph@.len() ==> #[trigger] mask.deep_view()[t][j]
                == is_peak_signed(
                signal@,
                graph@,
                thresholds@,
                w as int,
                sgn_of(sign),
                t,
                j,
            ),
{
    let ghost sgn = sgn_of(sign);
    proof {
        signal.lemma_view_shape();
    }
    let t_total = signal.sample_count();
    let c = graph.channel_count();
    let mut mask: Vec<Vec<bool>> = Vec::new();
    for t in 0..t_total
        invariant
            mask@.len() == t,
            forall|p: int| 0 <= p < t ==> (#[trigger] mask@[p])@.len() == c,
            forall|p: int, q: int|
                0 <= p < t && 0 <= q < c ==> #[trigger] mask@[p]@[q] == is_peak_signed(
                    signal@,
                    graph@,
                    thresholds@,
                    w as int,
                    sgn,
                    p,
                    q,
                ),
    {
        let mut row: Vec<bool> = Vec::new();
        let in_center = w <= t && t < t_total - w;
        for j in 0..c
            invariant
                row@.len() == j,
                forall|q: int|
                    0 <= q < j ==> #[trigger] row@[q] == is_peak_signed(
                        signal@,
                        graph@,
                        thresholds@,
                        w as int,
                        sgn,
                        t as int,
                        q,
                    ),
        {
            let cell = if in_center {
                let crossing = crosses_threshold(sign, signal.get(t, j), thresholds.get(j));
                if crossing {
                    candidate_dominates(signal, graph, w, sign, t, j)
                } else {
                    false
                }
            } else {
                false
            };
            row.push(cell);
        }
        mask.push(row);
    }
    proof {
        assert forall|t: int|
            0 <= t < signal@.len() implies (#[trigger] mask.deep_view()[t]).len()
            == graph@.len() by {
            assert(mask.deep_view()[t] == mask@[t]@);
        }
        assert forall|t: int, j: int|
            0 <= t < signal@.len() && 0 <= j < graph@.len() implies #[trigger] mask.deep_view(
        )[t][j] == is_peak_signed(
            signal@,
            graph@,
            thresholds@,
            w as int,
            sgn,
            t,
            j,
        ) by {
            assert(mask.deep_view()[t] == mask@[t]@);
        }
    }
    mask
}

/// Pointwise union of two masks of identical shape.
#[verifier::loop_isolation(false)]
pub(crate) fn union_masks(a: &Vec<Vec<bool>>, b: &Vec<Vec<bool>>, c: usize) -> (r: Vec<Vec<bool>>)
    requires
        a.deep_view().len() == b.deep_view().len(),
        forall|t: int| 0 <= t < a.deep_view().len() ==> (#[trigger] a.deep_view()[t]).len() == c,
        forall|t: int| 0 <= t < b.deep_view().len() ==> (#[trigger] b.deep_view()[t]).len() == c,
    ensures
        r.deep_view().len() == a.deep_view().len(),
        forall|t: int| 0 <= t < r.deep_view().len() ==> (#[trigger] r.deep_view()[t]).len() == c,
        forall|t: int, j: int|
            0 <= t < a.deep_view().len() && 0 <= j < c ==> #[trigger] r.deep_view()[t][j] == (
            a.deep_view()[t][j] || b.deep_view()[t][j]),
{
    let tn = a.len();
    proof {
        assert(a.deep_view().len() == tn);
    }
    let mut r: Vec<Vec<bool>> = Vec::new();
    for t in 0..tn
        invariant
            r@.len() == t,
            forall|p: int| 0 <= p < t ==> (#[trigger] r@[p])@.len() == c,
            forall|p: int, q: int|
                0 <= p < t && 0 <= q < c ==> #[trigger] r@[p]@[q] == (a.deep_view()[p][q]
                    || b.deep_view()[p][q]),
    {
        proof {
            assert(a.deep_view()[t as int] == a@[t as int]@);
            assert(b.deep_view()[t as int] == b@[t as int]@);
        }
        let mut row: Vec<bool> = Vec::new();
        for j in 0..c
            invariant
                row@.len() == j,
                forall|q: int|
                    0 <= q < j ==> #[trigger] row@[q] == (a.deep_view()[t as int][q]
                        || b.deep_view()[t as int][q]),
        {
            row.push(a[t][j] || b[t][j]);
        }
        r.push(row);
    }
    proof {
        assert forall|t: int| 0 <= t < r.deep_view().len() implies (
        #[trigger] r.deep_view()[t]).len() == c by {
            assert(r.deep_view()[t] == r@[t]@);
        }
        assert forall|t: int, j: int|
            0 <= t < a.deep_view().len() && 0 <= j < c implies #[trigger] r.deep_view()[t][j] == (
        a.deep_view()[t][j] || b.deep_view()[t][j]) by {
            assert(r.deep_view()[t] == r@[t]@);
        }
    }
    r
}

/// Builds the full peak mask for a sign selector: one suppression pass per
/// polarity, `Both` as the union of two fully independent passes.
fn full_mask(
    signal: &Signal,
    graph: &NeighborGraph,
    thresholds: &ThresholdSet,
    w: usize,
    sign: PeakSign,
) -> (mask: Vec<Vec<bool>>)
    requires
        signal.wf(),
        graph.wf(),
        thresholds.wf(),
        dims_ok(signal, graph, thresholds),
        2 * (w as int) < signal@.len(),
    ensures
        mask.deep_view().len() == signal@.len(),
        forall|t: int|
            0 <= t < signal@.len() ==> (#[trigger] mask.deep_view()[t]).len() == graph@.len(),
        forall|t: int, j: int|
            0 <= t < signal@.len() && 0 <= j < graph@.len() ==> #[trigger] mask.deep_view()[t][j]
                == is_peak(signal@, graph@, thresholds@, w as int, sign, t, j),
{
    match sign {
        PeakSign::Positive => batch_pass(signal, graph, thresholds, w, PeakSign::Positive),
        PeakSign::Negative => batch_pass(signal, graph, thresholds, w, PeakSign::Negative),
        PeakSign::Both => {
            let pos = batch_pass(signal, graph, thresholds, w, PeakSign::Positive);
            let neg = batch_pass(signal, graph, thresholds, w, PeakSign::Negative);
            let c = graph.channel_count();
            union_masks(&pos, &neg, c)
        },
    }
}

/// Detects peaks by exhaustive neighborhood checking.
///
/// For valid dimensions the result is exactly the ordered event sequence
/// of the ground-truth predicate: every threshold-crossing sample of the
/// center range that dominates its spatiotemporal neighborhood, sorted
/// ascending by sample index then channel index. A threshold vector or
/// adjacency that does not match the signal's channel count is an
/// `InvalidArgument`; a chunk with `T <= 2·W` yields an empty result, not
/// an error.
pub fn detect_peaks_batch(
    signal: &Signal,
    graph: &NeighborGraph,
    thresholds: &ThresholdSet,
    exclusion_window: usize,
    sign: PeakSign,
) -> (r: Result<Vec<PeakEvent>, DetectError>)
    requires
        signal.wf(),
        graph.wf(),
        thresholds.wf(),
    ensures
        !dims_ok(signal, graph, thresholds) ==> r == Err::<Vec<PeakEvent>, DetectError>(
            DetectError::InvalidArgument,
        ),
        dims_ok(signal, graph, thresholds) ==> {
            &&& r matches Ok(events)
            &&& events.deep_view() == peak_events(
                signal@,
                graph@,
                thresholds@,
                exclusion_window as int,
                sign,
            )
        },
{
    let c = signal.channel_count();
    if graph.channel_count() != c || thresholds.len() != c {
        return Err(DetectError::InvalidArgument);
    }
    proof {
        signal.lemma_view_shape();
    }
    let t_total = signal.sample_count();
    if exclusion_window >= t_total || t_total - exclusion_window <= exclusion_window {
        let events: Vec<PeakEvent> = Vec::new();
        proof {
            lemma_peak_events_boundary_empty(
                signal@,
                graph@,
                thresholds@,
                exclusion_window as int,
                sign,
            );
            assert(events.deep_view() =~= Seq::<(int, int)>::empty());
        }
        return Ok(events);
    }
    let mask = full_mask(signal, graph, thresholds, exclusion_window, sign);
    let events = collect_events(&mask, c);
    proof {
        assert(mask.deep_view() =~~= peak_mask(
            signal@,
            graph@,
            thresholds@,
            exclusion_window as int,
            sign,
        ));
    }
    Ok(events)
}

} // verus!
