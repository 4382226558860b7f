//! The streaming exclusivity engine.
//!
//! The production path: one left-to-right pass over the chunk. Each
//! channel keeps a monotonic deque over the trailing window of `2·W + 1`
//! samples, so when sample `i` has been ingested the candidate at the
//! window's center `t = i - W` is decided by one comparison against each
//! neighbor deque's front — the earliest window maximum. Amortized cost is
//! linear in samples times neighbor degree, and the output is proved equal
//! to the batch engine's.

use vstd::prelude::*;

verus! {

use crate::batch::{dims_ok, union_masks};
use crate::collector::collect_events;
use crate::compare::{crosses_threshold, signed_gt};
use crate::events::{DetectError, PeakEvent, PeakSign};
use crate::graph::NeighborGraph;
use crate::model::{
    dominates_neighborhood,
    is_peak_signed,
    lemma_peak_events_boundary_empty,
    peak_events,
    peak_mask,
    sgn_of,
    suppressed_by,
};
use crate::signal::Signal;
use crate::threshold::ThresholdSet;
use crate::window::{WindowDeque, deque_inv, lemma_front_decides, win_lo};

/// Decides a threshold-crossing candidate by comparing it against the
/// front of each neighbor's window deque.
#[verifier::loop_isolation(false)]
fn candidate_front_check(
    signal: &Signal,
    graph: &NeighborGraph,
    deques: &Vec<WindowDeque>,
    w: usize,
    sign: PeakSign,
    t: usize,
    j: usize,
) -> (ok: bool)
    requires
        signal.wf(),
        graph.wf(),
        graph@.len() == signal.spec_channels(),
        sign != PeakSign::Both,
        w <= t,
        t + w < signal@.len(),
        j < graph@.len(),
        deques@.len() == graph@.len(),
        forall|ch: int|
            0 <= ch < deques@.len() ==> deque_inv(
                (#[trigger] deques@[ch])@,
                signal@,
                sgn_of(sign),
                ch,
                t - w,
                t + w,
            ) && deques@[ch]@.len() > 0,
    ensures
        ok == dominates_neighborhood(signal@, graph@, w as int, sgn_of(sign), t as int, j as int),
{
    let ghost data = signal@;
    let ghost sgn = sgn_of(sign);
    proof {
        signal.lemma_view_shape();
    }
    let c = graph.channel_count();
    let vt = signal.get(t, j);
    for k in 0..c
        invariant
            forall|k2: int, o2: int|
                0 <= k2 < k && graph@[j as int][k2] && t - w <= o2 <= t + w ==> !(
                #[trigger] suppressed_by(data, sgn, t as int, j as int, k2, o2)),
    {
        if graph.is_neighbor(j, k) {
            let ghost dqk = deques@[k as int]@;
            let f = deques[k].front();
            proof {
                assert(t - w <= (dqk[0] as int) <= t + w);
                lemma_front_decides(dqk, data, sgn, k as int, t as int, w as int, j as int);
            }
            let vf = signal.get(f, k);
            let killed = signed_gt(sign, vf, vt) || (vf == vt && f < t);
            if killed {
                return false;
            }
            proof {
                assert forall|o2: int| t - w <= o2 <= t + w implies !(#[trigger] suppressed_by(
                    data,
                    sgn,
                    t as int,
                    j as int,
                    k as int,
                    o2,
                )) by {
                    if suppressed_by(data, sgn, t as int, j as int, k as int, o2) {
                        assert(exists|o: int|
                            t - w <= o <= t + w && #[trigger] suppressed_by(
                                data,
                                sgn,
                                t as int,
                                j as int,
                                k as int,
                                o,
                            ));
                        assert(false);
                    }
                }
            }
        } else {
            proof {
                assert(!graph@[j as int][k as int]);
            }
        }
    }
    true
}

/// A row of `c` cleared mask cells.
fn false_row(c: usize) -> (row: Vec<bool>)
    ensures
        row@.len() == c,
        forall|q: int| 0 <= q < c ==> !(#[trigger] row@[q]),
{
    let mut row: Vec<bool> = Vec::new();
    for q in 0..c
        invariant
            row@.len() == q,
            forall|p: int| 0 <= p < q ==> !(#[trigger] row@[p]),
    {
        row.push(false);
    }
    row
}

/// One single-polarity streaming pass over the whole chunk: the resulting
/// mask marks exactly the peaks of that polarity.
#[verifier::loop_isolation(false)]
fn streaming_pass(
    signal: &Signal,
    graph: &NeighborGraph,
    thresholds: &ThresholdSet,
    w: usize,
    sign: PeakSign,
) -> (mask: Vec<Vec<bool>>)
    requires
        signal.wf(),
        graph.wf(),
        thresholds.wf(),
        dims_ok(signal, graph, thresholds),
        sign != PeakSign::Both,
        2 * (w as int) < signal@.len(),
    ensures
        mask.deep_view().len() == signal@.len(),
        forall|t: int|
            0 <= t < signal@.len() ==> (#[trigger] mask.deep_view()[t]).len() == graph@.len(),
        forall|t: int, j: int|
            0 <= t < signal@.len() && 0 <= j < graph@.len() ==> #[trigger] mask.deep_view()[t][j]
                == is_peak_signed(
                signal@,
                graph@,
                thresholds@,
                w as int,
                sgn_of(sign),
                t,
                j,
            ),
{
    let ghost data = signal@;
    let ghost sgn = sgn_of(sign);
    let ghost adj = graph@;
    let ghost thr = thresholds@;
    proof {
        signal.lemma_view_shape();
    }
    let t_total = signal.sample_count();
    let c = graph.channel_count();
    let span = 2 * w;
    let mut deques: Vec<WindowDeque> = Vec::new();
    for ch in 0..c
        invariant
            deques@.len() == ch,
            forall|p: int| 0 <= p < ch ==> (#[trigger] deques@[p])@.len() == 0,
    {
        deques.push(WindowDeque::new());
    }
    let mut mask: Vec<Vec<bool>> = Vec::new();
    for b in 0..w
        invariant
            mask@.len() == b,
            forall|p: int| 0 <= p < b ==> (#[trigger] mask@[p])@.len() == c,
            forall|p: int, q: int|
                0 <= p < b && 0 <= q < c ==> #[trigger] mask@[p]@[q] == is_peak_signed(
                    data,
                    adj,
                    thr,
                    w as int,
                    sgn,
                    p,
                    q,
                ),
    {
        mask.push(false_row(c));
    }
    for i in 0..t_total
        invariant
            deques@.len() == c,
            forall|ch: int|
                0 <= ch < c ==> deque_inv(
                    (#[trigger] deques@[ch])@,
                    data,
                    sgn,
                    ch,
                    win_lo(i as int - 1, span as int),
                    i as int - 1,
                ),
            mask@.len() == (if i as int >= span as int {
                i as int - w as int
            } else {
                w as int
            }),
            forall|p: int| 0 <= p < mask@.len() ==> (#[trigger] mask@[p])@.len() == c,
            forall|p: int, q: int|
                0 <= p < mask@.len() && 0 <= q < c ==> #[trigger] mask@[p]@[q] == is_peak_signed(
                    data,
                    adj,
                    thr,
                    w as int,
                    sgn,
                    p,
                    q,
                ),
    {
        for ch in 0..c
            invariant
                deques@.len() == c,
                forall|ch2: int|
                    0 <= ch2 < ch ==> deque_inv(
                        (#[trigger] deques@[ch2])@,
                        data,
                        sgn,
                        ch2,
                        win_lo(i as int, span as int),
                        i as int,
                    ) && deques@[ch2]@.len() > 0,
                forall|ch2: int|
                    ch <= ch2 < c ==> deque_inv(
                        (#[trigger] deques@[ch2])@,
                        data,
                        sgn,
                        ch2,
                        win_lo(i as int - 1, span as int),
                        i as int - 1,
                    ),
        {
            deques[ch].ingest(signal, sign, ch, i, span);
        }
        if i >= span {
            let t = i - w;
            proof {
                assert(win_lo(i as int, span as int) == t as int - w as int);
            }
            let mut row: Vec<bool> = Vec::new();
            for j in 0..c
                invariant
                    row@.len() == j,
                    forall|q: int|
                        0 <= q < j ==> #[trigger] row@[q] == is_peak_signed(
                            data,
                            adj,
                            thr,
                            w as int,
                            sgn,
                            t as int,
                            q,
                        ),
            {
                let vt = signal.get(t, j);
                let cell = if crosses_threshold(sign, vt, thresholds.get(j)) {
                    candidate_front_check(signal, graph, &deques, w, sign, t, j)
                } else {
                    false
                };
                row.push(cell);
            }
            mask.push(row);
        }
    }
    for b in 0..w
        invariant
            mask@.len() == t_total - w + b,
            forall|p: int| 0 <= p < mask@.len() ==> (#[trigger] mask@[p])@.len() == c,
            forall|p: int, q: int|
                0 <= p < mask@.len() && 0 <= q < c ==> #[trigger] mask@[p]@[q] == is_peak_signed(
                    data,
                    adj,
                    thr,
                    w as int,
                    sgn,
                    p,
                    q,
                ),
    {
        mask.push(false_row(c));
    }
    proof {
        assert forall|t: int|
            0 <= t < signal@.len() implies (#[trigger] mask.deep_view()[t]).len()
            == graph@.len() by {
            assert(mask.deep_view()[t] == mask@[t]@);
        }
        assert forall|t: int, j: int|
            0 <= t < signal@.len() && 0 <= j < graph@.len() implies #[trigger] mask.deep_view(
        )[t][j] == is_peak_signed(
            signal@,
            graph@,
            thresholds@,
            w as int,
            sgn,
            t,
            j,
        ) by {
            assert(mask.deep_view()[t] == mask@[t]@);
        }
    }
    mask
}

/// Detects peaks in one linear pass using per-channel monotonic deques
/// coordinated across the neighbor graph.
///
/// The contract is the batch engine's, clause for clause: for valid
/// dimensions the result is exactly the ordered event sequence of the
/// ground-truth predicate, so the two engines agree exactly on every
/// input. A threshold vector or adjacency that does not match the
/// signal's channel count is an `InvalidArgument`; a chunk with
/// `T <= 2·W` yields an empty result, not an error.
pub fn detect_peaks_streaming(
    signal: &Signal,
    graph: &NeighborGraph,
    thresholds: &ThresholdSet,
    exclusion_window: usize,
    sign: PeakSign,
) -> (r: Result<Vec<PeakEvent>, DetectError>)
    requires
        signal.wf(),
        graph.wf(),
        thresholds.wf(),
    ensures
        !dims_ok(signal, graph, thresholds) ==> r == Err::<Vec<PeakEvent>, DetectError>(
            DetectError::InvalidArgument,
        ),
        dims_ok(signal, graph, thresholds) ==> {
            &&& r matches Ok(events)
            &&& events.deep_view() == peak_events(
                signal@,
                graph@,
                thresholds@,
                exclusion_window as int,
                sign,
            )
        },
{
    let c = signal.channel_count();
    if graph.channel_count() != c || thresholds.len() != c {
        return Err(DetectError::InvalidArgument);
    }
    proof {
        signal.lemma_view_shape();
    }
    let t_total = signal.sample_count();
    if exclusion_window >= t_total || t_total - exclusion_window <= exclusion_window {
        let events: Vec<PeakEvent> = Vec::new();
        proof {
            lemma_peak_events_boundary_empty(
                signal@,
                graph@,
                thresholds@,
                exclusion_window as int,
                sign,
            );
            assert(events.deep_view() =~= Seq::<(int, int)>::empty());
        }
        return Ok(events);
    }
    let mask = match sign {
        PeakSign::Positive => streaming_pass(
            signal,
            graph,
            thresholds,
            exclusion_window,
            PeakSign::Positive,
        ),
        PeakSign::Negative => streaming_pass(
            signal,
            graph,
            thresholds,
            exclusion_window,
            PeakSign::Negative,
        ),
        PeakSign::Both => {
            let pos = streaming_pass(signal, graph, thresholds, exclusion_window, PeakSign::Positive);
            let neg = streaming_pass(signal, graph, thresholds, exclusion_window, PeakSign::Negative);
            union_masks(&pos, &neg, c)
        },
    };
    let events = collect_events(&mask, c);
    proof {
        assert(mask.deep_view() =~~= peak_mask(
            signal@,
            graph@,
            thresholds@,
            exclusion_window as int,
            sign,
        ));
    }
    Ok(events)
}

} // verus!
