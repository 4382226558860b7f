//! Laws of the detection model, stated and proved once for all inputs.
//!
//! Both engines' contracts equate their output with `peak_events`, so
//! every law below holds of both engines' results.

use vstd::prelude::*;

verus! {

use crate::events::{PeakSign, event_lt, events_sorted};
use crate::model::{
    dominates_neighborhood,
    is_peak,
    is_peak_signed,
    lemma_events_of_mask_contains,
    lemma_events_of_mask_sorted,
    peak_events,
    peak_mask,
    signal_wf,
    suppressed_by,
    sval,
};

/// One channel's trace.
pub open spec fn column(data: Seq<Seq<int>>, j: int) -> Seq<int> {
    Seq::new(data.len(), |t: int| data[t][j])
}

/// The signal with every sample negated, channel-wise.
pub open spec fn negated_signal(data: Seq<Seq<int>>) -> Seq<Seq<int>> {
    Seq::new(data.len(), |t: int| Seq::new(data[t].len(), |j: int| -data[t][j]))
}

/// The classical 1-D sliding-window peak finder on a single trace: a
/// threshold-crossing sample that strictly dominates the preceding `w`
/// samples and non-strictly dominates the following `w`.
pub open spec fn classic_peak_1d(trace: Seq<int>, thr: int, w: int, sgn: int, t: int) -> bool {
    &&& w <= t
    &&& t + w < trace.len()
    &&& sval(sgn, trace[t]) > thr
    &&& forall|o: int|
        t - w <= o < t ==> sval(sgn, #[trigger] trace[o]) < sval(sgn, trace[t])
    &&& forall|o: int|
        t < o <= t + w ==> sval(sgn, #[trigger] trace[o]) <= sval(sgn, trace[t])
}

/// How many samples a cell number spans: a row-major cell `(t, j)` with
/// `j < c` lies below cell count `len · c` exactly when `t < len`.
proof fn lemma_cell_row_bound(t: int, j: int, c: int, len: int)
    requires
        c > 0,
        0 <= j < c,
        0 <= t,
        len >= 0,
    ensures
        (t * c + j < len * c) == (t < len),
{
    if t < len {
        assert(t * c + j < len * c) by (nonlinear_arith)
            requires
                t <= len - 1,
                0 <= j < c,
        ;
    }
    if t >= len {
        assert(t * c + j >= len * c) by (nonlinear_arith)
            requires
                t >= len,
                j >= 0,
                c > 0,
        ;
    }
}

/// Membership law: the detection result holds exactly the in-range cells
/// satisfying the ground-truth predicate.
pub proof fn lemma_peak_events_contains(
    data: Seq<Seq<int>>,
    adj: Seq<Seq<bool>>,
    thr: Seq<int>,
    w: int,
    sign: PeakSign,
    e: (int, int),
)
    requires
        adj.len() > 0,
    ensures
        peak_events(data, adj, thr, w, sign).contains(e) <==> {
            &&& 0 <= e.1 < adj.len()
            &&& 0 <= e.0 < data.len()
            &&& is_peak(data, adj, thr, w, sign, e.0, e.1)
        },
{
    let m = peak_mask(data, adj, thr, w, sign);
    let c = adj.len();
    lemma_events_of_mask_contains(m, c, data.len() * c, e.0, e.1);
    if 0 <= e.1 < c && 0 <= e.0 {
        lemma_cell_row_bound(e.0, e.1, c as int, data.len() as int);
        if e.0 < data.len() {
            assert(m[e.0][e.1] == is_peak(data, adj, thr, w, sign, e.0, e.1));
        }
    }
}

/// Ordering law: the detection result is sorted ascending by sample
/// index, ties broken ascending by channel index (strictly, so it is
/// also free of duplicates).
pub proof fn lemma_peak_events_sorted(
    data: Seq<Seq<int>>,
    adj: Seq<Seq<bool>>,
    thr: Seq<int>,
    w: int,
    sign: PeakSign,
)
    ensures
        events_sorted(peak_events(data, adj, thr, w, sign)),
{
    let ev = peak_events(data, adj, thr, w, sign);
    lemma_events_of_mask_sorted(peak_mask(data, adj, thr, w, sign), adj.len(), data.len() * adj.len());
    assert forall|p: int, q: int| 0 <= p < q < ev.len() implies event_lt(ev[p], ev[q]) by {}
}

/// Union law: the result for `Both` is exactly the union of the results
/// of two fully independent single-polarity runs — neither sign considers
/// the other's candidates.
pub proof fn lemma_both_is_union(
    data: Seq<Seq<int>>,
    adj: Seq<Seq<bool>>,
    thr: Seq<int>,
    w: int,
    e: (int, int),
)
    requires
        adj.len() > 0,
    ensures
        peak_events(data, adj, thr, w, PeakSign::Both).contains(e) <==> (peak_events(
            data,
            adj,
            thr,
            w,
            PeakSign::Positive,
        ).contains(e) || peak_events(data, adj, thr, w, PeakSign::Negative).contains(e)),
{
    lemma_peak_events_contains(data, adj, thr, w, PeakSign::Both, e);
    lemma_peak_events_contains(data, adj, thr, w, PeakSign::Positive, e);
    lemma_peak_events_contains(data, adj, thr, w, PeakSign::Negative, e);
}

/// Sign symmetry: detecting negative peaks on a signal is detecting
/// positive peaks on the channel-wise negated signal, thresholds held
/// fixed.
pub proof fn lemma_sign_symmetry(
    data: Seq<Seq<int>>,
    adj: Seq<Seq<bool>>,
    thr: Seq<int>,
    w: int,
)
    requires
        signal_wf(data, adj.len()),
    ensures
        peak_events(negated_signal(data), adj, thr, w, PeakSign::Positive) == peak_events(
            data,
            adj,
            thr,
            w,
            PeakSign::Negative,
        ),
{
    let nd = negated_signal(data);
    let c = adj.len();
    assert(nd.len() == data.len());
    assert forall|t: int, j: int|
        0 <= t < data.len() && 0 <= j < c implies #[trigger] nd[t][j] == -data[t][j] by {
        assert(data[t].len() == c);
    }
    assert forall|t: int, j: int|
        0 <= t < data.len() && 0 <= j < c implies (#[trigger] is_peak_signed(
        nd,
        adj,
        thr,
        w,
        1,
        t,
        j,
    )) == is_peak_signed(data, adj, thr, w, -1, t, j) by {
        if w <= t && t + w < data.len() {
            assert forall|k: int, o: int|
                0 <= k < c && t - w <= o <= t + w implies (#[trigger] suppressed_by(
                nd,
                1,
                t,
                j,
                k,
                o,
            )) == suppressed_by(data, -1, t, j, k, o) by {
                assert(nd[o][k] == -data[o][k]);
                assert(nd[t][j] == -data[t][j]);
            }
            assert(dominates_neighborhood(nd, adj, w, 1, t, j) == dominates_neighborhood(
                data,
                adj,
                w,
                -1,
                t,
                j,
            )) by {
                if dominates_neighborhood(nd, adj, w, 1, t, j) {
                    assert forall|k: int, o: int|
                        0 <= k < c && adj[j][k] && t - w <= o <= t + w implies !(
                    #[trigger] suppressed_by(data, -1, t, j, k, o)) by {
                        assert(!suppressed_by(nd, 1, t, j, k, o));
                    }
                }
                if dominates_neighborhood(data, adj, w, -1, t, j) {
                    assert forall|k: int, o: int|
                        0 <= k < c && adj[j][k] && t - w <= o <= t + w implies !(
                    #[trigger] suppressed_by(nd, 1, t, j, k, o)) by {
                        assert(!suppressed_by(data, -1, t, j, k, o));
                    }
                }
            }
            assert(nd[t][j] == -data[t][j]);
        }
    }
    assert(peak_mask(nd, adj, thr, w, PeakSign::Positive) =~~= peak_mask(
        data,
        adj,
        thr,
        w,
        PeakSign::Negative,
    ));
}

/// Degenerate graph: when every channel neighbors only itself, the
/// spatiotemporal predicate collapses to the classical per-channel 1-D
/// sliding-window peak finder.
pub proof fn lemma_degenerate_graph_is_classic_1d(
    data: Seq<Seq<int>>,
    adj: Seq<Seq<bool>>,
    thr: Seq<int>,
    w: int,
    sgn: int,
    t: int,
    j: int,
)
    requires
        w >= 0,
        0 <= j < adj.len(),
        forall|k: int| 0 <= k < adj.len() ==> ((#[trigger] adj[j][k]) <==> k == j),
    ensures
        is_peak_signed(data, adj, thr, w, sgn, t, j) == classic_peak_1d(
            column(data, j),
            thr[j],
            w,
            sgn,
            t,
        ),
{
    let tr = column(data, j);
    assert(tr.len() == data.len());
    if w <= t && t + w < data.len() {
        assert(tr[t] == data[t][j]);
        if is_peak_signed(data, adj, thr, w, sgn, t, j) {
            assert forall|o: int|
                t - w <= o < t implies sval(sgn, #[trigger] tr[o]) < sval(sgn, tr[t]) by {
                assert(!suppressed_by(data, sgn, t, j, j, o));
                assert(tr[o] == data[o][j]);
            }
            assert forall|o: int|
                t < o <= t + w implies sval(sgn, #[trigger] tr[o]) <= sval(sgn, tr[t]) by {
                assert(!suppressed_by(data, sgn, t, j, j, o));
                assert(tr[o] == data[o][j]);
            }
        }
        if classic_peak_1d(tr, thr[j], w, sgn, t) {
            assert forall|k: int, o: int|
                0 <= k < adj.len() && adj[j][k] && t - w <= o <= t + w implies !(
            #[trigger] suppressed_by(data, sgn, t, j, k, o)) by {
                assert(k == j);
                if o < t {
                    assert(sval(sgn, tr[o]) < sval(sgn, tr[t]));
                    assert(tr[o] == data[o][j]);
                } else if o > t {
                    assert(sval(sgn, tr[o]) <= sval(sgn, tr[t]));
                    assert(tr[o] == data[o][j]);
                }
            }
        }
    }
}

} // verus!
