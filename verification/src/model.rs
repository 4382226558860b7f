//! The mathematical model of peak detection.
//!
//! A sample matrix is modeled as a `Seq` of rows (one row per sample, one
//! column per channel), the neighbor relation as a square boolean matrix,
//! and thresholds as a sequence of integers. `is_peak` is the ground truth
//! both engines are proved against: a threshold-crossing sample that
//! dominates every neighboring channel over the full exclusion window.

use vstd::prelude::*;

verus! {

use crate::events::{PeakSign, event_lt};
use vstd::arithmetic::div_mod::{
    lemma_div_pos_is_pos,
    lemma_fundamental_div_mod,
    lemma_fundamental_div_mod_converse_div,
    lemma_fundamental_div_mod_converse_mod,
    lemma_mod_division_less_than_divisor,
};

/// The value of a sample as seen by one detection pass: the pass for
/// positive peaks (`sgn == 1`) reads values as they are, the pass for
/// negative peaks (`sgn == -1`) reads them negated.
pub open spec fn sval(sgn: int, x: int) -> int {
    sgn * x
}

/// The sign factor selected by a single-polarity pass.
pub open spec fn sgn_of(sign: PeakSign) -> int
    recommends
        sign != PeakSign::Both,
{
    if sign == PeakSign::Positive {
        1
    } else {
        -1
    }
}

/// Every row of the sample matrix has exactly `c` channels.
pub open spec fn signal_wf(data: Seq<Seq<int>>, c: nat) -> bool {
    forall|t: int| 0 <= t < data.len() ==> (#[trigger] data[t]).len() == c
}

/// The adjacency matrix is square, reflexive and symmetric. Reflexivity
/// (a channel is its own neighbor) is what additionally enforces a pure
/// temporal local-extremum constraint on every candidate.
pub open spec fn graph_wf(adj: Seq<Seq<bool>>) -> bool {
    &&& forall|j: int| 0 <= j < adj.len() ==> (#[trigger] adj[j]).len() == adj.len()
    &&& forall|j: int| 0 <= j < adj.len() ==> #[trigger] adj[j][j]
    &&& forall|j: int, k: int|
        0 <= j < adj.len() && 0 <= k < adj.len() ==> #[trigger] adj[j][k] == #[trigger] adj[k][j]
}

/// All thresholds are positive.
pub open spec fn thresholds_wf(thr: Seq<int>) -> bool {
    forall|p: int| 0 <= p < thr.len() ==> #[trigger] thr[p] >= 1
}

/// Whether the sample at `(o, k)` disqualifies the candidate at `(t, j)`.
///
/// A candidate must dominate the preceding window strictly, the following
/// window non-strictly, and (on channels other than its own) the current
/// sample non-strictly. Equivalently, it is suppressed by:
/// * an earlier in-window sample at least as large,
/// * a strictly larger sample at the same instant on another channel,
/// * a strictly larger later in-window sample.
pub open spec fn suppressed_by(
    data: Seq<Seq<int>>,
    sgn: int,
    t: int,
    j: int,
    k: int,
    o: int,
) -> bool {
    if o < t {
        sval(sgn, data[o][k]) >= sval(sgn, data[t][j])
    } else if o == t {
        k != j && sval(sgn, data[o][k]) > sval(sgn, data[t][j])
    } else {
        sval(sgn, data[o][k]) > sval(sgn, data[t][j])
    }
}

/// The candidate at `(t, j)` survives against every neighbor of `j` over
/// the whole exclusion window `[t - w, t + w]`.
pub open spec fn dominates_neighborhood(
    data: Seq<Seq<int>>,
    adj: Seq<Seq<bool>>,
    w: int,
    sgn: int,
    t: int,
    j: int,
) -> bool {
    forall|k: int, o: int|
        0 <= k < adj.len() && adj[j][k] && t - w <= o <= t + w ==> !(#[trigger] suppressed_by(
            data,
            sgn,
            t,
            j,
            k,
            o,
        ))
}

/// Ground truth for one polarity: the sample at `(t, j)` lies in the center
/// range (a full window exists on both sides), crosses its channel's
/// threshold, and dominates its spatiotemporal neighborhood.
pub open spec fn is_peak_signed(
    data: Seq<Seq<int>>,
    adj: Seq<Seq<bool>>,
    thr: Seq<int>,
    w: int,
    sgn: int,
    t: int,
    j: int,
) -> bool {
    &&& 0 <= j < adj.len()
    &&& w <= t
    &&& t + w < data.len()
    &&& sval(sgn, data[t][j]) > thr[j]
    &&& dominates_neighborhood(data, adj, w, sgn, t, j)
}

/// Ground truth for a sign selector. `Both` is the union of two fully
/// independent passes: neither polarity considers the other's candidates.
pub open spec fn is_peak(
    data: Seq<Seq<int>>,
    adj: Seq<Seq<bool>>,
    thr: Seq<int>,
    w: int,
    sign: PeakSign,
    t: int,
    j: int,
) -> bool {
    match sign {
        PeakSign::Positive => is_peak_signed(data, adj, thr, w, 1, t, j),
        PeakSign::Negative => is_peak_signed(data, adj, thr, w, -1, t, j),
        PeakSign::Both => is_peak_signed(data, adj, thr, w, 1, t, j) || is_peak_signed(
            data,
            adj,
            thr,
            w,
            -1,
            t,
            j,
        ),
    }
}

/// The boolean peak mask over the full matrix.
pub open spec fn peak_mask(
    data: Seq<Seq<int>>,
    adj: Seq<Seq<bool>>,
    thr: Seq<int>,
    w: int,
    sign: PeakSign,
) -> Seq<Seq<bool>> {
    Seq::new(
        data.len(),
        |t: int| Seq::new(adj.len(), |j: int| is_peak(data, adj, thr, w, sign, t, j)),
    )
}

/// The events named by the first `n` cells of a `c`-channel mask, walked in
/// row-major order (ascending sample index, then ascending channel index).
/// Cell number `x` is the pair `(x / c, x % c)`.
pub open spec fn events_of_mask(m: Seq<Seq<bool>>, c: nat, n: nat) -> Seq<(int, int)>
    decreases n,
{
    if n == 0 || c == 0 {
        Seq::empty()
    } else {
        let t = ((n - 1) as int) / (c as int);
        let j = ((n - 1) as int) % (c as int);
        let prev = events_of_mask(m, c, (n - 1) as nat);
        if m[t][j] {
            prev.push((t, j))
        } else {
            prev
        }
    }
}

/// The ordered sequence of peak events of a detection run: all `(t, j)`
/// with `is_peak`, sorted ascending by sample index, ties broken ascending
/// by channel index.
pub open spec fn peak_events(
    data: Seq<Seq<int>>,
    adj: Seq<Seq<bool>>,
    thr: Seq<int>,
    w: int,
    sign: PeakSign,
) -> Seq<(int, int)> {
    events_of_mask(peak_mask(data, adj, thr, w, sign), adj.len(), data.len() * adj.len())
}

/// Row-major cell coordinates of cell number `x`.
pub proof fn lemma_cell_coords(x: int, c: int)
    requires
        c > 0,
        x >= 0,
    ensures
        x / c >= 0,
        0 <= x % c < c,
        (x / c) * c + (x % c) == x,
{
    lemma_div_pos_is_pos(x, c);
    lemma_mod_division_less_than_divisor(x, c);
    lemma_fundamental_div_mod(x, c);
}

/// Cell coordinates are recovered uniquely from the cell number.
pub proof fn lemma_cell_coords_unique(t: int, j: int, c: int)
    requires
        c > 0,
        t >= 0,
        0 <= j < c,
    ensures
        (t * c + j) / c == t,
        (t * c + j) % c == j,
{
    lemma_fundamental_div_mod_converse_div(t * c + j, c, t, j);
    lemma_fundamental_div_mod_converse_mod(t * c + j, c, t, j);
}

/// Every event produced by `events_of_mask` names a marked in-range cell,
/// and the events come in strictly ascending cell order.
pub proof fn lemma_events_of_mask_cells(m: Seq<Seq<bool>>, c: nat, n: nat)
    ensures
        forall|p: int|
            0 <= p < events_of_mask(m, c, n).len() ==> {
                let e = #[trigger] events_of_mask(m, c, n)[p];
                &&& 0 <= e.1 < c
                &&& 0 <= e.0
                &&& e.0 * (c as int) + e.1 < n
                &&& m[e.0][e.1]
            },
        forall|p: int, q: int|
            0 <= p < q < events_of_mask(m, c, n).len()
                ==> #[trigger] events_of_mask(m, c, n)[p].0 * (c as int) + events_of_mask(
                m,
                c,
                n,
            )[p].1 < #[trigger] events_of_mask(m, c, n)[q].0 * (c as int) + events_of_mask(
                m,
                c,
                n,
            )[q].1,
    decreases n,
{
    if n == 0 || c == 0 {
    } else {
        let cint = c as int;
        let ev = events_of_mask(m, c, n);
        let prev = events_of_mask(m, c, (n - 1) as nat);
        let tn = ((n - 1) as int) / cint;
        let jn = ((n - 1) as int) % cint;
        lemma_events_of_mask_cells(m, c, (n - 1) as nat);
        lemma_cell_coords(n - 1, cint);
        assert(tn * cint + jn == n - 1);
        if m[tn][jn] {
            assert(ev == prev.push((tn, jn)));
            assert(forall|p: int| 0 <= p < prev.len() ==> ev[p] == prev[p]);
            assert(ev[ev.len() - 1] == (tn, jn));
        } else {
            assert(ev == prev);
        }
    }
}

/// Membership in the event sequence is exactly "marked in-range cell".
pub proof fn lemma_events_of_mask_contains(m: Seq<Seq<bool>>, c: nat, n: nat, t: int, j: int)
    requires
        c > 0,
    ensures
        events_of_mask(m, c, n).contains((t, j)) <==> {
            &&& 0 <= j < c
            &&& 0 <= t
            &&& t * (c as int) + j < n
            &&& m[t][j]
        },
    decreases n,
{
    let ev = events_of_mask(m, c, n);
    if n == 0 {
        if ev.contains((t, j)) {
            let p = choose|p: int| 0 <= p < ev.len() && ev[p] == (t, j);
            assert(false);
        }
    } else {
        let cint = c as int;
        let tn = ((n - 1) as int) / cint;
        let jn = ((n - 1) as int) % cint;
        let prev = events_of_mask(m, c, (n - 1) as nat);
        lemma_events_of_mask_contains(m, c, (n - 1) as nat, t, j);
        lemma_cell_coords(n - 1, cint);
        assert(tn * cint + jn == n - 1);
        if m[tn][jn] {
            assert(ev == prev.push((tn, jn)));
            assert(forall|p: int| 0 <= p < prev.len() ==> ev[p] == prev[p]);
            assert(ev[ev.len() - 1] == (tn, jn));
            if ev.contains((t, j)) {
                let p = choose|p: int| 0 <= p < ev.len() && ev[p] == (t, j);
                if p < prev.len() {
                    assert(prev[p] == (t, j));
                    assert(prev.contains((t, j)));
                } else {
                    assert((t, j) == (tn, jn));
                }
            }
            if prev.contains((t, j)) {
                let p = choose|p: int| 0 <= p < prev.len() && prev[p] == (t, j);
                assert(ev[p] == (t, j));
                assert(ev.contains((t, j)));
            }
            if (t, j) == (tn, jn) {
                assert(ev[ev.len() - 1] == (t, j));
                assert(ev.contains((t, j)));
            }
            if 0 <= j < c && 0 <= t && t * cint + j < n && m[t][j] && t * cint + j == n - 1 {
                lemma_cell_coords_unique(t, j, cint);
                assert((t, j) == (tn, jn));
            }
        } else {
            assert(ev == prev);
            if 0 <= j < c && 0 <= t && t * cint + j == n - 1 {
                lemma_cell_coords_unique(t, j, cint);
                assert((t, j) == (tn, jn));
            }
        }
    }
}

/// The event sequence of a mask is strictly sorted: ascending sample
/// index, ties broken ascending by channel index.
pub proof fn lemma_events_of_mask_sorted(m: Seq<Seq<bool>>, c: nat, n: nat)
    ensures
        forall|p: int, q: int|
            0 <= p < q < events_of_mask(m, c, n).len() ==> event_lt(
                #[trigger] events_of_mask(m, c, n)[p],
                #[trigger] events_of_mask(m, c, n)[q],
            ),
{
    let ev = events_of_mask(m, c, n);
    lemma_events_of_mask_cells(m, c, n);
    assert forall|p: int, q: int| 0 <= p < q < ev.len() implies event_lt(ev[p], ev[q]) by {
        lemma_cell_order_implies_event_lt(ev[p], ev[q], c);
    }
}

/// Strictly ascending row-major cell numbers order events by
/// (sample, channel).
pub proof fn lemma_cell_order_implies_event_lt(a: (int, int), b: (int, int), c: nat)
    requires
        0 <= a.1 < c,
        0 <= b.1 < c,
        a.0 >= 0,
        b.0 >= 0,
        a.0 * (c as int) + a.1 < b.0 * (c as int) + b.1,
    ensures
        event_lt(a, b),
{
    if a.0 > b.0 {
        assert(a.0 * (c as int) >= b.0 * (c as int) + (c as int)) by (nonlinear_arith)
            requires
                a.0 >= b.0 + 1,
                (c as int) > 0,
        ;
        assert(false);
    } else if a.0 == b.0 {
        assert(a.1 < b.1);
    }
}

/// A run whose chunk is no longer than twice the exclusion window has no
/// sample with a full window on both sides, so its result is empty for
/// any inputs.
pub proof fn lemma_peak_events_boundary_empty(
    data: Seq<Seq<int>>,
    adj: Seq<Seq<bool>>,
    thr: Seq<int>,
    w: int,
    sign: PeakSign,
)
    requires
        w >= 0,
        data.len() <= 2 * w,
    ensures
        peak_events(data, adj, thr, w, sign) == Seq::<(int, int)>::empty(),
{
    let m = peak_mask(data, adj, thr, w, sign);
    let c = adj.len();
    let n = data.len() * c;
    assert forall|t: int, j: int|
        0 <= t && 0 <= j < c && t * (c as int) + j < n implies !(#[trigger] m[t][j]) by {
        assert(t < data.len()) by (nonlinear_arith)
            requires
                0 <= t,
                0 <= j < c,
                t * (c as int) + j < (data.len() as int) * (c as int),
        ;
    }
    lemma_events_of_mask_empty(m, c, n);
}

/// A mask with no marked in-range cell yields no events.
pub proof fn lemma_events_of_mask_empty(m: Seq<Seq<bool>>, c: nat, n: nat)
    requires
        forall|t: int, j: int|
            0 <= t && 0 <= j < c && t * (c as int) + j < n ==> !(#[trigger] m[t][j]),
    ensures
        events_of_mask(m, c, n) == Seq::<(int, int)>::empty(),
    decreases n,
{
    if n == 0 || c == 0 {
    } else {
        let t = ((n - 1) as int) / (c as int);
        let j = ((n - 1) as int) % (c as int);
        lemma_cell_coords(n - 1, c as int);
        assert(t * (c as int) + j < n);
        lemma_events_of_mask_empty(m, c, (n - 1) as nat);
    }
}

} // verus!
