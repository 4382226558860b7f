//! Per-channel monotonic deque: the sliding-window-extremum structure of
//! the streaming engine.
//!
//! For one channel, the deque holds sample indices of a trailing window,
//! in ascending index order with sign-adjusted values ordered away from
//! the front. Every in-window sample not on the deque is strictly beaten
//! by a later deque entry, so the front is the window's earliest maximum:
//! one comparison against it decides a candidate's fate over the whole
//! window.

use vstd::prelude::*;

verus! {

use std::collections::VecDeque;
use crate::compare::signed_gt;
use crate::events::PeakSign;
use crate::model::{sgn_of, suppressed_by, sval};
use crate::signal::Signal;

/// The sign-adjusted value of channel `ch` at sample `o`.
pub open spec fn sample_sv(data: Seq<Seq<int>>, sgn: int, ch: int, o: int) -> int {
    sval(sgn, data[o][ch])
}

/// Whether the index `o` is on the deque.
pub open spec fn contains_idx(dq: Seq<usize>, o: int) -> bool {
    exists|p: int| 0 <= p < dq.len() && (#[trigger] dq[p]) as int == o
}

/// The lower edge of the trailing window of width `span + 1` ending at `i`.
pub open spec fn win_lo(i: int, span: int) -> int {
    if i - span > 0 {
        i - span
    } else {
        0
    }
}

/// The deque's shape over the window `[lo, hi]`, except for the element
/// lower bound (which eviction re-establishes): indices ascend and are at
/// most `hi`, sign-adjusted values descend from the front, and every
/// in-window index not on the deque is strictly beaten by a later deque
/// entry.
pub open spec fn deque_core(
    dq: Seq<usize>,
    data: Seq<Seq<int>>,
    sgn: int,
    ch: int,
    lo: int,
    hi: int,
) -> bool {
    &&& forall|p: int| 0 <= p < dq.len() ==> (#[trigger] dq[p]) as int <= hi
    &&& forall|p: int, q: int|
        0 <= p < q < dq.len() ==> ((#[trigger] dq[p]) as int) < ((#[trigger] dq[q]) as int)
    &&& forall|p: int, q: int|
        0 <= p < q < dq.len() ==> sample_sv(data, sgn, ch, (#[trigger] dq[p]) as int) >= sample_sv(
            data,
            sgn,
            ch,
            (#[trigger] dq[q]) as int,
        )
    &&& forall|o: int|
        lo <= o <= hi && !(#[trigger] contains_idx(dq, o)) ==> exists|p: int|
            0 <= p < dq.len() && (#[trigger] dq[p]) as int > o && sample_sv(
                data,
                sgn,
                ch,
                dq[p] as int,
            ) > sample_sv(data, sgn, ch, o)
}

/// The full deque invariant over the window `[lo, hi]`.
pub open spec fn deque_inv(
    dq: Seq<usize>,
    data: Seq<Seq<int>>,
    sgn: int,
    ch: int,
    lo: int,
    hi: int,
) -> bool {
    &&& deque_core(dq, data, sgn, ch, lo, hi)
    &&& forall|p: int| 0 <= p < dq.len() ==> lo <= (#[trigger] dq[p]) as int
}

/// The invariant while a new sample `inew` is displacing dominated
/// entries from the back: an in-window index may instead be covered by
/// `inew` itself, which is later than the whole window and about to be
/// pushed.
pub open spec fn deque_mid(
    dq: Seq<usize>,
    data: Seq<Seq<int>>,
    sgn: int,
    ch: int,
    lo: int,
    hi: int,
    inew: int,
) -> bool {
    &&& forall|p: int| 0 <= p < dq.len() ==> lo <= (#[trigger] dq[p]) as int <= hi
    &&& forall|p: int, q: int|
        0 <= p < q < dq.len() ==> ((#[trigger] dq[p]) as int) < ((#[trigger] dq[q]) as int)
    &&& forall|p: int, q: int|
        0 <= p < q < dq.len() ==> sample_sv(data, sgn, ch, (#[trigger] dq[p]) as int) >= sample_sv(
            data,
            sgn,
            ch,
            (#[trigger] dq[q]) as int,
        )
    &&& forall|o: int|
        lo <= o <= hi && !(#[trigger] contains_idx(dq, o)) ==> (exists|p: int|
            0 <= p < dq.len() && (#[trigger] dq[p]) as int > o && sample_sv(
                data,
                sgn,
                ch,
                dq[p] as int,
            ) > sample_sv(data, sgn, ch, o)) || (inew > o && sample_sv(data, sgn, ch, inew)
            > sample_sv(data, sgn, ch, o))
}

/// Evicting an expired front entry (older than the window) preserves the
/// deque's shape.
proof fn lemma_pop_front_preserves(
    dq: Seq<usize>,
    data: Seq<Seq<int>>,
    sgn: int,
    ch: int,
    lo: int,
    hi: int,
)
    requires
        deque_core(dq, data, sgn, ch, lo, hi),
        dq.len() > 0,
        (dq[0] as int) < lo,
    ensures
        deque_core(dq.subrange(1, dq.len() as int), data, sgn, ch, lo, hi),
{
    let dq2 = dq.subrange(1, dq.len() as int);
    assert(forall|p: int| 0 <= p < dq2.len() ==> #[trigger] dq2[p] == dq[p + 1]);
    assert forall|o: int| lo <= o <= hi && !(#[trigger] contains_idx(dq2, o)) implies exists|
        p: int,
    |
        0 <= p < dq2.len() && (#[trigger] dq2[p]) as int > o && sample_sv(
            data,
            sgn,
            ch,
            dq2[p] as int,
        ) > sample_sv(data, sgn, ch, o) by {
        if contains_idx(dq, o) {
            let p = choose|p: int| 0 <= p < dq.len() && (#[trigger] dq[p]) as int == o;
            assert(p >= 1);
            assert(dq2[p - 1] as int == o);
            assert(false);
        } else {
            let p = choose|p: int|
                0 <= p < dq.len() && (#[trigger] dq[p]) as int > o && sample_sv(
                    data,
                    sgn,
                    ch,
                    dq[p] as int,
                ) > sample_sv(data, sgn, ch, o);
            assert(p >= 1);
            assert(dq2[p - 1] == dq[p]);
        }
    }
}

/// Removing a back entry that the incoming sample strictly beats
/// preserves the displacement invariant: whatever the back covered is now
/// covered by the incoming sample.
proof fn lemma_pop_back_preserves(
    dq: Seq<usize>,
    data: Seq<Seq<int>>,
    sgn: int,
    ch: int,
    lo: int,
    hi: int,
    inew: int,
)
    requires
        deque_mid(dq, data, sgn, ch, lo, hi, inew),
        dq.len() > 0,
        hi < inew,
        sample_sv(data, sgn, ch, dq[dq.len() - 1] as int) < sample_sv(data, sgn, ch, inew),
    ensures
        deque_mid(dq.subrange(0, dq.len() - 1), data, sgn, ch, lo, hi, inew),
{
    let last = dq.len() - 1;
    let dq2 = dq.subrange(0, last);
    assert(forall|p: int| 0 <= p < dq2.len() ==> #[trigger] dq2[p] == dq[p]);
    assert forall|o: int|
        lo <= o <= hi && !(#[trigger] contains_idx(dq2, o)) implies (exists|p: int|
            0 <= p < dq2.len() && (#[trigger] dq2[p]) as int > o && sample_sv(
                data,
                sgn,
                ch,
                dq2[p] as int,
            ) > sample_sv(data, sgn, ch, o)) || (inew > o && sample_sv(data, sgn, ch, inew)
            > sample_sv(data, sgn, ch, o)) by {
        if contains_idx(dq, o) {
            let p = choose|p: int| 0 <= p < dq.len() && (#[trigger] dq[p]) as int == o;
            if p < last {
                assert(dq2[p] as int == o);
                assert(false);
            } else {
                // o is the displaced back entry itself
                assert(o == dq[last] as int);
                assert(sample_sv(data, sgn, ch, inew) > sample_sv(data, sgn, ch, o));
            }
        } else {
            if exists|p: int|
                0 <= p < dq.len() && (#[trigger] dq[p]) as int > o && sample_sv(
                    data,
                    sgn,
                    ch,
                    dq[p] as int,
                ) > sample_sv(data, sgn, ch, o) {
                let p = choose|p: int|
                    0 <= p < dq.len() && (#[trigger] dq[p]) as int > o && sample_sv(
                        data,
                        sgn,
                        ch,
                        dq[p] as int,
                    ) > sample_sv(data, sgn, ch, o);
                if p < last {
                    assert(dq2[p] == dq[p]);
                } else {
                    // the dominator was the displaced back: the incoming
                    // sample beats it, hence beats o as well
                    assert(sample_sv(data, sgn, ch, inew) > sample_sv(data, sgn, ch, o));
                }
            }
        }
    }
}

/// Pushing the incoming sample restores the full invariant over the
/// window extended to it.
proof fn lemma_push_restores(
    dq: Seq<usize>,
    data: Seq<Seq<int>>,
    sgn: int,
    ch: int,
    lo: int,
    iu: usize,
)
    requires
        deque_mid(dq, data, sgn, ch, lo, iu as int - 1, iu as int),
        dq.len() > 0 ==> sample_sv(data, sgn, ch, dq[dq.len() - 1] as int) >= sample_sv(
            data,
            sgn,
            ch,
            iu as int,
        ),
        0 <= lo <= iu as int,
    ensures
        deque_inv(dq.push(iu), data, sgn, ch, lo, iu as int),
{
    let dq2 = dq.push(iu);
    let last = dq.len() as int;
    assert(forall|p: int| 0 <= p < last ==> #[trigger] dq2[p] == dq[p]);
    assert(dq2[last] == iu);
    assert forall|p: int, q: int|
        0 <= p < q < dq2.len() implies sample_sv(data, sgn, ch, (#[trigger] dq2[p]) as int)
        >= sample_sv(data, sgn, ch, (#[trigger] dq2[q]) as int) by {
        if q == last && dq.len() > 0 && p < last {
            assert(sample_sv(data, sgn, ch, dq[p] as int) >= sample_sv(
                data,
                sgn,
                ch,
                dq[dq.len() - 1] as int,
            ));
        }
    }
    assert forall|o: int| lo <= o <= iu as int && !(#[trigger] contains_idx(dq2, o)) implies exists|
        p: int,
    |
        0 <= p < dq2.len() && (#[trigger] dq2[p]) as int > o && sample_sv(
            data,
            sgn,
            ch,
            dq2[p] as int,
        ) > sample_sv(data, sgn, ch, o) by {
        assert(!contains_idx(dq, o)) by {
            if contains_idx(dq, o) {
                let p = choose|p: int| 0 <= p < dq.len() && (#[trigger] dq[p]) as int == o;
                assert(dq2[p] as int == o);
                assert(false);
            }
        }
        assert(o != iu as int) by {
            if o == iu as int {
                assert(dq2[last] as int == o);
                assert(false);
            }
        }
        assert(o <= iu as int - 1);
        if exists|p: int|
            0 <= p < dq.len() && (#[trigger] dq[p]) as int > o && sample_sv(
                data,
                sgn,
                ch,
                dq[p] as int,
            ) > sample_sv(data, sgn, ch, o) {
            let p = choose|p: int|
                0 <= p < dq.len() && (#[trigger] dq[p]) as int > o && sample_sv(
                    data,
                    sgn,
                    ch,
                    dq[p] as int,
                ) > sample_sv(data, sgn, ch, o);
            assert(dq2[p] == dq[p]);
        } else {
            assert(iu as int > o && sample_sv(data, sgn, ch, iu as int) > sample_sv(
                data,
                sgn,
                ch,
                o,
            ));
            assert(dq2[last] as int == iu as int);
        }
    }
}

/// One channel's monotonic deque of sample indices.
pub struct WindowDeque {
    dq: VecDeque<usize>,
}

impl View for WindowDeque {
    type V = Seq<usize>;

    closed spec fn view(&self) -> Seq<usize> {
        self.dq@
    }
}

impl WindowDeque {
    pub fn new() -> (d: WindowDeque)
        ensures
            d@ == Seq::<usize>::empty(),
    {
        WindowDeque { dq: VecDeque::new() }
    }

    /// The earliest window maximum.
    pub fn front(&self) -> (f: usize)
        requires
            self@.len() > 0,
        ensures
            f == self@[0],
    {
        self.dq[0]
    }

    /// Slides the window of channel `ch` forward to end at sample `i`:
    /// evicts entries that fell out of the window, displaces back entries
    /// the new sample strictly beats (restoring monotonic order), and
    /// pushes the new sample.
    #[verifier::loop_isolation(false)]
    pub fn ingest(&mut self, signal: &Signal, sign: PeakSign, ch: usize, i: usize, span: usize)
        requires
            signal.wf(),
            sign != PeakSign::Both,
            (ch as int) < signal.spec_channels(),
            (i as int) < signal@.len(),
            deque_inv(
                old(self)@,
                signal@,
                sgn_of(sign),
                ch as int,
                win_lo(i as int - 1, span as int),
                i as int - 1,
            ),
        ensures
            deque_inv(
                final(self)@,
                signal@,
                sgn_of(sign),
                ch as int,
                win_lo(i as int, span as int),
                i as int,
            ),
            final(self)@.len() > 0,
    {
        let ghost data = signal@;
        let ghost sgn = sgn_of(sign);
        let ghost chi = ch as int;
        let lo: usize = if i > span {
            i - span
        } else {
            0
        };
        proof {
            assert(lo as int == win_lo(i as int, span as int));
            assert(deque_core(self.dq@, data, sgn, chi, lo as int, i as int - 1));
        }
        while self.dq.len() > 0 && self.dq[0] < lo
            invariant
                deque_core(self.dq@, data, sgn, chi, lo as int, i as int - 1),
            decreases self.dq@.len(),
        {
            proof {
                lemma_pop_front_preserves(self.dq@, data, sgn, chi, lo as int, i as int - 1);
            }
            let _ = self.dq.pop_front();
        }
        proof {
            assert forall|p: int| 0 <= p < self.dq@.len() implies lo as int <= (
            #[trigger] self.dq@[p]) as int by {
                assert((self.dq@[0] as int) <= (self.dq@[p] as int));
            }
        }
        let vi = signal.get(i, ch);
        while self.dq.len() > 0 && signed_gt(sign, vi, signal.get(self.dq[self.dq.len() - 1], ch))
            invariant
                deque_mid(self.dq@, data, sgn, chi, lo as int, i as int - 1, i as int),
            decreases self.dq@.len(),
        {
            proof {
                lemma_pop_back_preserves(
                    self.dq@,
                    data,
                    sgn,
                    chi,
                    lo as int,
                    i as int - 1,
                    i as int,
                );
            }
            let _ = self.dq.pop_back();
        }
        proof {
            lemma_push_restores(self.dq@, data, sgn, chi, lo as int, i);
        }
        self.dq.push_back(i);
    }
}

/// What one deque front decides. With the invariant over the candidate's
/// window `[t - w, t + w]` on neighbor channel `ch`, some in-window sample
/// of `ch` suppresses the candidate at `(t, j)` exactly when the front
/// does: it has a strictly larger sign-adjusted value, or an equal one at
/// an earlier sample index.
pub proof fn lemma_front_decides(
    dq: Seq<usize>,
    data: Seq<Seq<int>>,
    sgn: int,
    ch: int,
    t: int,
    w: int,
    j: int,
)
    requires
        w >= 0,
        dq.len() > 0,
        deque_inv(dq, data, sgn, ch, t - w, t + w),
    ensures
        ({
            let f = dq[0] as int;
            let fv = sample_sv(data, sgn, ch, f);
            let cv = sample_sv(data, sgn, j, t);
            (fv > cv || (fv == cv && f < t)) <==> exists|o: int|
                t - w <= o <= t + w && #[trigger] suppressed_by(data, sgn, t, j, ch, o)
        }),
{
    let f = dq[0] as int;
    let fv = sample_sv(data, sgn, ch, f);
    let cv = sample_sv(data, sgn, j, t);
    assert(t - w <= f <= t + w);
    // The front's value tops the whole window.
    assert forall|o: int| t - w <= o <= t + w implies sample_sv(data, sgn, ch, o) <= fv by {
        if contains_idx(dq, o) {
            let p = choose|p: int| 0 <= p < dq.len() && (#[trigger] dq[p]) as int == o;
            if p > 0 {
                assert(sample_sv(data, sgn, ch, dq[p] as int) <= sample_sv(
                    data,
                    sgn,
                    ch,
                    dq[0] as int,
                ));
            }
        } else {
            let p = choose|p: int|
                0 <= p < dq.len() && (#[trigger] dq[p]) as int > o && sample_sv(
                    data,
                    sgn,
                    ch,
                    dq[p] as int,
                ) > sample_sv(data, sgn, ch, o);
            if p > 0 {
                assert(sample_sv(data, sgn, ch, dq[p] as int) <= sample_sv(
                    data,
                    sgn,
                    ch,
                    dq[0] as int,
                ));
            }
        }
    }
    // Strictly: nothing before the front matches its value.
    assert forall|o: int| t - w <= o < f implies sample_sv(data, sgn, ch, o) < fv by {
        assert(!contains_idx(dq, o)) by {
            if contains_idx(dq, o) {
                let p = choose|p: int| 0 <= p < dq.len() && (#[trigger] dq[p]) as int == o;
                assert((dq[0] as int) <= (dq[p] as int));
                assert(false);
            }
        }
        let p = choose|p: int|
            0 <= p < dq.len() && (#[trigger] dq[p]) as int > o && sample_sv(
                data,
                sgn,
                ch,
                dq[p] as int,
            ) > sample_sv(data, sgn, ch, o);
        if p > 0 {
            assert(sample_sv(data, sgn, ch, dq[p] as int) <= sample_sv(
                data,
                sgn,
                ch,
                dq[0] as int,
            ));
        }
    }
    if fv > cv || (fv == cv && f < t) {
        if f < t {
            assert(suppressed_by(data, sgn, t, j, ch, f));
        } else if f == t {
            assert(ch != j);
            assert(suppressed_by(data, sgn, t, j, ch, f));
        } else {
            assert(suppressed_by(data, sgn, t, j, ch, f));
        }
    } else {
        assert forall|o: int| t - w <= o <= t + w implies !suppressed_by(
            data,
            sgn,
            t,
            j,
            ch,
            o,
        ) by {
            assert(sample_sv(data, sgn, ch, o) <= fv);
            if o < t {
                assert(o < f || f <= o);
                if o < f {
                    assert(sample_sv(data, sgn, ch, o) < fv);
                }
            }
        }
    }
}

} // verus!
