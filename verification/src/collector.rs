//! Accumulation and ordering of output events.

use vstd::prelude::*;

verus! {

use crate::events::{PeakEvent, event_lt, events_sorted};
use crate::model::{
    events_of_mask,
    lemma_cell_coords_unique,
    lemma_cell_order_implies_event_lt,
    lemma_events_of_mask_cells,
};

/// The deep view of an event vector indexes into the events' views.
pub proof fn lemma_events_deep_view(v: &Vec<PeakEvent>)
    ensures
        v.deep_view().len() == v@.len(),
        forall|p: int| 0 <= p < v@.len() ==> #[trigger] v.deep_view()[p] == v@[p]@,
{
    assert forall|p: int| 0 <= p < v@.len() implies #[trigger] v.deep_view()[p] == v@[p]@ by {}
}

/// Accumulates peak events and guarantees the output ordering invariant:
/// ascending by sample index, ties broken ascending by channel index.
/// Events are fed in detection order, which is exactly that order.
pub struct PeakEventCollector {
    events: Vec<PeakEvent>,
}

impl View for PeakEventCollector {
    type V = Seq<(int, int)>;

    closed spec fn view(&self) -> Seq<(int, int)> {
        self.events.deep_view()
    }
}

impl PeakEventCollector {
    /// The accumulated events are strictly sorted.
    pub open spec fn wf(&self) -> bool {
        events_sorted(self@)
    }

    pub fn new() -> (c: PeakEventCollector)
        ensures
            c@ == Seq::<(int, int)>::empty(),
            c.wf(),
    {
        let c = PeakEventCollector { events: Vec::new() };
        proof {
            assert(c@ =~= Seq::<(int, int)>::empty());
        }
        c
    }

    /// Appends an event that follows everything collected so far in the
    /// output order, preserving sortedness.
    pub fn push(&mut self, e: PeakEvent)
        requires
            old(self).wf(),
            old(self)@.len() > 0 ==> event_lt(old(self)@[old(self)@.len() - 1], e@),
        ensures
            final(self)@ == old(self)@.push(e@),
            final(self).wf(),
    {
        proof {
            lemma_events_deep_view(&self.events);
        }
        self.events.push(e);
        proof {
            lemma_events_deep_view(&self.events);
            assert(self@ =~= old(self)@.push(e@));
            let s = self@;
            assert forall|p: int, q: int| 0 <= p < q < s.len() implies event_lt(s[p], s[q]) by {
                if q == s.len() - 1 && p < q {
                    let olds = old(self)@;
                    if p < olds.len() - 1 {
                        assert(event_lt(olds[p], olds[olds.len() - 1]));
                    }
                }
            }
        }
    }

    pub fn len(&self) -> (n: usize)
        ensures
            n == self@.len(),
    {
        proof {
            lemma_events_deep_view(&self.events);
        }
        self.events.len()
    }

    pub fn get(&self, p: usize) -> (e: PeakEvent)
        requires
            p < self@.len(),
        ensures
            e@ == self@[p as int],
    {
        proof {
            lemma_events_deep_view(&self.events);
        }
        self.events[p]
    }

    /// Hands the ordered events out.
    pub fn into_events(self) -> (events: Vec<PeakEvent>)
        ensures
            events.deep_view() == self@,
    {
        self.events
    }
}

/// Walks a boolean mask in row-major order and collects the marked cells
/// as ordered peak events.
#[verifier::loop_isolation(false)]
pub fn collect_events(mask: &Vec<Vec<bool>>, c: usize) -> (events: Vec<PeakEvent>)
    requires
        forall|t: int|
            0 <= t < mask.deep_view().len() ==> (#[trigger] mask.deep_view()[t]).len() == c,
    ensures
        events.deep_view() == events_of_mask(
            mask.deep_view(),
            c as nat,
            (mask.deep_view().len() * c) as nat,
        ),
{
    let ghost m = mask.deep_view();
    let tn = mask.len();
    proof {
        assert(m.len() == tn);
    }
    let mut col = PeakEventCollector::new();
    proof {
        assert(col@ == events_of_mask(m, c as nat, (0 * c) as nat));
    }
    for t in 0..tn
        invariant
            col@ == events_of_mask(m, c as nat, (t * c) as nat),
            col.wf(),
    {
        proof {
            assert(mask.deep_view()[t as int] == mask@[t as int]@);
        }
        for j in 0..c
            invariant
                col@ == events_of_mask(m, c as nat, (t * c + j) as nat),
                col.wf(),
        {
            let ghost n0 = (t * c + j) as nat;
            proof {
                lemma_cell_coords_unique(t as int, j as int, c as int);
                assert(((n0 + 1) - 1) as int / (c as int) == t as int);
                assert(((n0 + 1) - 1) as int % (c as int) == j as int);
            }
            if mask[t][j] {
                proof {
                    lemma_events_of_mask_cells(m, c as nat, n0);
                    if col@.len() > 0 {
                        lemma_cell_order_implies_event_lt(
                            col@[col@.len() - 1],
                            (t as int, j as int),
                            c as nat,
                        );
                    }
                }
                col.push(PeakEvent { sample: t, channel: j });
                proof {
                    assert(events_of_mask(m, c as nat, (n0 + 1) as nat) == events_of_mask(
                        m,
                        c as nat,
                        n0,
                    ).push((t as int, j as int)));
                }
            } else {
                proof {
                    assert(events_of_mask(m, c as nat, (n0 + 1) as nat) == events_of_mask(
                        m,
                        c as nat,
                        n0,
                    ));
                }
            }
        }
        proof {
            assert((t + 1) * c == t * c + c) by (nonlinear_arith);
        }
    }
    col.into_events()
}

} // verus!
