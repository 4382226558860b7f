//! Output events, sign selection, and the error taxonomy.

use vstd::prelude::*;

verus! {

use vstd::string::StrSliceExecFns;

/// Which polarity of threshold crossings the engines look for.
///
/// `Both` runs the positive and the negative detection independently and
/// unions the results; neither sign considers the other's candidates.
#[derive(Clone, Copy, Debug, PartialEq, Eq, Structural)]
pub enum PeakSign {
    Positive,
    Negative,
    Both,
}

/// The error taxonomy. The engines never silently substitute defaults or
/// drop malformed input: every failure is surfaced as one of these three
/// distinct kinds.
///
/// * `InvalidArgument`: unknown sign token; threshold-vector length not equal
///   to the channel count; adjacency not square, symmetric and reflexive;
///   negative radius; a matrix whose row length does not match its channel
///   count.
/// * `IoFailure`: a collaborator's read or open error; produced only at the
///   I/O boundary around this crate, never by the engines themselves.
/// * `DataShapeMismatch`: a trailing byte count in a raw sample stream that
///   is not a multiple of the per-sample stride.
#[derive(Clone, Copy, Debug, PartialEq, Eq, Structural)]
pub enum DetectError {
    InvalidArgument,
    IoFailure,
    DataShapeMismatch,
}

/// One detected peak: a sample index and the channel it occurred on.
#[derive(Clone, Copy, Debug, PartialEq, Eq, Structural)]
pub struct PeakEvent {
    pub sample: usize,
    pub channel: usize,
}

impl View for PeakEvent {
    type V = (int, int);

    open spec fn view(&self) -> (int, int) {
        (self.sample as int, self.channel as int)
    }
}

impl DeepView for PeakEvent {
    type V = (int, int);

    open spec fn deep_view(&self) -> (int, int) {
        self@
    }
}

/// Strict ordering of events: ascending by sample index, ties broken
/// ascending by channel index.
pub open spec fn event_lt(a: (int, int), b: (int, int)) -> bool {
    a.0 < b.0 || (a.0 == b.0 && a.1 < b.1)
}

/// A sequence of events sorted strictly by `event_lt` (row-major order,
/// hence also free of duplicates).
pub open spec fn events_sorted(s: Seq<(int, int)>) -> bool {
    forall|p: int, q: int| 0 <= p < q < s.len() ==> event_lt(s[p], s[q])
}

impl PeakSign {
    /// Parses the textual sign selector used at the recording boundary.
    /// An unrecognized token is an `InvalidArgument`, never a default.
    pub fn from_token(token: &str) -> (r: Result<PeakSign, DetectError>)
        ensures
            token@ == "pos"@ ==> r == Ok::<PeakSign, DetectError>(PeakSign::Positive),
            token@ == "neg"@ ==> r == Ok::<PeakSign, DetectError>(PeakSign::Negative),
            token@ == "both"@ ==> r == Ok::<PeakSign, DetectError>(PeakSign::Both),
            token@ != "pos"@ && token@ != "neg"@ && token@ != "both"@ ==> r == Err::<
                PeakSign,
                DetectError,
            >(DetectError::InvalidArgument),
    {
        proof {
            reveal_strlit("pos");
            reveal_strlit("neg");
            reveal_strlit("both");
        }
        let n = token.unicode_len();
        if n == 3 {
            let c0 = token.get_char(0);
            let c1 = token.get_char(1);
            let c2 = token.get_char(2);
            if c0 == 'p' && c1 == 'o' && c2 == 's' {
                proof {
                    assert(token@ =~= "pos"@);
                }
                Ok(PeakSign::Positive)
            } else if c0 == 'n' && c1 == 'e' && c2 == 'g' {
                proof {
                    assert(token@ =~= "neg"@);
                }
                Ok(PeakSign::Negative)
            } else {
                Err(DetectError::InvalidArgument)
            }
        } else if n == 4 {
            let c0 = token.get_char(0);
            let c1 = token.get_char(1);
            let c2 = token.get_char(2);
            let c3 = token.get_char(3);
            if c0 == 'b' && c1 == 'o' && c2 == 't' && c3 == 'h' {
                proof {
                    assert(token@ =~= "both"@);
                }
                Ok(PeakSign::Both)
            } else {
                Err(DetectError::InvalidArgument)
            }
        } else {
            Err(DetectError::InvalidArgument)
        }
    }
}

} // verus!
