//! Sign-directed sample comparisons.
//!
//! The detection passes never multiply a sample by the sign factor at run
//! time: the pass for negative peaks simply reverses its comparisons, so
//! no arithmetic can overflow.

use vstd::prelude::*;

verus! {

use crate::events::PeakSign;
use crate::model::{sgn_of, sval};

/// Whether `a` is strictly larger than `b` as seen by the pass for `sign`.
pub fn signed_gt(sign: PeakSign, a: i64, b: i64) -> (r: bool)
    requires
        sign != PeakSign::Both,
    ensures
        r == (sval(sgn_of(sign), a as int) > sval(sgn_of(sign), b as int)),
{
    match sign {
        PeakSign::Positive => a > b,
        _ => a < b,
    }
}

/// Whether `v` crosses the (positive) threshold `thr` on the side selected
/// by `sign`: above `thr` for the positive pass, below `-thr` for the
/// negative pass.
pub fn crosses_threshold(sign: PeakSign, v: i64, thr: i64) -> (r: bool)
    requires
        sign != PeakSign::Both,
        thr >= 1,
    ensures
        r == (sval(sgn_of(sign), v as int) > thr as int),
{
    match sign {
        PeakSign::Positive => v > thr,
        _ => v < -thr,
    }
}

} // verus!
