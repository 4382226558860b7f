//! Per-channel absolute detection thresholds.

use vstd::prelude::*;

verus! {

use crate::events::DetectError;
use crate::model::thresholds_wf;

/// One positive absolute threshold per channel, constant for a processing
/// run. A channel's samples cross on the positive side when they exceed
/// the threshold, and on the negative side when they fall below its
/// negation.
pub struct ThresholdSet {
    values: Vec<i64>,
}

impl View for ThresholdSet {
    type V = Seq<int>;

    closed spec fn view(&self) -> Seq<int> {
        Seq::new(self.values@.len(), |p: int| self.values@[p] as int)
    }
}

impl ThresholdSet {
    /// All thresholds are positive.
    pub open spec fn wf(&self) -> bool {
        thresholds_wf(self@)
    }

    /// Wraps explicit per-channel thresholds. A non-positive entry is an
    /// `InvalidArgument`.
    pub fn new(values: Vec<i64>) -> (r: Result<ThresholdSet, DetectError>)
        ensures
            (forall|p: int| 0 <= p < values@.len() ==> #[trigger] values@[p] >= 1) ==> {
                &&& r matches Ok(t)
                &&& t.wf()
                &&& t@.len() == values@.len()
                &&& forall|p: int| 0 <= p < values@.len() ==> #[trigger] t@[p] == values@[p]
            },
            (exists|p: int| 0 <= p < values@.len() && #[trigger] values@[p] < 1) ==> r == Err::<
                ThresholdSet,
                DetectError,
            >(DetectError::InvalidArgument),
    {
        let n = values.len();
        for p in 0..n
            invariant
                n == values@.len(),
                forall|q: int| 0 <= q < p ==> #[trigger] values@[q] >= 1,
        {
            if values[p] < 1 {
                return Err(DetectError::InvalidArgument);
            }
        }
        Ok(ThresholdSet { values })
    }

    /// Derives thresholds as injected per-channel noise levels scaled by a
    /// common multiplier. A non-positive noise level or multiplier, or a
    /// product beyond the representable range, is an `InvalidArgument`.
    pub fn from_noise(noise_levels: &Vec<i64>, multiplier: i64) -> (r: Result<
        ThresholdSet,
        DetectError,
    >)
        ensures
            multiplier >= 1 && (forall|p: int|
                0 <= p < noise_levels@.len() ==> 1 <= (#[trigger] noise_levels@[p]) * multiplier
                    && noise_levels@[p] * multiplier <= i64::MAX) ==> {
                &&& r matches Ok(t)
                &&& t.wf()
                &&& t@.len() == noise_levels@.len()
                &&& forall|p: int|
                    0 <= p < noise_levels@.len() ==> #[trigger] t@[p] == noise_levels@[p]
                        * multiplier
            },
            (multiplier < 1 || exists|p: int|
                0 <= p < noise_levels@.len() && !(1 <= (#[trigger] noise_levels@[p]) * multiplier
                    && noise_levels@[p] * multiplier <= i64::MAX)) ==> r == Err::<
                ThresholdSet,
                DetectError,
            >(DetectError::InvalidArgument),
    {
        if multiplier < 1 {
            return Err(DetectError::InvalidArgument);
        }
        let n = noise_levels.len();
        let mut values: Vec<i64> = Vec::new();
        for p in 0..n
            invariant
                n == noise_levels@.len(),
                multiplier >= 1,
                values@.len() == p,
                forall|q: int|
                    0 <= q < p ==> #[trigger] values@[q] == noise_levels@[q] * multiplier
                        && values@[q] >= 1,
        {
            let prod = noise_levels[p].checked_mul(multiplier);
            if let Some(v) = prod {
                if v < 1 {
                    return Err(DetectError::InvalidArgument);
                }
                values.push(v);
            } else {
                return Err(DetectError::InvalidArgument);
            }
        }
        let t = ThresholdSet { values };
        proof {
            assert forall|p: int| 0 <= p < t@.len() implies #[trigger] t@[p] >= 1 by {}
            assert forall|p: int|
                0 <= p < noise_levels@.len() implies 1 <= (#[trigger] noise_levels@[p])
                * multiplier && noise_levels@[p] * multiplier <= i64::MAX by {
                assert(values@[p] == noise_levels@[p] * multiplier);
            }
        }
        Ok(t)
    }

    pub fn len(&self) -> (n: usize)
        ensures
            n == self@.len(),
    {
        self.values.len()
    }

    /// The threshold of channel `j`.
    pub fn get(&self, j: usize) -> (v: i64)
        requires
            j < self@.len(),
        ensures
            v as int == self@[j as int],
    {
        self.values[j]
    }
}

} // verus!
