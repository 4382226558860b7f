//! The session pipeline: geometry to neighbor graph to detection.

use vstd::prelude::*;

verus! {

use crate::batch::dims_ok;
use crate::events::{DetectError, PeakEvent, PeakSign};
use crate::graph::{ChannelGeometry, NeighborGraph, neighbor_rel};
use crate::model::peak_events;
use crate::signal::Signal;
use crate::streaming::detect_peaks_streaming;
use crate::threshold::ThresholdSet;

/// The adjacency a geometry and radius induce.
pub open spec fn geometry_adjacency(coords: Seq<(int, int)>, radius: int) -> Seq<Seq<bool>> {
    Seq::new(
        coords.len(),
        |i: int| Seq::new(coords.len(), |j: int| neighbor_rel(coords, radius, i, j)),
    )
}

/// Detects locally exclusive peaks of one chunk directly from channel
/// geometry: builds the neighbor graph for the given radius, then runs
/// the streaming engine. A negative radius is an `InvalidArgument`, as is
/// a geometry or threshold vector that does not cover exactly the
/// signal's channels.
pub fn detect_peaks_locally_exclusive(
    signal: &Signal,
    geometry: &ChannelGeometry,
    radius: i64,
    thresholds: &ThresholdSet,
    exclusion_window: usize,
    sign: PeakSign,
) -> (r: Result<Vec<PeakEvent>, DetectError>)
    requires
        signal.wf(),
        thresholds.wf(),
    ensures
        radius < 0 ==> r == Err::<Vec<PeakEvent>, DetectError>(DetectError::InvalidArgument),
        radius >= 0 && (geometry@.len() != signal.spec_channels() || thresholds@.len()
            != signal.spec_channels()) ==> r == Err::<Vec<PeakEvent>, DetectError>(
            DetectError::InvalidArgument,
        ),
        radius >= 0 && geometry@.len() == signal.spec_channels() && thresholds@.len()
            == signal.spec_channels() ==> {
            &&& r matches Ok(events)
            &&& events.deep_view() == peak_events(
                signal@,
                geometry_adjacency(geometry@, radius as int),
                thresholds@,
                exclusion_window as int,
                sign,
            )
        },
{
    let graph = match NeighborGraph::from_geometry(geometry, radius) {
        Ok(g) => g,
        Err(e) => {
            return Err(e);
        },
    };
    let r = detect_peaks_streaming(signal, &graph, thresholds, exclusion_window, sign);
    proof {
        if dims_ok(signal, &graph, thresholds) {
            assert(graph@ =~~= geometry_adjacency(geometry@, radius as int));
        }
    }
    r
}

} // verus!
