//! Component-level behavior: geometry, graph, thresholds, signal shape,
//! the raw-stream shape rule, sign tokens, and the event collector.

use peak_detection::events::{DetectError, PeakEvent, PeakSign};
use peak_detection::collector::PeakEventCollector;
use peak_detection::graph::{ChannelGeometry, NeighborGraph};
use peak_detection::signal::{Signal, chunk_rows};
use peak_detection::threshold::ThresholdSet;

#[test]
fn graph_from_geometry_is_reflexive_and_symmetric() {
    let coords: Vec<(i32, i32)> = vec![(0, 0), (0, 40), (30, 40), (1000, 1000)];
    let n = coords.len();
    let geometry = ChannelGeometry::new(coords);
    for radius in [0i64, 10, 40, 50, 2000] {
        let graph = NeighborGraph::from_geometry(&geometry, radius).unwrap();
        assert_eq!(graph.channel_count(), n);
        for i in 0..n {
            assert!(graph.is_neighbor(i, i));
            for j in 0..n {
                assert_eq!(graph.is_neighbor(i, j), graph.is_neighbor(j, i));
            }
        }
    }
}

#[test]
fn graph_from_geometry_distances() {
    // (0,0)-(0,40): 40 apart; (0,40)-(30,40): 30; (0,0)-(30,40): 50.
    let geometry = ChannelGeometry::new(vec![(0, 0), (0, 40), (30, 40)]);
    let graph = NeighborGraph::from_geometry(&geometry, 40).unwrap();
    assert!(graph.is_neighbor(0, 1));
    assert!(graph.is_neighbor(1, 2));
    assert!(!graph.is_neighbor(0, 2));
    let tight = NeighborGraph::from_geometry(&geometry, 39).unwrap();
    assert!(!tight.is_neighbor(0, 1));
    assert!(tight.is_neighbor(1, 2));
    let wide = NeighborGraph::from_geometry(&geometry, 50).unwrap();
    assert!(wide.is_neighbor(0, 2));
}

#[test]
fn graph_rejects_negative_radius() {
    let geometry = ChannelGeometry::new(vec![(0, 0)]);
    assert_eq!(
        NeighborGraph::from_geometry(&geometry, -5).err(),
        Some(DetectError::InvalidArgument)
    );
}

#[test]
fn graph_mask_validation() {
    // not square
    assert_eq!(
        NeighborGraph::from_mask(vec![vec![true, true], vec![true]]).err(),
        Some(DetectError::InvalidArgument)
    );
    // not reflexive
    assert_eq!(
        NeighborGraph::from_mask(vec![vec![false, true], vec![true, true]]).err(),
        Some(DetectError::InvalidArgument)
    );
    // not symmetric
    assert_eq!(
        NeighborGraph::from_mask(vec![vec![true, true], vec![false, true]]).err(),
        Some(DetectError::InvalidArgument)
    );
    // valid
    let graph = NeighborGraph::from_mask(vec![vec![true, false], vec![false, true]]).unwrap();
    assert_eq!(graph.channel_count(), 2);
    assert!(!graph.is_neighbor(0, 1));
}

#[test]
fn thresholds_must_be_positive() {
    let t = ThresholdSet::new(vec![3, 1, 250]).unwrap();
    assert_eq!(t.len(), 3);
    assert_eq!(t.get(0), 3);
    assert_eq!(t.get(2), 250);
    assert_eq!(
        ThresholdSet::new(vec![3, 0]).err(),
        Some(DetectError::InvalidArgument)
    );
    assert_eq!(
        ThresholdSet::new(vec![-2]).err(),
        Some(DetectError::InvalidArgument)
    );
}

#[test]
fn thresholds_from_noise_scale() {
    // noise level times multiplier, per channel: 12 * 5 = 60.
    let t = ThresholdSet::from_noise(&vec![12, 7, 1], 5).unwrap();
    assert_eq!(t.len(), 3);
    assert_eq!(t.get(0), 60);
    assert_eq!(t.get(1), 35);
    assert_eq!(t.get(2), 5);
    assert_eq!(
        ThresholdSet::from_noise(&vec![12], 0).err(),
        Some(DetectError::InvalidArgument)
    );
    assert_eq!(
        ThresholdSet::from_noise(&vec![0], 5).err(),
        Some(DetectError::InvalidArgument)
    );
    // a product beyond the representable range is rejected, not wrapped
    assert_eq!(
        ThresholdSet::from_noise(&vec![i64::MAX / 2], 3).err(),
        Some(DetectError::InvalidArgument)
    );
}

#[test]
fn signal_shape_rules() {
    let s = Signal::from_flat(vec![1, 2, 3, 4, 5, 6], 3).unwrap();
    assert_eq!(s.sample_count(), 2);
    assert_eq!(s.channel_count(), 3);
    assert_eq!(s.get(0, 0), 1);
    assert_eq!(s.get(0, 2), 3);
    assert_eq!(s.get(1, 1), 5);
    assert_eq!(
        Signal::from_flat(vec![1, 2, 3], 2).err(),
        Some(DetectError::DataShapeMismatch)
    );
    assert_eq!(
        Signal::from_flat(vec![1], 0).err(),
        Some(DetectError::InvalidArgument)
    );
}

#[test]
fn chunk_rows_shape_rule() {
    // 4 bytes per sample, channels interleaved: rows = bytes / (4 * C).
    assert_eq!(chunk_rows(200, 5), Ok(10));
    assert_eq!(chunk_rows(0, 5), Ok(0));
    // a trailing fragment must be signaled, never truncated silently
    assert_eq!(chunk_rows(201, 5), Err(DetectError::DataShapeMismatch));
    assert_eq!(chunk_rows(19, 5), Err(DetectError::DataShapeMismatch));
    assert_eq!(chunk_rows(8, 0), Err(DetectError::InvalidArgument));
}

#[test]
fn sign_tokens() {
    assert_eq!(PeakSign::from_token("pos"), Ok(PeakSign::Positive));
    assert_eq!(PeakSign::from_token("neg"), Ok(PeakSign::Negative));
    assert_eq!(PeakSign::from_token("both"), Ok(PeakSign::Both));
    assert_eq!(
        PeakSign::from_token("up"),
        Err(DetectError::InvalidArgument)
    );
    assert_eq!(
        PeakSign::from_token("POS"),
        Err(DetectError::InvalidArgument)
    );
    assert_eq!(PeakSign::from_token(""), Err(DetectError::InvalidArgument));
}

#[test]
fn collector_accumulates_in_order() {
    let mut col = PeakEventCollector::new();
    assert_eq!(col.len(), 0);
    col.push(PeakEvent { sample: 1, channel: 2 });
    col.push(PeakEvent { sample: 1, channel: 5 });
    col.push(PeakEvent { sample: 3, channel: 0 });
    assert_eq!(col.len(), 3);
    assert_eq!(col.get(1), PeakEvent { sample: 1, channel: 5 });
    let events = col.into_events();
    assert_eq!(
        events,
        vec![
            PeakEvent { sample: 1, channel: 2 },
            PeakEvent { sample: 1, channel: 5 },
            PeakEvent { sample: 3, channel: 0 },
        ]
    );
}

#[test]
fn error_kinds_are_distinct() {
    assert_ne!(DetectError::InvalidArgument, DetectError::IoFailure);
    assert_ne!(DetectError::InvalidArgument, DetectError::DataShapeMismatch);
    assert_ne!(DetectError::IoFailure, DetectError::DataShapeMismatch);
}
