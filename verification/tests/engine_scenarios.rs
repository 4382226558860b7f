//! End-to-end scenarios for both exclusivity engines.

use peak_detection::batch::detect_peaks_batch;
use peak_detection::events::{DetectError, PeakEvent, PeakSign};
use peak_detection::graph::NeighborGraph;
use peak_detection::pipeline::detect_peaks_locally_exclusive;
use peak_detection::signal::Signal;
use peak_detection::streaming::detect_peaks_streaming;
use peak_detection::threshold::ThresholdSet;
use peak_detection::graph::ChannelGeometry;

fn mk_signal(rows: &[&[i64]]) -> Signal {
    let channels = rows[0].len();
    let mut flat: Vec<i64> = Vec::new();
    for row in rows {
        assert_eq!(row.len(), channels);
        flat.extend_from_slice(row);
    }
    Signal::from_flat(flat, channels).unwrap()
}

fn mk_graph(mask: &[&[bool]]) -> NeighborGraph {
    let rows: Vec<Vec<bool>> = mask.iter().map(|r| r.to_vec()).collect();
    NeighborGraph::from_mask(rows).unwrap()
}

fn mk_thresholds(values: &[i64]) -> ThresholdSet {
    ThresholdSet::new(values.to_vec()).unwrap()
}

fn ev(sample: usize, channel: usize) -> PeakEvent {
    PeakEvent { sample, channel }
}

fn run_both_engines(
    signal: &Signal,
    graph: &NeighborGraph,
    thresholds: &ThresholdSet,
    w: usize,
    sign: PeakSign,
) -> Vec<PeakEvent> {
    let batch = detect_peaks_batch(signal, graph, thresholds, w, sign).unwrap();
    let streaming = detect_peaks_streaming(signal, graph, thresholds, w, sign).unwrap();
    assert_eq!(batch, streaming);
    batch
}

#[test]
fn scenario_single_channel_both_signs() {
    // One channel, W = 2, threshold 1, a positive peak at sample 2 and a
    // negative one at sample 6; nothing else crosses.
    let signal = mk_signal(&[&[0], &[0], &[5], &[0], &[0], &[0], &[-6], &[0], &[0]]);
    let graph = mk_graph(&[&[true]]);
    let thresholds = mk_thresholds(&[1]);
    let events = run_both_engines(&signal, &graph, &thresholds, 2, PeakSign::Both);
    assert_eq!(events, vec![ev(2, 0), ev(6, 0)]);
}

#[test]
fn scenario_stronger_neighbor_suppresses() {
    // Two mutually neighboring channels, W = 1: channel 0's candidate at
    // sample 1 is suppressed because channel 1 reaches 4 there.
    let signal = mk_signal(&[&[0, 0], &[3, 4], &[0, 0]]);
    let graph = mk_graph(&[&[true, true], &[true, true]]);
    let thresholds = mk_thresholds(&[1, 1]);
    let events = run_both_engines(&signal, &graph, &thresholds, 1, PeakSign::Positive);
    assert_eq!(events, vec![ev(1, 1)]);
}

#[test]
fn boundary_window_swallows_chunk() {
    // T <= 2W leaves no sample with a full window on both sides: the
    // result is empty, not an error.
    let signal = mk_signal(&[&[100], &[100], &[100], &[100]]);
    let graph = mk_graph(&[&[true]]);
    let thresholds = mk_thresholds(&[1]);
    for w in [2usize, 3, 50] {
        for sign in [PeakSign::Positive, PeakSign::Negative, PeakSign::Both] {
            let events = run_both_engines(&signal, &graph, &thresholds, w, sign);
            assert_eq!(events, vec![]);
        }
    }
}

#[test]
fn empty_chunk_is_empty_result() {
    let signal = Signal::from_flat(vec![], 3).unwrap();
    let graph = mk_graph(&[
        &[true, false, false],
        &[false, true, false],
        &[false, false, true],
    ]);
    let thresholds = mk_thresholds(&[1, 1, 1]);
    let events = run_both_engines(&signal, &graph, &thresholds, 0, PeakSign::Both);
    assert_eq!(events, vec![]);
}

#[test]
fn zero_window_same_sample_spatial_dominance() {
    // W = 0 still enforces same-sample spatial dominance across
    // neighbors: the weaker crossing loses, the stronger survives.
    let signal = mk_signal(&[&[2, 3], &[0, 0]]);
    let graph = mk_graph(&[&[true, true], &[true, true]]);
    let thresholds = mk_thresholds(&[1, 1]);
    let events = run_both_engines(&signal, &graph, &thresholds, 0, PeakSign::Positive);
    assert_eq!(events, vec![ev(0, 1)]);
}

#[test]
fn equal_neighbors_both_survive() {
    // Same-sample spatial dominance is non-strict: two equal neighboring
    // crossings both survive.
    let signal = mk_signal(&[&[0, 0], &[3, 3], &[0, 0]]);
    let graph = mk_graph(&[&[true, true], &[true, true]]);
    let thresholds = mk_thresholds(&[1, 1]);
    let events = run_both_engines(&signal, &graph, &thresholds, 1, PeakSign::Positive);
    assert_eq!(events, vec![ev(1, 0), ev(1, 1)]);
}

#[test]
fn plateau_keeps_earliest() {
    // Temporal dominance is strict over the past and non-strict over the
    // future: of two equal in-window crossings, the earlier survives.
    let signal = mk_signal(&[&[0], &[4], &[4], &[0]]);
    let graph = mk_graph(&[&[true]]);
    let thresholds = mk_thresholds(&[1]);
    let events = run_both_engines(&signal, &graph, &thresholds, 1, PeakSign::Positive);
    assert_eq!(events, vec![ev(1, 0)]);
}

#[test]
fn crossing_near_chunk_end_is_not_finalized() {
    // A crossing within W samples of either chunk edge has no full
    // window on both sides and is never emitted.
    let graph = mk_graph(&[&[true]]);
    let thresholds = mk_thresholds(&[1]);
    let at_end = mk_signal(&[&[0], &[0], &[0], &[0], &[5]]);
    assert_eq!(run_both_engines(&at_end, &graph, &thresholds, 1, PeakSign::Both), vec![]);
    let at_start = mk_signal(&[&[5], &[0], &[0], &[0], &[0]]);
    assert_eq!(run_both_engines(&at_start, &graph, &thresholds, 1, PeakSign::Both), vec![]);
    let inside = mk_signal(&[&[0], &[0], &[0], &[5], &[0]]);
    assert_eq!(
        run_both_engines(&inside, &graph, &thresholds, 1, PeakSign::Both),
        vec![ev(3, 0)]
    );
}

#[test]
fn sign_symmetry_on_negated_signal() {
    // Negative detection on the signal equals positive detection on the
    // channel-wise negation, thresholds held fixed.
    let rows: [&[i64]; 7] = [&[0, 2], &[-5, 0], &[0, -3], &[4, 0], &[0, 6], &[-2, -7], &[0, 0]];
    let negated: Vec<Vec<i64>> = rows.iter().map(|r| r.iter().map(|v| -v).collect()).collect();
    let signal = mk_signal(&rows);
    let neg_rows: Vec<&[i64]> = negated.iter().map(|r| r.as_slice()).collect();
    let signal_neg = mk_signal(&neg_rows);
    let graph = mk_graph(&[&[true, true], &[true, true]]);
    let thresholds = mk_thresholds(&[1, 2]);
    for w in 0..3usize {
        let on_original = run_both_engines(&signal, &graph, &thresholds, w, PeakSign::Negative);
        let on_negated = run_both_engines(&signal_neg, &graph, &thresholds, w, PeakSign::Positive);
        assert_eq!(on_original, on_negated);
    }
}

#[test]
fn both_is_union_of_independent_passes() {
    let rows: [&[i64]; 8] = [
        &[0, 0],
        &[5, -4],
        &[0, 0],
        &[-6, 0],
        &[0, 7],
        &[0, 0],
        &[3, -8],
        &[0, 0],
    ];
    let signal = mk_signal(&rows);
    let graph = mk_graph(&[&[true, true], &[true, true]]);
    let thresholds = mk_thresholds(&[1, 1]);
    for w in 0..3usize {
        let pos = run_both_engines(&signal, &graph, &thresholds, w, PeakSign::Positive);
        let neg = run_both_engines(&signal, &graph, &thresholds, w, PeakSign::Negative);
        let both = run_both_engines(&signal, &graph, &thresholds, w, PeakSign::Both);
        let mut merged: Vec<PeakEvent> = pos.clone();
        merged.extend(neg.iter().cloned());
        merged.sort_by_key(|e| (e.sample, e.channel));
        assert_eq!(both, merged);
    }
}

#[test]
fn degenerate_graph_reduces_to_1d_per_channel() {
    // With every channel neighboring only itself, the result is the
    // classical per-channel sliding-window finder: each channel's peaks
    // are independent of the other's values.
    let signal = mk_signal(&[&[0, 9], &[5, 9], &[0, 9], &[0, 2], &[7, 2]]);
    let graph = mk_graph(&[&[true, false], &[false, true]]);
    let thresholds = mk_thresholds(&[1, 1]);
    let events = run_both_engines(&signal, &graph, &thresholds, 1, PeakSign::Positive);
    // channel 0: lone maximum at sample 1 (sample 4 has no right window);
    // channel 1: the 9-plateau begins before the center range, so sample 1
    // is beaten by sample 0 and sample 2 by sample 1; nothing survives.
    assert_eq!(events, vec![ev(1, 0)]);
}

#[test]
fn dimension_mismatch_is_invalid_argument() {
    let signal = mk_signal(&[&[0, 0], &[0, 0]]);
    let graph_small = mk_graph(&[&[true]]);
    let graph_fit = mk_graph(&[&[true, true], &[true, true]]);
    let thresholds_fit = mk_thresholds(&[1, 1]);
    let thresholds_long = mk_thresholds(&[1, 1, 1]);
    assert_eq!(
        detect_peaks_batch(&signal, &graph_small, &thresholds_fit, 0, PeakSign::Both),
        Err(DetectError::InvalidArgument)
    );
    assert_eq!(
        detect_peaks_streaming(&signal, &graph_fit, &thresholds_long, 0, PeakSign::Both),
        Err(DetectError::InvalidArgument)
    );
}

#[test]
fn engines_agree_on_generated_inputs() {
    // A deterministic battery: pseudo-random signals, graphs, thresholds
    // and windows; the two engines must agree exactly, for every sign.
    let mut state: u64 = 0x2545F4914F6CDD1D;
    let mut next = move || {
        state ^= state << 13;
        state ^= state >> 7;
        state ^= state << 17;
        state
    };
    for round in 0..60 {
        let channels = 1 + (next() % 4) as usize;
        let samples = (next() % 14) as usize;
        let w = (next() % 4) as usize;
        let mut flat: Vec<i64> = Vec::new();
        for _ in 0..samples * channels {
            flat.push((next() % 17) as i64 - 8);
        }
        let signal = Signal::from_flat(flat, channels).unwrap();
        let mut mask: Vec<Vec<bool>> = vec![vec![false; channels]; channels];
        for i in 0..channels {
            mask[i][i] = true;
            for j in 0..i {
                let linked = next() % 2 == 0;
                mask[i][j] = linked;
                mask[j][i] = linked;
            }
        }
        let graph = NeighborGraph::from_mask(mask).unwrap();
        let mut thr: Vec<i64> = Vec::new();
        for _ in 0..channels {
            thr.push(1 + (next() % 4) as i64);
        }
        let thresholds = ThresholdSet::new(thr).unwrap();
        for sign in [PeakSign::Positive, PeakSign::Negative, PeakSign::Both] {
            let batch = detect_peaks_batch(&signal, &graph, &thresholds, w, sign).unwrap();
            let streaming = detect_peaks_streaming(&signal, &graph, &thresholds, w, sign).unwrap();
            assert_eq!(batch, streaming, "round {round}");
            // the output ordering invariant
            for pair in batch.windows(2) {
                assert!(
                    pair[0].sample < pair[1].sample
                        || (pair[0].sample == pair[1].sample && pair[0].channel < pair[1].channel)
                );
            }
        }
    }
}

#[test]
fn pipeline_from_geometry() {
    // Two channels 30 apart, radius 50: mutually neighboring, so the
    // stronger same-sample crossing wins, as in the direct-graph scenario.
    let signal = mk_signal(&[&[0, 0], &[3, 4], &[0, 0]]);
    let geometry = ChannelGeometry::new(vec![(0, 0), (0, 30)]);
    let thresholds = mk_thresholds(&[1, 1]);
    let events =
        detect_peaks_locally_exclusive(&signal, &geometry, 50, &thresholds, 1, PeakSign::Positive)
            .unwrap();
    assert_eq!(events, vec![ev(1, 1)]);

    // radius 20: the channels are independent and both crossings survive.
    let events =
        detect_peaks_locally_exclusive(&signal, &geometry, 20, &thresholds, 1, PeakSign::Positive)
            .unwrap();
    assert_eq!(events, vec![ev(1, 0), ev(1, 1)]);

    // a negative radius is rejected.
    assert_eq!(
        detect_peaks_locally_exclusive(&signal, &geometry, -1, &thresholds, 1, PeakSign::Positive),
        Err(DetectError::InvalidArgument)
    );
}
