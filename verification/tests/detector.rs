use qrs_detector::sampling::SamplingFrequencyExt;
use qrs_detector::{Differencer, QrsDetector};

/// A deterministic ECG-like pulse train: a small wandering baseline with a
/// tall spike at the start of every period.
fn synthetic_sample(i: usize) -> i64 {
    let phase = i % 400;
    let baseline = ((i * 37) % 11) as i64;
    if phase < 20 {
        baseline + 6000
    } else {
        baseline
    }
}

fn run_detections(detector: &mut QrsDetector, samples: &[i64]) -> Vec<u32> {
    let mut detections = Vec::new();
    for &sample in samples {
        if let Some(index) = detector.update(sample) {
            detections.push(index);
        }
    }
    detections
}

#[test]
fn test_m_threshold_absent_through_warm_up() {
    let fs = 100usize.sps();
    let mut detector = QrsDetector::new(fs, 30, 5).unwrap();
    // 3 s at 100 sps: the M component stays absent for 300 samples.
    for _ in 0..300 {
        detector.update(10);
        assert_eq!(detector.thresholds().m, None);
    }
    detector.update(10);
    let m = detector.thresholds().m;
    assert!(m.is_some());
    assert!(m.unwrap() >= 0);
}

#[test]
fn test_m_threshold_decays_monotonically() {
    let fs = 100usize.sps();
    let mut detector = QrsDetector::new(fs, 30, 5).unwrap();
    for _ in 0..301 {
        detector.update(1000);
    }
    // M was seeded at 0.6 of the warm-up maximum and now decays.
    let mut previous = detector.thresholds().m.unwrap();
    assert_eq!(previous, 600);
    for _ in 0..200 {
        detector.update(0);
        let current = detector.thresholds().m.unwrap();
        assert!(current <= previous);
        assert!(current >= 0);
        previous = current;
    }
    // After the 1 s decay the threshold rests at its constant floor: the
    // per-step decrement is 2 * 600 / (5 * 100) = 2, applied 100 times.
    assert_eq!(previous, 400);
}

#[test]
fn test_flat_line_never_detects() {
    let fs = 720usize.sps();
    let mut detector = QrsDetector::new(fs, 216, 36).unwrap();
    for _ in 0..10_000 {
        assert_eq!(detector.update(5), None);
    }
    let mut detector = QrsDetector::new(fs, 216, 36).unwrap();
    for _ in 0..10_000 {
        assert_eq!(detector.update(0), None);
    }
}

#[test]
fn test_detections_respect_refractory_window() {
    let fs = 720usize.sps();
    let mut detector = QrsDetector::new(fs, 216, 36).unwrap();
    let samples: Vec<i64> = (0..20_000).map(synthetic_sample).collect();
    let detections = run_detections(&mut detector, &samples);
    assert!(detections.len() >= 2);
    // No detection within 225 ms (162 samples at 720 sps) of the previous.
    for pair in detections.windows(2) {
        assert!(pair[1] - pair[0] > 162);
    }
}

#[test]
fn test_clear_reproduces_fresh_detection_sequence() {
    let fs = 720usize.sps();
    let samples: Vec<i64> = (0..15_000).map(synthetic_sample).collect();

    let mut fresh = QrsDetector::new(fs, 216, 36).unwrap();
    let expected = run_detections(&mut fresh, &samples);
    assert!(!expected.is_empty());

    let mut reused = QrsDetector::new(fs, 216, 36).unwrap();
    // Scramble its state with unrelated input, then reset.
    for i in 0..5_000 {
        reused.update(synthetic_sample(7 * i + 13));
    }
    reused.clear();
    let replayed = run_detections(&mut reused, &samples);
    assert_eq!(expected, replayed);
}

#[test]
fn test_pulse_train_detection_count_is_pinned() {
    // End-to-end golden value for the synthetic pulse train, through the
    // same front end the reference traces use: a 4-sample moving average
    // followed by the 2-sample absolute-difference stage.
    let fs = 720usize.sps();
    let mut detector = QrsDetector::new(fs, 216, 36).unwrap();
    let mut differencer = Differencer::new();
    let samples: Vec<i64> = (0..30_000).map(synthetic_sample).collect();

    let mut detections = 0usize;
    for window in samples.windows(4) {
        let average: i64 = window.iter().sum::<i64>() / 4;
        if let Some(filtered) = differencer.update(average) {
            if detector.update(filtered).is_some() {
                detections += 1;
            }
        }
    }
    assert_eq!(detections, 69);
}
