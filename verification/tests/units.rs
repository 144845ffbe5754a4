use qrs_detector::sampling::SamplingFrequencyExt;
use qrs_detector::{Differencer, DetectorError, QrsDetector, Thresholds, MAX_AMPLITUDE};

#[test]
fn test_sampling_conversions() {
    let fs = 500usize.sps();
    assert_eq!(fs.raw(), 500);
    assert_eq!(fs.ms_to_samples(500), 250);
    assert_eq!(fs.ms_to_samples(2500), 1250);
    assert_eq!(fs.s_to_samples(2), 1000);
    assert_eq!(fs.samples_to_ms(250), 500);
    assert_eq!(fs.samples_to_s(1500), 3);
    // Sample counts round down.
    let fs = 720usize.sps();
    assert_eq!(fs.ms_to_samples(300), 216);
    assert_eq!(fs.ms_to_samples(50), 36);
    assert_eq!(fs.ms_to_samples(225), 162);
    assert_eq!(fs.ms_to_samples(1), 0);
}

#[test]
fn test_kilosamples_builder() {
    assert_eq!(1usize.ksps().raw(), 1000);
    assert_eq!(720usize.sps().raw(), 720);
}

#[test]
fn test_differencer_two_sample_history() {
    let mut d = Differencer::new();
    // No output until two earlier samples are held.
    assert_eq!(d.update(5), None);
    assert_eq!(d.update(3), None);
    // Thereafter: absolute change against the sample two positions back.
    assert_eq!(d.update(9), Some(4));
    assert_eq!(d.update(3), Some(0));
    assert_eq!(d.update(-2), Some(11));
    d.clear();
    assert_eq!(d.update(100), None);
    assert_eq!(d.update(50), None);
    assert_eq!(d.update(0), Some(100));
}

#[test]
fn test_thresholds_total_requires_m_and_f() {
    let t = Thresholds { m: Some(5), f: Some(7), r: -2 };
    assert_eq!(t.total(), Some(10));
    let t = Thresholds { m: None, f: Some(7), r: -2 };
    assert_eq!(t.total(), None);
    let t = Thresholds { m: Some(5), f: None, r: 0 };
    assert_eq!(t.total(), None);
    let t = Thresholds { m: Some(0), f: Some(0), r: 0 };
    assert_eq!(t.total(), Some(0));
}

#[test]
fn test_construction_validates_buffer_sizes() {
    let fs = 720usize.sps();
    // 300 ms and 50 ms at 720 sps span 216 and 36 samples.
    assert!(QrsDetector::new(fs, 216, 36).is_ok());
    assert_eq!(
        QrsDetector::new(fs, 215, 36).err(),
        Some(DetectorError::InvalidBufferSize)
    );
    assert_eq!(
        QrsDetector::new(fs, 216, 37).err(),
        Some(DetectorError::InvalidBufferSize)
    );
    assert_eq!(
        QrsDetector::new(fs, 0, 0).err(),
        Some(DetectorError::InvalidBufferSize)
    );
}

#[test]
fn test_construction_from_caller_storage() {
    let fs = 500usize.sps();
    assert!(QrsDetector::new_from(fs, vec![0; 150], vec![0; 25]).is_ok());
    assert_eq!(
        QrsDetector::new_from(fs, vec![0; 149], vec![0; 25]).err(),
        Some(DetectorError::InvalidBufferSize)
    );
    assert_eq!(
        QrsDetector::new_from(fs, Vec::new(), Vec::new()).err(),
        Some(DetectorError::InvalidBufferSize)
    );
}

#[test]
fn test_alloc_construction_needs_enough_frequency() {
    // Below 20 sps the 50 ms window would hold no sample at all.
    assert!(QrsDetector::new_alloc(19usize.sps()).is_err());
    assert!(QrsDetector::new_alloc(20usize.sps()).is_ok());
    assert!(QrsDetector::new_alloc(720usize.sps()).is_ok());
}

#[test]
fn test_amplitude_bound_is_roomy() {
    // The fixed-point headroom covers every exactly-representable f32
    // integer, so callers can scale physical units generously.
    assert_eq!(MAX_AMPLITUDE, 1 << 24);
}
