//! Real-time QRS (heartbeat) detection for a streaming, sampled ECG signal.
//!
//! The detector consumes one amplitude sample at a time and reports the
//! sample index at which a heartbeat was detected.  It follows the classic
//! adaptive-threshold scheme of three coupled state machines (M, F and R)
//! whose published threshold components are summed and compared against each
//! incoming sample.
//!
//! Amplitudes are signed fixed-point integers: a caller working in
//! fractional physical units scales them once before feeding the detector.
//! Every internal constant of the algorithm is rational, so the whole
//! update is exact integer arithmetic, bounded by [`MAX_AMPLITUDE`].

pub mod algorithms;
pub mod folds;
pub mod sampling;
pub mod sliding;

use vstd::prelude::*;

use crate::algorithms::f::{F, FModel, f_init_model, f_inv, f_step, f_threshold,
    lemma_f_step_preserves_inv};
use crate::algorithms::m::{M, MModel, MPhase, M_DECREMENT_MAX, M_VALUE_MAX, m_detection,
    m_init_model, m_inv, m_step, m_threshold, lemma_m_detection_preserves_inv,
    lemma_m_step_preserves_inv};
use crate::algorithms::r::{DECREASE_STEPS_MAX, INDEX_MODULUS, R, RModel, r_detection,
    r_init_model, r_inv, r_step, r_threshold, lemma_r_detection_preserves_inv,
    lemma_r_step_preserves_inv};
use crate::sampling::{MAX_SAMPLING_FREQUENCY, SamplingFrequency, spec_ms_to_samples};
use crate::sliding::{SlidingWindow, filled, ring_evicted, ring_push};

verus! {

/// Largest amplitude magnitude the detector accepts.
///
/// The bound leaves ample headroom for every intermediate product of the
/// threshold arithmetic inside `i64`.
pub const MAX_AMPLITUDE: i64 = 16_777_216;

/// The one failure class of the detector: misconfiguration, raised at
/// construction time and never deferred to a later update.
#[derive(Clone, Copy, Debug, PartialEq, Eq, Structural)]
pub enum DetectorError {
    /// A supplied window capacity does not equal the number of samples the
    /// fixed window duration spans at the supplied sampling frequency, or
    /// the frequency is too low for the window to hold even one sample.
    InvalidBufferSize,
}

/// Abstract state of the whole detector: the three threshold machines and
/// the running (wrapped) sample counter.
#[verifier::ext_equal]
pub struct DetectorModel {
    pub m: MModel,
    pub f: FModel,
    pub r: RModel,
    /// Index of the next sample, in `0 .. INDEX_MODULUS`.
    pub total: nat,
}

/// A detector configuration the constructors accept: a valid frequency and
/// window capacities that match it, each spanning at least one sample.
pub open spec fn valid_config(fs: nat, cap_long: nat, cap_short: nat) -> bool {
    &&& 1 <= fs <= MAX_SAMPLING_FREQUENCY
    &&& cap_long == spec_ms_to_samples(fs, 300)
    &&& cap_short == spec_ms_to_samples(fs, 50)
    &&& cap_long >= 1
    &&& cap_short >= 1
}

/// The state of a freshly constructed detector.
pub open spec fn detector_init_model(fs: nat, cap_long: nat, cap_short: nat) -> DetectorModel {
    DetectorModel {
        m: m_init_model(fs),
        f: f_init_model(fs, cap_long, cap_short),
        r: r_init_model(),
        total: 0,
    }
}

/// One update of the detector by an input sample: all three machines
/// advance (R consuming M's refreshed decrement), the combined threshold
/// `m + f + r` is formed, and a sample exceeding it while both M and F are
/// published is a detection, which feeds back into M and R.
pub open spec fn detector_step(d: DetectorModel, sample: int) -> (DetectorModel, Option<nat>) {
    let m1 = m_step(d.m, sample);
    let f1 = f_step(d.f, sample);
    let r1 = r_step(d.r, m1.decrement);
    let total2 = (d.total + 1) % INDEX_MODULUS as nat;
    if m_threshold(m1) is Some && f_threshold(f1) is Some && sample > m_threshold(m1).unwrap()
        + f_threshold(f1).unwrap() + r_threshold(r1) {
        (
            DetectorModel {
                m: m_detection(m1, sample),
                f: f1,
                r: r_detection(r1, d.total),
                total: total2,
            },
            Some(d.total),
        )
    } else {
        (DetectorModel { m: m1, f: f1, r: r1, total: total2 }, None)
    }
}

/// Numeric invariant of the whole detector: each machine keeps its own,
/// they agree on the sampling frequency, and the counter stays wrapped.
pub open spec fn detector_inv(d: DetectorModel) -> bool {
    &&& m_inv(d.m)
    &&& f_inv(d.f)
    &&& r_inv(d.r)
    &&& d.m.fs == d.f.fs
    &&& d.total < INDEX_MODULUS
}

/// One update keeps the detector inside its numeric ranges and does not
/// change its configuration.
pub proof fn lemma_detector_step_preserves_inv(d: DetectorModel, sample: int)
    requires
        detector_inv(d),
        -MAX_AMPLITUDE <= sample <= MAX_AMPLITUDE,
    ensures
        ({
            let d2 = detector_step(d, sample).0;
            &&& detector_inv(d2)
            &&& d2.m.fs == d.m.fs
            &&& d2.f.cap_long == d.f.cap_long
            &&& d2.f.cap_short == d.f.cap_short
        }),
{
    let m1 = m_step(d.m, sample);
    lemma_m_step_preserves_inv(d.m, sample);
    lemma_f_step_preserves_inv(d.f, sample);
    lemma_r_step_preserves_inv(d.r, m1.decrement);
    lemma_m_detection_preserves_inv(m1, sample);
    lemma_r_detection_preserves_inv(r_step(d.r, m1.decrement), d.total);
}

/// The detector after feeding `samples`, one at a time.
pub open spec fn detector_run(d: DetectorModel, samples: Seq<int>) -> DetectorModel
    decreases samples.len(),
{
    if samples.len() == 0 {
        d
    } else {
        detector_step(detector_run(d, samples.drop_last()), samples.last()).0
    }
}

/// What the detector reports for sample `k` of `samples`.
pub open spec fn detector_output_at(d: DetectorModel, samples: Seq<int>, k: int) -> Option<nat> {
    detector_step(detector_run(d, samples.take(k)), samples[k]).1
}

/// The numeric invariant and the configuration hold along any bounded
/// sample sequence.
pub proof fn lemma_detector_run_preserves_inv(d: DetectorModel, samples: Seq<int>)
    requires
        detector_inv(d),
        forall|i: int|
            0 <= i < samples.len() ==> -MAX_AMPLITUDE <= #[trigger] samples[i] <= MAX_AMPLITUDE,
    ensures
        ({
            let d2 = detector_run(d, samples);
            &&& detector_inv(d2)
            &&& d2.m.fs == d.m.fs
            &&& d2.f.cap_long == d.f.cap_long
            &&& d2.f.cap_short == d.f.cap_short
        }),
    decreases samples.len(),
{
    if samples.len() > 0 {
        lemma_detector_run_preserves_inv(d, samples.drop_last());
        lemma_detector_step_preserves_inv(detector_run(d, samples.drop_last()), samples.last());
    }
}

/// A freshly constructed detector satisfies the numeric invariant.
pub proof fn lemma_detector_init_inv(fs: nat, cap_long: nat, cap_short: nat)
    requires
        valid_config(fs, cap_long, cap_short),
    ensures
        detector_inv(detector_init_model(fs, cap_long, cap_short)),
{
    vstd::arithmetic::div_mod::lemma_div_is_ordered(2650, fs as int * 2650, 1000);
    vstd::arithmetic::div_mod::lemma_div_is_ordered(
        fs as int * 300,
        MAX_SAMPLING_FREQUENCY as int * 300,
        1000,
    );
    vstd::arithmetic::div_mod::lemma_div_is_ordered(
        fs as int * 50,
        MAX_SAMPLING_FREQUENCY as int * 50,
        1000,
    );
}

/// Feeding one more sample is one step on top of the run so far.
pub proof fn lemma_run_take_step(d: DetectorModel, samples: Seq<int>, k: int)
    requires
        0 <= k < samples.len(),
    ensures
        detector_run(d, samples.take(k + 1)) == detector_step(
            detector_run(d, samples.take(k)),
            samples[k],
        ).0,
{
    assert(samples.take(k + 1).drop_last() =~= samples.take(k));
    assert(samples.take(k + 1).last() == samples[k]);
}

/// True when M sits in its disallow window with at least `k` samples of it
/// left; its threshold component is absent throughout.
pub open spec fn m_disallow_at_least(m: MModel, k: int) -> bool {
    m.phase matches MPhase::Disallow { left, .. } && left >= k
}

proof fn lemma_refractory_core(d: DetectorModel, samples: Seq<int>, i: int, j: int)
    requires
        detector_inv(d),
        forall|n: int|
            0 <= n < samples.len() ==> -MAX_AMPLITUDE <= #[trigger] samples[n] <= MAX_AMPLITUDE,
        0 <= i < j < samples.len(),
        j <= i + spec_ms_to_samples(d.m.fs, 225),
        detector_output_at(d, samples, i) is Some,
    ensures
        m_disallow_at_least(
            detector_run(d, samples.take(j)).m,
            spec_ms_to_samples(d.m.fs, 225) - (j - i - 1),
        ),
    decreases j,
{
    let fs = d.m.fs;
    let disallow_span = spec_ms_to_samples(fs, 225);
    assert(forall|n: int|
        0 <= n < samples.take(j - 1).len() ==> -MAX_AMPLITUDE <= #[trigger] samples.take(
            j - 1,
        )[n] <= MAX_AMPLITUDE);
    if j == i + 1 {
        lemma_run_take_step(d, samples, i);
        assert(forall|n: int|
            0 <= n < samples.take(i).len() ==> -MAX_AMPLITUDE <= #[trigger] samples.take(i)[n]
                <= MAX_AMPLITUDE);
        lemma_detector_run_preserves_inv(d, samples.take(i));
    } else {
        lemma_refractory_core(d, samples, i, j - 1);
        lemma_run_take_step(d, samples, j - 1);
        let prev = detector_run(d, samples.take(j - 1));
        match prev.m.phase {
            MPhase::Disallow { left, peak } => {
                crate::algorithms::m::lemma_m_disallow_persists(
                    prev.m,
                    samples[j - 1],
                    left,
                    peak,
                );
            },
            _ => {
                assert(false);
            },
        }
    }
}

/// Refractory law: once a detection is reported, no detection is reported
/// for the next `225 ms`-worth of samples, whatever the input.
pub proof fn lemma_refractory_gating(d: DetectorModel, samples: Seq<int>, i: int, j: int)
    requires
        detector_inv(d),
        forall|n: int|
            0 <= n < samples.len() ==> -MAX_AMPLITUDE <= #[trigger] samples[n] <= MAX_AMPLITUDE,
        0 <= i < j < samples.len(),
        j <= i + spec_ms_to_samples(d.m.fs, 225),
        detector_output_at(d, samples, i) is Some,
    ensures
        detector_output_at(d, samples, j) is None,
{
    lemma_refractory_core(d, samples, i, j);
    let at_j = detector_run(d, samples.take(j));
    match at_j.m.phase {
        MPhase::Disallow { left, peak } => {
            crate::algorithms::m::lemma_m_disallow_persists(at_j.m, samples[j], left, peak);
        },
        _ => {
            assert(false);
        },
    }
}

/// Reset law: a cleared detector is the freshly constructed detector of
/// the same configuration, so feeding both the same samples reports the
/// same detections at every position.
pub proof fn lemma_reset_reproducibility(
    cleared: DetectorModel,
    fresh: DetectorModel,
    fs: nat,
    cap_long: nat,
    cap_short: nat,
    samples: Seq<int>,
    k: int,
)
    requires
        cleared == detector_init_model(fs, cap_long, cap_short),
        fresh == detector_init_model(fs, cap_long, cap_short),
    ensures
        detector_output_at(cleared, samples, k) == detector_output_at(fresh, samples, k),
{
}

/// How the F machine looks when only a constant `c` has ever been fed:
/// the short window holds copies of `c`, the long window holds copies of
/// `max(0, c)`, the seeding accumulator counts the pushes, and the
/// integrated value equals `max(0, c)` exactly.
pub open spec fn flat_f_inv(f: FModel, c: int) -> bool {
    match f.phase {
        crate::algorithms::f::FPhase::Ignore { .. } => true,
        crate::algorithms::f::FPhase::Init { left: _, acc } => {
            &&& acc == f.maxes.len() * c
            &&& (forall|i: int| 0 <= i < f.window.len() ==> #[trigger] f.window[i] == c)
            &&& (forall|i: int|
                0 <= i < f.maxes.len() ==> #[trigger] f.maxes[i] == crate::algorithms::m::max_int(
                    0,
                    c,
                ))
        },
        crate::algorithms::f::FPhase::Integrate { value } => {
            &&& value == crate::algorithms::m::max_int(0, c)
            &&& (forall|i: int| 0 <= i < f.window.len() ==> #[trigger] f.window[i] == c)
            &&& (forall|i: int|
                0 <= i < f.maxes.len() ==> #[trigger] f.maxes[i] == crate::algorithms::m::max_int(
                    0,
                    c,
                ))
        },
    }
}

/// How the whole detector looks when only the constant `c` has ever been
/// fed: F tracks `c` exactly and R has never seen a detection.
pub open spec fn flat_detector_inv(d: DetectorModel, c: int) -> bool {
    &&& flat_f_inv(d.f, c)
    &&& d.r == r_init_model()
}

proof fn lemma_flat_step(d: DetectorModel, c: int)
    requires
        detector_inv(d),
        flat_detector_inv(d, c),
        -MAX_AMPLITUDE <= c <= MAX_AMPLITUDE,
    ensures
        detector_step(d, c).1 is None,
        flat_detector_inv(detector_step(d, c).0, c),
{
    let max0c = crate::algorithms::m::max_int(0, c);
    let f1 = f_step(d.f, c);
    match d.f.phase {
        crate::algorithms::f::FPhase::Ignore { .. } => {
            assert(0 * c == 0) by (nonlinear_arith);
        },
        crate::algorithms::f::FPhase::Init { .. } => {
            lemma_flat_push(d.f, c);
        },
        crate::algorithms::f::FPhase::Integrate { .. } => {
            lemma_flat_push(d.f, c);
        },
    }
    let m1 = m_step(d.m, c);
    lemma_m_step_preserves_inv(d.m, c);
    let r1 = r_step(d.r, m1.decrement);
    assert(r1 == d.r);
    assert(r_threshold(r1) == 0);
    if m_threshold(m1) is Some && f_threshold(f1) is Some {
        assert(m_threshold(m1).unwrap() >= 0);
        assert(f_threshold(f1).unwrap() == max0c);
        assert(c <= max0c);
        assert(!(c > m_threshold(m1).unwrap() + f_threshold(f1).unwrap() + r_threshold(r1)));
    }
}

/// One push of a constant through F's windows keeps both windows constant
/// and keeps the accumulator and integrated value on schedule.
proof fn lemma_flat_push(f: FModel, c: int)
    requires
        f_inv(f),
        flat_f_inv(f, c),
        -MAX_AMPLITUDE <= c <= MAX_AMPLITUDE,
        f.phase matches crate::algorithms::f::FPhase::Init { .. } || f.phase
            matches crate::algorithms::f::FPhase::Integrate { .. },
    ensures
        flat_f_inv(f_step(f, c), c),
    {
        let max0c = crate::algorithms::m::max_int(0, c);
        let window2 = ring_push(f.window, f.cap_short, c);
        assert forall|i: int| 0 <= i < window2.len() implies #[trigger] window2[i] == c by {
            if f.window.len() < f.cap_short {
                if i < f.window.len() {
                    assert(window2[i] == f.window[i]);
                }
            } else {
                if i < window2.len() - 1 {
                    assert(window2[i] == f.window[i + 1]);
                }
            }
        }
        crate::folds::lemma_max0_int_constant(window2, c);
        let mx = crate::folds::max0_int(window2);
        assert(mx == max0c);
        let maxes2 = ring_push(f.maxes, f.cap_long, mx);
        assert forall|i: int| 0 <= i < maxes2.len() implies #[trigger] maxes2[i] == max0c by {
            if f.maxes.len() < f.cap_long {
                if i < f.maxes.len() {
                    assert(maxes2[i] == f.maxes[i]);
                }
            } else {
                if i < maxes2.len() - 1 {
                    assert(maxes2[i] == f.maxes[i + 1]);
                }
            }
        }
        match f.phase {
            crate::algorithms::f::FPhase::Init { left, acc } => {
                let acc2 = acc + c;
                assert(f.maxes.len() * c + c == (f.maxes.len() + 1) * c) by (nonlinear_arith);
                if left == 0 {
                    assert(f.maxes.len() + 1 == f.cap_long);
                    assert(acc2 == f.cap_long * c);
                    if c >= 0 {
                        assert(crate::algorithms::m::max_int(0, acc2) == f.cap_long as int * c) by {
                            assert(f.cap_long as int * c >= 0) by (nonlinear_arith)
                                requires
                                    f.cap_long >= 1,
                                    c >= 0,
                            ;
                        }
                        vstd::arithmetic::div_mod::lemma_div_multiples_vanish(
                            c,
                            f.cap_long as int,
                        );
                        assert((f.cap_long as int * c) / f.cap_long as int == c);
                    } else {
                        assert(f.cap_long as int * c < 0) by (nonlinear_arith)
                            requires
                                f.cap_long >= 1,
                                c < 0,
                        ;
                        assert(crate::algorithms::m::max_int(0, acc2) == 0);
                        assert(0int / f.cap_long as int == 0);
                    }
                }
            },
            crate::algorithms::f::FPhase::Integrate { value } => {
                assert(f.maxes.len() == f.cap_long);
                assert(f.maxes[0] == max0c);
                assert(ring_evicted(f.maxes, f.cap_long) == Some(max0c));
                assert((mx - max0c) / crate::algorithms::f::F_NORMALIZATION as int == 0);
            },
            crate::algorithms::f::FPhase::Ignore { .. } => {
                assert(false);
            },
        }
    }

/// Feeding only the constant `c` keeps the flat-line invariant.
proof fn lemma_flat_run(
    fs: nat,
    cap_long: nat,
    cap_short: nat,
    c: int,
    samples: Seq<int>,
    j: int,
)
    requires
        valid_config(fs, cap_long, cap_short),
        -MAX_AMPLITUDE <= c <= MAX_AMPLITUDE,
        forall|i: int| 0 <= i < samples.len() ==> #[trigger] samples[i] == c,
        0 <= j <= samples.len(),
    ensures
        ({
            let dj = detector_run(detector_init_model(fs, cap_long, cap_short), samples.take(j));
            &&& detector_inv(dj)
            &&& flat_detector_inv(dj, c)
        }),
    decreases j,
{
    let d0 = detector_init_model(fs, cap_long, cap_short);
    lemma_detector_init_inv(fs, cap_long, cap_short);
    if j == 0 {
        assert(samples.take(0) =~= Seq::<int>::empty());
    } else {
        lemma_flat_run(fs, cap_long, cap_short, c, samples, j - 1);
        lemma_run_take_step(d0, samples, j - 1);
        let prev = detector_run(d0, samples.take(j - 1));
        lemma_flat_step(prev, c);
        lemma_detector_step_preserves_inv(prev, c);
    }
}

/// Flat-line law: a constant signal never produces a detection, at any
/// position of the stream.
pub proof fn lemma_flat_line_no_detection(
    fs: nat,
    cap_long: nat,
    cap_short: nat,
    c: int,
    samples: Seq<int>,
    k: int,
)
    requires
        valid_config(fs, cap_long, cap_short),
        -MAX_AMPLITUDE <= c <= MAX_AMPLITUDE,
        forall|i: int| 0 <= i < samples.len() ==> #[trigger] samples[i] == c,
        0 <= k < samples.len(),
    ensures
        detector_output_at(detector_init_model(fs, cap_long, cap_short), samples, k) is None,
{
    lemma_flat_run(fs, cap_long, cap_short, c, samples, k);
    let dk = detector_run(detector_init_model(fs, cap_long, cap_short), samples.take(k));
    lemma_flat_step(dk, c);
}

/// An immutable snapshot of the three threshold components, taken once per
/// sample.
#[derive(Clone, Copy, Debug)]
pub struct Thresholds {
    /// M component: absent while M is warming up or in its disallow window.
    pub m: Option<i64>,
    /// F component: absent until F starts integrating.
    pub f: Option<i64>,
    /// R component: never positive.
    pub r: i64,
}

/// The component ranges that every snapshot taken from a well-formed
/// detector satisfies.
pub open spec fn thresholds_bounded(t: Thresholds) -> bool {
    &&& (t.m matches Some(v) ==> 0 <= v <= M_VALUE_MAX)
    &&& (t.f matches Some(v) ==> 0 <= v <= 2001 * MAX_AMPLITUDE)
    &&& -(DECREASE_STEPS_MAX * M_DECREMENT_MAX as int) <= t.r <= 0
}

impl Thresholds {
    /// The combined threshold `m + f + r`, present only once both M and F
    /// publish a value.
    pub fn total(&self) -> (r: Option<i64>)
        requires
            thresholds_bounded(*self),
        ensures
            r is Some <==> (self.m is Some && self.f is Some),
            r matches Some(v) ==> v as int == self.m.unwrap() + self.f.unwrap() + self.r,
    {
        match (self.m, self.f) {
            (Some(m), Some(f)) => Some(m + f + self.r),
            _ => None,
        }
    }
}

pub open spec fn abs_int(a: int) -> int {
    if a >= 0 {
        a
    } else {
        -a
    }
}

/// Optional single-stage differencing pre-filter: a pluggable stage ahead
/// of the detector that conditions the raw input.
///
/// It holds the last two samples; once both are present, each update
/// returns the absolute change between the current sample and the sample
/// two positions earlier.
pub struct Differencer {
    window: SlidingWindow<i64>,
}

impl View for Differencer {
    type V = Seq<int>;

    /// The held history, oldest first.
    closed spec fn view(&self) -> Seq<int> {
        crate::folds::seq_to_int(self.window@)
    }
}

impl Differencer {
    /// Internal consistency: a two-slot window of bounded samples.
    pub closed spec fn wf(&self) -> bool {
        &&& self.window.wf()
        &&& self.window.capacity_spec() == 2
        &&& (forall|i: int|
            0 <= i < self.window@.len() ==> -MAX_AMPLITUDE <= #[trigger] self.window@[i]
                <= MAX_AMPLITUDE)
    }

    /// A fresh differencer with no history.
    pub fn new() -> (d: Differencer)
        ensures
            d.wf(),
            d@ == Seq::<int>::empty(),
    {
        let d = Differencer { window: SlidingWindow::new(filled(0i64, 2)) };
        proof {
            assert(d@ =~= Seq::<int>::empty());
        }
        d
    }

    /// Forgets the held history.
    pub fn clear(&mut self)
        requires
            old(self).wf(),
        ensures
            final(self).wf(),
            final(self)@ == Seq::<int>::empty(),
    {
        self.window.clear();
        proof {
            assert(self@ =~= Seq::<int>::empty());
        }
    }

    /// Feeds one sample: returns nothing until two earlier samples are
    /// held, thereafter the absolute change over the last two samples.
    pub fn update(&mut self, sample: i64) -> (r: Option<i64>)
        requires
            old(self).wf(),
            -MAX_AMPLITUDE <= sample <= MAX_AMPLITUDE,
        ensures
            final(self).wf(),
            final(self)@ == ring_push(old(self)@, 2, sample as int),
            (match r {
                Some(v) => {
                    &&& old(self)@.len() == 2
                    &&& v as int == abs_int(sample - old(self)@[0])
                    &&& 0 <= v <= 2 * MAX_AMPLITUDE
                },
                None => old(self)@.len() < 2,
            }),
    {
        proof {
            crate::sliding::lemma_window_capacity(&self.window);
            crate::sliding::lemma_ring_push_to_int(self.window@, 2, sample);
        }
        let evicted = self.window.push(sample);
        proof {
            let old_w = crate::folds::seq_to_int(old(self).window@);
            let new_w = crate::folds::seq_to_int(self.window@);
            assert forall|i: int| 0 <= i < new_w.len() implies -MAX_AMPLITUDE
                <= #[trigger] new_w[i] <= MAX_AMPLITUDE by {
                if old_w.len() < 2 {
                    if i < old_w.len() {
                        assert(new_w[i] == old_w[i]);
                    } else {
                        assert(new_w[i] == sample as int);
                    }
                } else {
                    if i < new_w.len() - 1 {
                        assert(new_w[i] == old_w[i + 1]);
                    } else {
                        assert(new_w[i] == sample as int);
                    }
                }
            }
            assert(forall|i: int| 0 <= i < self.window@.len() ==> #[trigger] self.window@[i]
                as int == new_w[i]);
        }
        match evicted {
            Some(oldest) => {
                proof {
                    assert(old(self).window@.len() == 2);
                    assert(old(self)@[0] == old(self).window@[0] as int);
                    assert(oldest == old(self).window@.first());
                }
                let diff = sample - oldest;
                let magnitude = if diff >= 0 {
                    diff
                } else {
                    -diff
                };
                Some(magnitude)
            },
            None => None,
        }
    }
}

/// Finds QRS complexes in a real-time sampled ECG signal.
///
/// One instance owns one M, F and R threshold machine and the running
/// sample counter; all interaction goes through [`QrsDetector::update`],
/// one sample at a time.
pub struct QrsDetector {
    total_samples: u32,
    m: M,
    f: F,
    r: R,
}

impl View for QrsDetector {
    type V = DetectorModel;

    closed spec fn view(&self) -> DetectorModel {
        DetectorModel { m: self.m@, f: self.f@, r: self.r@, total: self.total_samples as nat }
    }
}

impl QrsDetector {
    /// Internal consistency: all three machines are well-formed and agree
    /// on the sampling frequency.
    pub closed spec fn wf(&self) -> bool {
        &&& self.m.wf()
        &&& self.f.wf()
        &&& self.r.wf()
        &&& self.m@.fs == self.f@.fs
    }

    /// What a well-formed detector exposes of its closed invariant: the
    /// numeric invariant on its model.
    pub proof fn wf_exposes(&self)
        requires
            self.wf(),
        ensures
            detector_inv(self@),
    {
        self.m.wf_exposes();
        crate::algorithms::f::lemma_f_wf_exposes(&self.f);
        crate::algorithms::r::lemma_r_wf_exposes(&self.r);
    }

    /// Creates a detector for signals sampled at `fs`, allocating the two
    /// F windows itself with the supplied capacities.  The capacities must
    /// equal the number of samples that 300 ms and 50 ms span at `fs`;
    /// anything else is rejected as [`DetectorError::InvalidBufferSize`].
    pub fn new(fs: SamplingFrequency, samples_300: usize, samples_50: usize) -> (r: Result<
        QrsDetector,
        DetectorError,
    >)
        requires
            fs.valid(),
        ensures
            r is Ok <==> valid_config(fs@, samples_300 as nat, samples_50 as nat),
            (r matches Ok(d) ==> d.wf() && d@ == detector_init_model(
                fs@,
                samples_300 as nat,
                samples_50 as nat,
            )),
            r is Err ==> r == Err::<QrsDetector, DetectorError>(DetectorError::InvalidBufferSize),
    {
        if samples_300 == 0 || samples_50 == 0 {
            return Err(DetectorError::InvalidBufferSize);
        }
        let f_max_window = SlidingWindow::new(filled(0i64, samples_300));
        let f_buffer = SlidingWindow::new(filled(0i64, samples_50));
        match F::new(fs, f_max_window, f_buffer) {
            Ok(f) => {
                let d = QrsDetector { total_samples: 0, m: M::new(fs), f, r: R::new() };
                proof {
                    assert(d@ =~= detector_init_model(fs@, samples_300 as nat,
                        samples_50 as nat));
                }
                Ok(d)
            },
            Err(e) => Err(e),
        }
    }

    /// Creates a detector for signals sampled at `fs`, using the supplied
    /// backing storage for the two F windows.  The storage lengths are the
    /// window capacities and are validated exactly as in
    /// [`QrsDetector::new`].
    pub fn new_from(fs: SamplingFrequency, f_buffer_300: Vec<i64>, f_buffer_50: Vec<i64>) -> (r:
        Result<QrsDetector, DetectorError>)
        requires
            fs.valid(),
        ensures
            r is Ok <==> valid_config(fs@, f_buffer_300@.len(), f_buffer_50@.len()),
            (r matches Ok(d) ==> d.wf() && d@ == detector_init_model(
                fs@,
                f_buffer_300@.len(),
                f_buffer_50@.len(),
            )),
            r is Err ==> r == Err::<QrsDetector, DetectorError>(DetectorError::InvalidBufferSize),
    {
        if f_buffer_300.len() == 0 || f_buffer_50.len() == 0 {
            return Err(DetectorError::InvalidBufferSize);
        }
        let f_max_window = SlidingWindow::new(f_buffer_300);
        let f_buffer = SlidingWindow::new(f_buffer_50);
        match F::new(fs, f_max_window, f_buffer) {
            Ok(f) => {
                let d = QrsDetector { total_samples: 0, m: M::new(fs), f, r: R::new() };
                proof {
                    assert(d@ =~= detector_init_model(fs@, d.f@.cap_long, d.f@.cap_short));
                }
                Ok(d)
            },
            Err(e) => Err(e),
        }
    }

    /// Creates a detector for signals sampled at `fs`, computing the two
    /// window capacities itself.  Fails only when `fs` is too low for the
    /// 50 ms window to span even one sample.
    pub fn new_alloc(fs: SamplingFrequency) -> (r: Result<QrsDetector, DetectorError>)
        requires
            fs.valid(),
        ensures
            r is Ok <==> (spec_ms_to_samples(fs@, 300) >= 1 && spec_ms_to_samples(fs@, 50) >= 1),
            (r matches Ok(d) ==> d.wf() && d@ == detector_init_model(
                fs@,
                spec_ms_to_samples(fs@, 300),
                spec_ms_to_samples(fs@, 50),
            )),
            r is Err ==> r == Err::<QrsDetector, DetectorError>(DetectorError::InvalidBufferSize),
    {
        let samples_300 = fs.ms_to_samples(300);
        let samples_50 = fs.ms_to_samples(50);
        Self::new(fs, samples_300, samples_50)
    }

    /// Resets the detector to its post-construction state with the same
    /// configuration: all three machines and the sample counter restart.
    pub fn clear(&mut self)
        requires
            old(self).wf(),
        ensures
            final(self).wf(),
            final(self)@ == detector_init_model(
                old(self)@.m.fs,
                old(self)@.f.cap_long,
                old(self)@.f.cap_short,
            ),
    {
        self.m.clear();
        self.f.clear();
        self.r.clear();
        self.total_samples = 0;
        proof {
            assert(self@ =~= detector_init_model(old(self)@.m.fs, old(self)@.f.cap_long,
                old(self)@.f.cap_short));
        }
    }

    /// Processes one sample; returns the sample's index if it completes a
    /// QRS complex, exactly as [`detector_step`] describes.
    pub fn update(&mut self, sample: i64) -> (r: Option<u32>)
        requires
            old(self).wf(),
            -MAX_AMPLITUDE <= sample <= MAX_AMPLITUDE,
        ensures
            final(self).wf(),
            final(self)@ == detector_step(old(self)@, sample as int).0,
            ({
                let out = detector_step(old(self)@, sample as int).1;
                match r {
                    Some(i) => out == Some(i as nat),
                    None => out is None,
                }
            }),
    {
        proof {
            self.wf_exposes();
            lemma_detector_step_preserves_inv(self@, sample as int);
        }
        self.m.update(sample);
        self.f.update(sample);
        proof {
            self.m.wf_exposes();
        }
        let m_decrement = self.m.decrement();
        self.r.update(m_decrement);
        let thresholds = self.thresholds_internal();
        let result = match thresholds.total() {
            Some(mfr) => {
                if sample > mfr {
                    self.m.detection_event(sample);
                    self.r.detection_event(self.total_samples);
                    Some(self.total_samples)
                } else {
                    None
                }
            },
            None => None,
        };
        self.total_samples = if self.total_samples == u32::MAX {
            0
        } else {
            self.total_samples + 1
        };
        proof {
            assert(self@ =~= detector_step(old(self)@, sample as int).0);
        }
        result
    }

    /// The current threshold components, used to decide whether a sample
    /// is a QRS complex; the detection test compares against their sum.
    pub fn thresholds(&self) -> (t: Thresholds)
        requires
            self.wf(),
        ensures
            (match m_threshold(self@.m) {
                Some(v) => t.m matches Some(x) && x as int == v,
                None => t.m is None,
            }),
            (match f_threshold(self@.f) {
                Some(v) => t.f matches Some(x) && x as int == v,
                None => t.f is None,
            }),
            t.r as int == r_threshold(self@.r),
            thresholds_bounded(t),
    {
        self.thresholds_internal()
    }

    /// Shared body of [`QrsDetector::thresholds`], callable mid-update when
    /// only the three machines (not the whole detector) are known to be
    /// well-formed.
    fn thresholds_internal(&self) -> (t: Thresholds)
        requires
            self.m.wf(),
            self.f.wf(),
            self.r.wf(),
        ensures
            (match m_threshold(self@.m) {
                Some(v) => t.m matches Some(x) && x as int == v,
                None => t.m is None,
            }),
            (match f_threshold(self@.f) {
                Some(v) => t.f matches Some(x) && x as int == v,
                None => t.f is None,
            }),
            t.r as int == r_threshold(self@.r),
            thresholds_bounded(t),
    {
        proof {
            self.m.wf_exposes();
            crate::algorithms::f::lemma_f_wf_exposes(&self.f);
            crate::algorithms::r::lemma_r_wf_exposes(&self.r);
        }
        Thresholds { m: self.m.threshold(), f: self.f.threshold(), r: self.r.threshold() }
    }
}

} // verus!
