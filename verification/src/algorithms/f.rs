//! The F threshold state machine: a broad amplitude threshold derived from
//! windowed maxima, smoothing out single-sample spikes.
//!
//! F keeps a short (50 ms) window of raw samples and a long (300 ms)
//! window of the short window's successive maxima.  After a settling
//! period aligned with M's warm-up it seeds an average over the samples it
//! saw, then follows the recurrence `f += (new_max - evicted_max) / 150`,
//! floored at zero (the refined variant of the algorithm).

use vstd::prelude::*;

use crate::{DetectorError, MAX_AMPLITUDE};
use crate::algorithms::m::max_int;
use crate::folds::{lemma_div_sum_ge, lemma_max0_i64_rotation, lemma_max0_int_bounds,
    lemma_max0_to_int, lemma_sum_int_ring, max0_i64, max0_int, seq_to_int, sum_int};
use crate::sampling::{MAX_SAMPLING_FREQUENCY, SamplingFrequency, spec_ms_to_samples};
use crate::sliding::{SlidingWindow, lemma_ring_push_to_int, ring_evicted, ring_push};

verus! {

use vstd::arithmetic::div_mod::{lemma_div_is_ordered, lemma_div_multiples_vanish,
    lemma_div_pos_is_pos};

/// Fixed normalization constant of the integrate recurrence, tied to the
/// long window's nominal 300 ms / 50 ms-step structure.
pub const F_NORMALIZATION: i64 = 150;

/// Abstract state of the F machine.
pub enum FPhase {
    /// Settling period: the first 2.65 s of signal are skipped entirely.
    Ignore { left: nat },
    /// Both windows fill while an average over all seen samples is seeded.
    Init { left: nat, acc: int },
    /// Steady state: the threshold follows the windowed-maxima recurrence.
    Integrate { value: int },
}

/// Abstract state of the F machine together with its two windows.
#[verifier::ext_equal]
pub struct FModel {
    /// Sampling frequency, samples per second.
    pub fs: nat,
    /// Capacity of the long window of maxima: 300 ms of samples.
    pub cap_long: nat,
    /// Capacity of the short raw-sample window: 50 ms of samples.
    pub cap_short: nat,
    pub phase: FPhase,
    /// Chronological contents of the long window of maxima, oldest first.
    pub maxes: Seq<int>,
    /// Chronological contents of the short raw-sample window.
    pub window: Seq<int>,
}

/// The state of a freshly constructed F machine.
pub open spec fn f_init_model(fs: nat, cap_long: nat, cap_short: nat) -> FModel {
    FModel {
        fs,
        cap_long,
        cap_short,
        phase: FPhase::Ignore { left: spec_ms_to_samples(fs, 2650) },
        maxes: Seq::empty(),
        window: Seq::empty(),
    }
}

/// One push through both windows: the sample enters the short window, the
/// short window's maximum enters the long window, and the long window's
/// evicted maximum (if it was full) comes back out.
pub open spec fn f_push(f: FModel, sample: int) -> (FModel, int, Option<int>) {
    let window2 = ring_push(f.window, f.cap_short, sample);
    let mx = max0_int(window2);
    let evicted = ring_evicted(f.maxes, f.cap_long);
    let maxes2 = ring_push(f.maxes, f.cap_long, mx);
    (FModel { window: window2, maxes: maxes2, ..f }, mx, evicted)
}

/// One update of the F machine by an input sample.
pub open spec fn f_step(f: FModel, sample: int) -> FModel {
    match f.phase {
        FPhase::Ignore { left } => {
            if left == 1 {
                FModel { phase: FPhase::Init { left: (f.cap_long - 1) as nat, acc: 0 }, ..f }
            } else {
                FModel { phase: FPhase::Ignore { left: (left - 1) as nat }, ..f }
            }
        },
        FPhase::Init { left, acc } => {
            let acc2 = acc + sample;
            let (f2, _, _) = f_push(f, sample);
            if left == 0 {
                FModel {
                    phase: FPhase::Integrate { value: max_int(0, acc2) / f.cap_long as int },
                    ..f2
                }
            } else {
                FModel { phase: FPhase::Init { left: (left - 1) as nat, acc: acc2 }, ..f2 }
            }
        },
        FPhase::Integrate { value } => {
            let (f2, mx, evicted) = f_push(f, sample);
            let delta = (mx - evicted.unwrap()) / F_NORMALIZATION as int;
            FModel { phase: FPhase::Integrate { value: max_int(0, value + delta) }, ..f2 }
        },
    }
}

/// The published F threshold component: present only once integrating.
pub open spec fn f_threshold(f: FModel) -> Option<int> {
    match f.phase {
        FPhase::Integrate { value } => Some(value),
        _ => None,
    }
}

/// Numeric invariant of the F machine: window shapes track the phase, and
/// the integrated value stays under the long window's scaled sum, which
/// keeps every quantity inside exact `i64` arithmetic.
pub open spec fn f_inv(f: FModel) -> bool {
    &&& 1 <= f.fs <= MAX_SAMPLING_FREQUENCY
    &&& f.cap_long == spec_ms_to_samples(f.fs, 300)
    &&& f.cap_short == spec_ms_to_samples(f.fs, 50)
    &&& 1 <= f.cap_long <= 300_000
    &&& 1 <= f.cap_short <= 50_000
    &&& f.window.len() <= f.cap_short
    &&& (forall|i: int|
        0 <= i < f.window.len() ==> -MAX_AMPLITUDE <= #[trigger] f.window[i] <= MAX_AMPLITUDE)
    &&& f.maxes.len() <= f.cap_long
    &&& (forall|i: int| 0 <= i < f.maxes.len() ==> 0 <= #[trigger] f.maxes[i] <= MAX_AMPLITUDE)
    &&& match f.phase {
        FPhase::Ignore { left } => {
            &&& left >= 1
            &&& f.maxes.len() == 0
            &&& f.window.len() == 0
        },
        FPhase::Init { left, acc } => {
            &&& f.maxes.len() + left + 1 == f.cap_long
            &&& -(f.maxes.len() * MAX_AMPLITUDE) <= acc <= f.maxes.len() * MAX_AMPLITUDE
        },
        FPhase::Integrate { value } => {
            &&& f.maxes.len() == f.cap_long
            &&& 0 <= value <= sum_int(f.maxes) / F_NORMALIZATION as int + MAX_AMPLITUDE
        },
    }
}

/// One update keeps the F machine inside its numeric ranges.
pub proof fn lemma_f_step_preserves_inv(f: FModel, sample: int)
    requires
        f_inv(f),
        -MAX_AMPLITUDE <= sample <= MAX_AMPLITUDE,
    ensures
        f_inv(f_step(f, sample)),
{
    match f.phase {
        FPhase::Ignore { .. } => {},
        FPhase::Init { left, acc } => {
            let acc2 = acc + sample;
            lemma_f_push_shape(f, sample);
            let (f2, mx, _) = f_push(f, sample);
            assert((f.maxes.len() + 1) * MAX_AMPLITUDE == f.maxes.len() * MAX_AMPLITUDE
                + MAX_AMPLITUDE) by (nonlinear_arith);
            if left == 0 {
                let seeded = max_int(0, acc2) / f.cap_long as int;
                assert(f.maxes.len() * MAX_AMPLITUDE + MAX_AMPLITUDE == f.cap_long
                    * MAX_AMPLITUDE) by (nonlinear_arith)
                    requires
                        f.maxes.len() + 1 == f.cap_long,
                ;
                lemma_div_pos_is_pos(max_int(0, acc2), f.cap_long as int);
                lemma_div_is_ordered(
                    max_int(0, acc2),
                    f.cap_long as int * MAX_AMPLITUDE,
                    f.cap_long as int,
                );
                lemma_div_multiples_vanish(MAX_AMPLITUDE as int, f.cap_long as int);
                assert(seeded <= MAX_AMPLITUDE);
                crate::folds::lemma_sum_int_bounds(f2.maxes, 0, MAX_AMPLITUDE as int);
                lemma_div_pos_is_pos(sum_int(f2.maxes), F_NORMALIZATION as int);
            }
        },
        FPhase::Integrate { value } => {
            lemma_f_push_shape(f, sample);
            let (f2, mx, evicted) = f_push(f, sample);
            let old0 = f.maxes[0];
            assert(evicted == Some(old0));
            lemma_sum_int_ring(f.maxes, mx);
            assert(sum_int(f2.maxes) == sum_int(f.maxes) - old0 + mx);
            let delta = (mx - old0) / F_NORMALIZATION as int;
            lemma_div_sum_ge(sum_int(f.maxes), mx - old0, F_NORMALIZATION as int);
            crate::folds::lemma_sum_int_bounds(f2.maxes, 0, MAX_AMPLITUDE as int);
            lemma_div_pos_is_pos(sum_int(f2.maxes), F_NORMALIZATION as int);
        },
    }
}

/// Both windows keep their shapes and entry bounds through a push.
proof fn lemma_f_push_shape(f: FModel, sample: int)
    requires
        f_inv(f),
        -MAX_AMPLITUDE <= sample <= MAX_AMPLITUDE,
        f.phase matches FPhase::Init { .. } || f.phase matches FPhase::Integrate { .. },
    ensures
        ({
            let (f2, mx, evicted) = f_push(f, sample);
            &&& f2.window.len() == if f.window.len() < f.cap_short {
                f.window.len() + 1
            } else {
                f.cap_short as nat
            }
            &&& (forall|i: int|
                0 <= i < f2.window.len() ==> -MAX_AMPLITUDE <= #[trigger] f2.window[i]
                    <= MAX_AMPLITUDE)
            &&& 0 <= mx <= MAX_AMPLITUDE
            &&& f2.maxes.len() == if f.maxes.len() < f.cap_long {
                f.maxes.len() + 1
            } else {
                f.cap_long as nat
            }
            &&& (forall|i: int|
                0 <= i < f2.maxes.len() ==> 0 <= #[trigger] f2.maxes[i] <= MAX_AMPLITUDE)
            &&& (f.maxes.len() == f.cap_long ==> evicted == Some(f.maxes[0]))
            &&& (f.maxes.len() < f.cap_long ==> evicted is None)
        }),
{
    let window2 = ring_push(f.window, f.cap_short, sample);
    assert(forall|i: int|
        0 <= i < window2.len() ==> -MAX_AMPLITUDE <= #[trigger] window2[i] <= MAX_AMPLITUDE);
    lemma_max0_int_bounds(window2, MAX_AMPLITUDE as int);
    let mx = max0_int(window2);
    let maxes2 = ring_push(f.maxes, f.cap_long, mx);
    assert(forall|i: int| 0 <= i < maxes2.len() ==> 0 <= #[trigger] maxes2[i] <= MAX_AMPLITUDE);
}

/// What a well-formed F machine exposes of its closed invariant: the
/// abstract-state invariant, and so the range of its published value.
pub proof fn lemma_f_wf_exposes(f: &F)
    requires
        f.wf(),
    ensures
        f_inv(f@),
        f_threshold(f@) matches Some(v) ==> 0 <= v <= 2001 * MAX_AMPLITUDE,
{
    match f@.phase {
        FPhase::Integrate { value } => {
            crate::folds::lemma_sum_int_bounds(f@.maxes, 0, MAX_AMPLITUDE as int);
            let len = f@.maxes.len();
            assert(len * MAX_AMPLITUDE as int <= 300_000 * MAX_AMPLITUDE as int)
                by (nonlinear_arith)
                requires
                    len <= 300_000,
            ;
            lemma_div_is_ordered(
                sum_int(f@.maxes),
                300_000 * MAX_AMPLITUDE as int,
                F_NORMALIZATION as int,
            );
        },
        _ => {},
    }
}

/// Exact state of the F machine.
#[derive(Clone, Copy)]
enum FState {
    Ignore(usize),
    Init(usize, i64),
    Integrate(i64),
}

/// The F threshold state machine.
pub struct F {
    fs: SamplingFrequency,
    state: FState,
    /// Long window: 300 ms of the short window's successive maxima.
    f_max_window: SlidingWindow<i64>,
    /// Short window: 50 ms of raw samples.
    f_buffer: SlidingWindow<i64>,
}

impl View for F {
    type V = FModel;

    closed spec fn view(&self) -> FModel {
        FModel {
            fs: self.fs@,
            cap_long: self.f_max_window.capacity_spec(),
            cap_short: self.f_buffer.capacity_spec(),
            phase: match self.state {
                FState::Ignore(left) => FPhase::Ignore { left: left as nat },
                FState::Init(left, acc) => FPhase::Init { left: left as nat, acc: acc as int },
                FState::Integrate(value) => FPhase::Integrate { value: value as int },
            },
            maxes: seq_to_int(self.f_max_window@),
            window: seq_to_int(self.f_buffer@),
        }
    }
}

impl F {
    /// Internal consistency: valid windows and the numeric invariant of
    /// the abstract state.
    pub closed spec fn wf(&self) -> bool {
        &&& self.fs.valid()
        &&& self.f_max_window.wf()
        &&& self.f_buffer.wf()
        &&& f_inv(self@)
    }

    /// Wraps the two supplied windows as a fresh F machine, after checking
    /// that their capacities equal the number of samples the fixed 300 ms
    /// and 50 ms durations span at `fs`; a mismatched or zero capacity is
    /// rejected as [`DetectorError::InvalidBufferSize`].
    pub fn new(
        fs: SamplingFrequency,
        f_max_window: SlidingWindow<i64>,
        f_buffer: SlidingWindow<i64>,
    ) -> (r: Result<F, DetectorError>)
        requires
            fs.valid(),
            f_max_window.wf(),
            f_buffer.wf(),
            f_max_window@ == Seq::<i64>::empty(),
            f_buffer@ == Seq::<i64>::empty(),
        ensures
            r is Ok <==> {
                &&& f_max_window.capacity_spec() == spec_ms_to_samples(fs@, 300)
                &&& f_buffer.capacity_spec() == spec_ms_to_samples(fs@, 50)
            },
            (r matches Ok(f) ==> f.wf() && f@ == f_init_model(
                fs@,
                f_max_window.capacity_spec(),
                f_buffer.capacity_spec(),
            )),
            r is Err ==> r == Err::<F, DetectorError>(DetectorError::InvalidBufferSize),
    {
        let expected_long = fs.ms_to_samples(300);
        let expected_short = fs.ms_to_samples(50);
        proof {
            crate::sliding::lemma_window_capacity(&f_max_window);
            crate::sliding::lemma_window_capacity(&f_buffer);
        }
        if f_max_window.capacity() != expected_long || f_buffer.capacity() != expected_short {
            return Err(DetectorError::InvalidBufferSize);
        }
        proof {
            lemma_div_is_ordered(fs@ as int * 300, MAX_SAMPLING_FREQUENCY as int * 300, 1000);
            lemma_div_is_ordered(fs@ as int * 50, MAX_SAMPLING_FREQUENCY as int * 50, 1000);
        }
        let left = fs.ms_to_samples(2650);
        let f = F { fs, state: FState::Ignore(left), f_max_window, f_buffer };
        proof {
            assert(f@.maxes =~= Seq::<int>::empty());
            assert(f@.window =~= Seq::<int>::empty());
            assert(f@ =~= f_init_model(fs@, f.f_max_window.capacity_spec(),
                f.f_buffer.capacity_spec()));
            lemma_div_is_ordered(2650, fs@ as int * 2650, 1000);
        }
        Ok(f)
    }

    /// Returns to the freshly constructed state; windows keep their
    /// storage and capacities.
    pub fn clear(&mut self)
        requires
            old(self).wf(),
        ensures
            final(self).wf(),
            final(self)@ == f_init_model(old(self)@.fs, old(self)@.cap_long, old(self)@.cap_short),
    {
        let left = self.fs.ms_to_samples(2650);
        self.state = FState::Ignore(left);
        self.f_max_window.clear();
        self.f_buffer.clear();
        proof {
            assert(self@.maxes =~= Seq::<int>::empty());
            assert(self@.window =~= Seq::<int>::empty());
            assert(self@ =~= f_init_model(old(self)@.fs, old(self)@.cap_long,
                old(self)@.cap_short));
        }
    }

    /// Pushes the sample through both windows; returns the long window's
    /// evicted maximum and the short window's new maximum.
    fn update_f_buffers(&mut self, sample: i64) -> (r: (Option<i64>, i64))
        requires
            old(self).wf(),
            -MAX_AMPLITUDE <= sample <= MAX_AMPLITUDE,
            old(self)@.phase matches FPhase::Init { .. } || old(self)@.phase
                matches FPhase::Integrate { .. },
        ensures
            ({
                let (f2, mx, evicted) = f_push(old(self)@, sample as int);
                &&& final(self)@ =~= (FModel { phase: old(self)@.phase, ..f2 })
                &&& final(self).fs == old(self).fs
                &&& final(self).state == old(self).state
                &&& r.1 as int == mx
                &&& (match r.0 {
                    Some(v) => evicted == Some(v as int),
                    None => evicted is None,
                })
                &&& final(self).f_max_window.wf()
                &&& final(self).f_buffer.wf()
            }),
    {
        proof {
            lemma_ring_push_to_int(self.f_buffer@, self@.cap_short, sample);
            lemma_f_push_shape(self@, sample as int);
        }
        self.f_buffer.push(sample);
        proof {
            let old_w = seq_to_int(old(self).f_buffer@);
            let new_w = seq_to_int(self.f_buffer@);
            assert(new_w == ring_push(old_w, old(self)@.cap_short, sample as int));
            assert forall|i: int| 0 <= i < new_w.len() implies -MAX_AMPLITUDE
                <= #[trigger] new_w[i] <= MAX_AMPLITUDE by {
                if old_w.len() < old(self)@.cap_short {
                    if i < old_w.len() {
                        assert(new_w[i] == old_w[i]);
                    } else {
                        assert(new_w[i] == sample as int);
                    }
                } else {
                    if i < new_w.len() - 1 {
                        assert(new_w[i] == old_w[i + 1]);
                    } else {
                        assert(new_w[i] == sample as int);
                    }
                }
            }
            assert(forall|i: int| 0 <= i < self.f_buffer@.len() ==> #[trigger] self.f_buffer@[i]
                as int == new_w[i]);
        }
        let items = self.f_buffer.iter_unordered();
        let ghost shift = self.f_buffer.unorder_shift();
        proof {
            let w = self.f_buffer@;
            let n = w.len() as int;
            assert forall|j: int| 0 <= j < items@.len() implies -MAX_AMPLITUDE
                <= #[trigger] items@[j] <= MAX_AMPLITUDE by {
                if j < n - shift {
                    assert(items@[j] == w[shift + j]);
                } else {
                    assert(items@[j] == w[j - (n - shift)]);
                }
            }
            lemma_max0_i64_rotation(self.f_buffer@, shift);
            lemma_max0_to_int(self.f_buffer@);
            crate::folds::lemma_max0_i64_bounds(items@, MAX_AMPLITUDE as int);
        }
        let mut mx: i64 = 0;
        let mut i: usize = 0;
        while i < items.len()
            invariant
                0 <= i <= items@.len(),
                mx as int == max0_i64(items@.take(i as int)),
                forall|j: int|
                    0 <= j < items@.len() ==> -MAX_AMPLITUDE <= #[trigger] items@[j]
                        <= MAX_AMPLITUDE,
                0 <= mx <= MAX_AMPLITUDE,
            decreases items@.len() - i,
        {
            proof {
                assert(items@.take(i + 1).drop_last() =~= items@.take(i as int));
            }
            if items[i] > mx {
                mx = items[i];
            }
            i = i + 1;
        }
        proof {
            assert(items@.take(items@.len() as int) =~= items@);
            lemma_ring_push_to_int(self.f_max_window@, self@.cap_long, mx);
        }
        let evicted = self.f_max_window.push(mx);
        (evicted, mx)
    }

    /// One update by an input sample: advances the settling, seeding or
    /// integrating schedule exactly as [`f_step`] describes.
    pub fn update(&mut self, sample: i64)
        requires
            old(self).wf(),
            -MAX_AMPLITUDE <= sample <= MAX_AMPLITUDE,
        ensures
            final(self).wf(),
            final(self)@ == f_step(old(self)@, sample as int),
    {
        proof {
            lemma_f_step_preserves_inv(old(self)@, sample as int);
        }
        let st = self.state;
        match st {
            FState::Ignore(left) => {
                if left == 1 {
                    let cap = self.f_max_window.capacity();
                    self.state = FState::Init(cap - 1, 0);
                } else {
                    self.state = FState::Ignore(left - 1);
                }
                proof {
                    assert(self@ =~= f_step(old(self)@, sample as int));
                }
            },
            FState::Init(left, acc) => {
                let ghost pre_len = old(self)@.maxes.len();
                proof {
                    assert((pre_len + 1) * MAX_AMPLITUDE == pre_len * MAX_AMPLITUDE
                        + MAX_AMPLITUDE) by (nonlinear_arith);
                    assert(pre_len * MAX_AMPLITUDE as int <= 300_000 * MAX_AMPLITUDE as int)
                        by (nonlinear_arith)
                        requires
                            pre_len <= 300_000,
                    ;
                }
                let acc2 = acc + sample;
                self.update_f_buffers(sample);
                if left == 0 {
                    let cap = self.f_max_window.capacity();
                    let seed = if acc2 >= 0 {
                        acc2
                    } else {
                        0
                    };
                    self.state = FState::Integrate(seed / (cap as i64));
                } else {
                    self.state = FState::Init(left - 1, acc2);
                }
                proof {
                    assert(self@ =~= f_step(old(self)@, sample as int));
                }
            },
            FState::Integrate(value) => {
                let (evicted, mx) = self.update_f_buffers(sample);
                let evicted_max = match evicted {
                    Some(v) => v,
                    None => 0,
                };
                let diff = mx - evicted_max;
                let delta = if diff >= 0 {
                    diff / F_NORMALIZATION
                } else {
                    -((-diff + (F_NORMALIZATION - 1)) / F_NORMALIZATION)
                };
                proof {
                    if diff < 0 {
                        lemma_floor_div(diff as int, F_NORMALIZATION as int);
                    }
                    assert(delta as int == (mx as int - evicted_max as int)
                        / F_NORMALIZATION as int);
                    crate::folds::lemma_sum_int_bounds(old(self)@.maxes, 0, MAX_AMPLITUDE as int);
                    lemma_div_pos_is_pos(sum_int(old(self)@.maxes), F_NORMALIZATION as int);
                    lemma_div_is_ordered(
                        sum_int(old(self)@.maxes),
                        300_000 * MAX_AMPLITUDE as int,
                        F_NORMALIZATION as int,
                    );
                    let pre_len = old(self)@.maxes.len();
                    assert(pre_len * MAX_AMPLITUDE as int <= 300_000 * MAX_AMPLITUDE as int)
                        by (nonlinear_arith)
                        requires
                            pre_len <= 300_000,
                    ;
                }
                let raised = value + delta;
                let clamped = if raised >= 0 {
                    raised
                } else {
                    0
                };
                self.state = FState::Integrate(clamped);
                proof {
                    assert(self@ =~= f_step(old(self)@, sample as int));
                }
            },
        }
    }

    /// The published F threshold component.
    pub fn threshold(&self) -> (r: Option<i64>)
        requires
            self.wf(),
        ensures
            match f_threshold(self@) {
                Some(v) => r matches Some(x) && x as int == v,
                None => r is None,
            },
    {
        match self.state {
            FState::Integrate(value) => Some(value),
            _ => None,
        }
    }
}

/// Rust's truncating division adjusted to floor: for a positive divisor,
/// `-((-a + d - 1) / d)` computes the Euclidean quotient of a negative `a`.
proof fn lemma_floor_div(a: int, d: int)
    requires
        d >= 1,
        a < 0,
    ensures
        a / d == -((-a + d - 1) / d),
{
    let q = a / d;
    let r = a % d;
    vstd::arithmetic::div_mod::lemma_fundamental_div_mod(a, d);
    vstd::arithmetic::div_mod::lemma_mod_division_less_than_divisor(a, d);
    assert(-a + d - 1 == (-q) * d + (d - 1 - r)) by (nonlinear_arith)
        requires
            a == d * q + r,
    ;
    vstd::arithmetic::div_mod::lemma_fundamental_div_mod_converse_div(
        -a + d - 1,
        d,
        -q,
        d - 1 - r,
    );
}

} // verus!
