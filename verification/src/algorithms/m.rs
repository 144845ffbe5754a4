//! The M threshold state machine: a fast-adapting, steep-slope threshold
//! that is high immediately after a detected beat and decays toward a
//! replenished floor.
//!
//! Canonical parameter set: a 3 s warm-up, a 225 ms post-detection disallow
//! window re-armed to at least 200 ms by late steep activity, a 1 s linear
//! decay to 60 % of the refreshed value, and every threshold contribution
//! floored at zero (the refined variant of the algorithm).

use vstd::prelude::*;

use crate::MAX_AMPLITUDE;
use crate::folds::{lemma_sum_int_bounds, lemma_sum_i64_rotation, lemma_sum_to_int, seq_to_int,
    sum_i64, sum_int};
use crate::sampling::{MAX_SAMPLING_FREQUENCY, SamplingFrequency, spec_ms_to_samples};
use crate::sliding::{SlidingWindow, filled, lemma_ring_push_to_int, ring_push};

verus! {

use vstd::arithmetic::div_mod::{lemma_div_is_ordered, lemma_div_is_ordered_by_denominator,
    lemma_div_pos_is_pos};

/// Largest value a single entry of the MM buffer can hold: entries are
/// `3 * mx / 25` for an amplitude `mx <= MAX_AMPLITUDE`, and the artifact
/// clamp only ever pushes smaller values.
pub const MM_ENTRY_MAX: i64 = 2_013_265;

/// Largest published M value: the initial seed `3 * mx / 5` for an
/// amplitude `mx <= MAX_AMPLITUDE`, which also dominates every later sum
/// of five MM entries.
pub const M_VALUE_MAX: i64 = 10_066_329;

/// Largest per-sample decrement: `2 * M_VALUE_MAX / 5`, reached at a
/// sampling frequency of one sample per second.
pub const M_DECREMENT_MAX: i64 = 4_026_531;

/// Abstract state of the M machine.
pub enum MPhase {
    /// Warm-up: tracking the running maximum of the first 3 s of signal.
    Init { left: nat, peak: int },
    /// Post-detection window in which no new detection may re-trigger M and
    /// the steep-slope maximum for the next threshold value is collected.
    Disallow { left: nat, peak: int },
    /// Linear decay over 1 s towards 60 % of the refreshed value.
    Decreasing { left: nat, value: int, step: int },
    /// The decayed floor, kept until the next detection.
    ConstantLow { value: int },
}

/// Abstract state of the M machine together with its MM buffer of the five
/// most recent steep-slope threshold contributions and the per-sample
/// decrement it publishes for R to consume.
#[verifier::ext_equal]
pub struct MModel {
    /// Sampling frequency, samples per second.
    pub fs: nat,
    pub phase: MPhase,
    /// Chronological contents of the MM buffer, oldest first.
    pub mm: Seq<int>,
    /// Published decrement, updated whenever the decay restarts.
    pub decrement: int,
}

pub open spec fn max_int(a: int, b: int) -> int {
    if a >= b {
        a
    } else {
        b
    }
}

/// The state of a freshly constructed M machine.
pub open spec fn m_init_model(fs: nat) -> MModel {
    MModel { fs, phase: MPhase::Init { left: 3 * fs, peak: 0 }, mm: Seq::empty(), decrement: 0 }
}

/// One update of the M machine by an input sample.
pub open spec fn m_step(m: MModel, sample: int) -> MModel {
    match m.phase {
        MPhase::Init { left, peak } => {
            if left == 0 {
                // Warm-up over: M is seeded as 0.6 of the observed maximum
                // and the MM buffer is preset with five averaged copies.
                let value = 3 * max_int(peak, sample) / 5;
                let entry = value / 5;
                let step = 2 * value / (5 * m.fs as int);
                MModel {
                    phase: MPhase::Decreasing { left: m.fs, value, step },
                    mm: Seq::new(5, |i: int| entry),
                    decrement: step,
                    ..m
                }
            } else {
                MModel {
                    phase: MPhase::Init { left: (left - 1) as nat, peak: max_int(peak, sample) },
                    ..m
                }
            }
        },
        MPhase::Disallow { left, peak } => {
            if left == 0 {
                // A new steep-slope contribution 0.6 * mx / 5 enters the MM
                // buffer, clamped to 1.1 times the previous entry if it
                // exceeds 1.5 times it (artifact suppression), and floored
                // at zero; M restarts its decay from the sum of MM.
                let mx = max_int(0, max_int(peak, sample));
                let new_entry = 3 * mx / 25;
                let prev = if m.mm.len() > 0 {
                    m.mm.last()
                } else {
                    0
                };
                let pushed = if 2 * new_entry > 3 * prev {
                    11 * prev / 10
                } else {
                    new_entry
                };
                let mm = ring_push(m.mm, 5, pushed);
                let value = sum_int(mm);
                let step = 2 * value / (5 * m.fs as int);
                MModel { phase: MPhase::Decreasing { left: m.fs, value, step }, mm, decrement: step, ..m }
            } else if sample > peak {
                // Late steep activity re-arms the disallow window to at
                // least 200 ms.
                let floor = spec_ms_to_samples(m.fs, 200);
                let relifted = if left >= floor {
                    left
                } else {
                    floor
                };
                MModel { phase: MPhase::Disallow { left: relifted, peak: sample }, ..m }
            } else {
                MModel { phase: MPhase::Disallow { left: (left - 1) as nat, peak }, ..m }
            }
        },
        MPhase::Decreasing { left, value, step } => {
            if left == 0 {
                MModel { phase: MPhase::ConstantLow { value }, ..m }
            } else {
                MModel {
                    phase: MPhase::Decreasing {
                        left: (left - 1) as nat,
                        value: max_int(0, value - step),
                        step,
                    },
                    ..m
                }
            }
        },
        MPhase::ConstantLow { .. } => m,
    }
}

/// A detection forces M into its 225 ms disallow window, tracking the
/// detected sample as the running steep-slope maximum.
pub open spec fn m_detection(m: MModel, sample: int) -> MModel {
    MModel { phase: MPhase::Disallow { left: spec_ms_to_samples(m.fs, 225), peak: sample }, ..m }
}

/// The published M threshold component: absent while warming up and during
/// the disallow window, the decaying value otherwise.
pub open spec fn m_threshold(m: MModel) -> Option<int> {
    match m.phase {
        MPhase::Init { .. } => None,
        MPhase::Disallow { .. } => None,
        MPhase::Decreasing { value, .. } => Some(value),
        MPhase::ConstantLow { value } => Some(value),
    }
}

/// Numeric invariant of the M machine: every quantity stays inside the
/// ranges that make the update exact `i64` arithmetic.
pub open spec fn m_inv(m: MModel) -> bool {
    &&& 1 <= m.fs <= MAX_SAMPLING_FREQUENCY
    &&& m.mm.len() <= 5
    &&& (forall|i: int| 0 <= i < m.mm.len() ==> 0 <= #[trigger] m.mm[i] <= MM_ENTRY_MAX)
    &&& 0 <= m.decrement <= M_DECREMENT_MAX
    &&& match m.phase {
        MPhase::Init { left, peak } => {
            &&& m.mm.len() == 0
            &&& 0 <= peak <= MAX_AMPLITUDE
            &&& left <= 3 * m.fs
        },
        MPhase::Disallow { left: _, peak } => -MAX_AMPLITUDE <= peak <= MAX_AMPLITUDE,
        MPhase::Decreasing { left, value, step } => {
            &&& 0 <= value <= M_VALUE_MAX
            &&& 0 <= step <= M_DECREMENT_MAX
            &&& left <= m.fs
        },
        MPhase::ConstantLow { value } => 0 <= value <= M_VALUE_MAX,
    }
}

proof fn lemma_step_bound(value: int, fs: nat)
    requires
        0 <= value <= M_VALUE_MAX,
        1 <= fs,
    ensures
        0 <= 2 * value / (5 * fs as int) <= M_DECREMENT_MAX,
{
    lemma_div_pos_is_pos(2 * value, 5 * fs as int);
    lemma_div_is_ordered_by_denominator(2 * value, 5, 5 * fs as int);
    lemma_div_is_ordered(2 * value, 2 * M_VALUE_MAX as int, 5);
}

proof fn lemma_new_value_bound(mx: int)
    requires
        0 <= mx <= MAX_AMPLITUDE,
    ensures
        0 <= 3 * mx / 5 <= M_VALUE_MAX,
        0 <= 3 * mx / 5 / 5 <= MM_ENTRY_MAX,
        0 <= 3 * mx / 25 <= MM_ENTRY_MAX,
{
    lemma_div_pos_is_pos(3 * mx, 5);
    lemma_div_is_ordered(3 * mx, 3 * MAX_AMPLITUDE as int, 5);
    lemma_div_pos_is_pos(3 * mx / 5, 5);
    lemma_div_is_ordered(3 * mx / 5, M_VALUE_MAX as int, 5);
    lemma_div_pos_is_pos(3 * mx, 25);
    lemma_div_is_ordered(3 * mx, 3 * MAX_AMPLITUDE as int, 25);
}

proof fn lemma_pushed_entry_bound(new_entry: int, prev: int)
    requires
        0 <= new_entry <= MM_ENTRY_MAX,
        0 <= prev <= MM_ENTRY_MAX,
    ensures
        ({
            let pushed = if 2 * new_entry > 3 * prev {
                11 * prev / 10
            } else {
                new_entry
            };
            0 <= pushed <= MM_ENTRY_MAX
        }),
{
    if 2 * new_entry > 3 * prev {
        lemma_div_pos_is_pos(11 * prev, 10);
        lemma_div_is_ordered(11 * prev, 11 * 1_342_176int, 10);
    }
}

/// One update keeps the M machine inside its numeric ranges.
pub proof fn lemma_m_step_preserves_inv(m: MModel, sample: int)
    requires
        m_inv(m),
        -MAX_AMPLITUDE <= sample <= MAX_AMPLITUDE,
    ensures
        m_inv(m_step(m, sample)),
{
    match m.phase {
        MPhase::Init { left, peak } => {
            if left == 0 {
                let mx = max_int(peak, sample);
                lemma_new_value_bound(mx);
                let value = 3 * mx / 5;
                lemma_step_bound(value, m.fs);
            }
        },
        MPhase::Disallow { left, peak } => {
            if left == 0 {
                let mx = max_int(0, max_int(peak, sample));
                lemma_new_value_bound(mx);
                let new_entry = 3 * mx / 25;
                let prev = if m.mm.len() > 0 {
                    m.mm.last()
                } else {
                    0
                };
                lemma_pushed_entry_bound(new_entry, prev);
                let pushed = if 2 * new_entry > 3 * prev {
                    11 * prev / 10
                } else {
                    new_entry
                };
                let mm = ring_push(m.mm, 5, pushed);
                assert(forall|i: int| 0 <= i < mm.len() ==> 0 <= #[trigger] mm[i] <= MM_ENTRY_MAX);
                lemma_sum_int_bounds(mm, 0, MM_ENTRY_MAX as int);
                let value = sum_int(mm);
                lemma_step_bound(value, m.fs);
            }
        },
        MPhase::Decreasing { .. } => {},
        MPhase::ConstantLow { .. } => {},
    }
}

/// A detection event keeps the M machine inside its numeric ranges.
pub proof fn lemma_m_detection_preserves_inv(m: MModel, sample: int)
    requires
        m_inv(m),
        -MAX_AMPLITUDE <= sample <= MAX_AMPLITUDE,
    ensures
        m_inv(m_detection(m, sample)),
{
}

/// The M machine after feeding `samples`, one at a time.
pub open spec fn m_run(m: MModel, samples: Seq<int>) -> MModel
    decreases samples.len(),
{
    if samples.len() == 0 {
        m
    } else {
        m_step(m_run(m, samples.drop_last()), samples.last())
    }
}

/// The numeric invariant holds after any bounded sample sequence.
pub proof fn lemma_m_run_preserves_inv(m: MModel, samples: Seq<int>)
    requires
        m_inv(m),
        forall|i: int|
            0 <= i < samples.len() ==> -MAX_AMPLITUDE <= #[trigger] samples[i] <= MAX_AMPLITUDE,
    ensures
        m_inv(m_run(m, samples)),
    decreases samples.len(),
{
    if samples.len() > 0 {
        lemma_m_run_preserves_inv(m, samples.drop_last());
        lemma_m_step_preserves_inv(m_run(m, samples.drop_last()), samples.last());
    }
}

/// Warm-up law: during the first `3 s`-worth of samples the M threshold is
/// absent; on the very next sample it becomes present and non-negative.
pub proof fn lemma_m_warm_up(fs: nat, samples: Seq<int>)
    requires
        1 <= fs <= MAX_SAMPLING_FREQUENCY,
        forall|i: int|
            0 <= i < samples.len() ==> -MAX_AMPLITUDE <= #[trigger] samples[i] <= MAX_AMPLITUDE,
    ensures
        samples.len() <= 3 * fs ==> ({
            let r = m_run(m_init_model(fs), samples);
            &&& m_threshold(r) is None
            &&& (r.phase matches MPhase::Init { left, peak } && left == 3 * fs - samples.len()
                && 0 <= peak <= MAX_AMPLITUDE)
        }),
        samples.len() == 3 * fs + 1 ==> ({
            let t = m_threshold(m_run(m_init_model(fs), samples));
            t is Some && t.unwrap() >= 0
        }),
    decreases samples.len(),
{
    if samples.len() == 0 {
    } else if samples.len() <= 3 * fs {
        lemma_m_warm_up(fs, samples.drop_last());
    } else if samples.len() == 3 * fs + 1 {
        lemma_m_warm_up(fs, samples.drop_last());
        let prev = m_run(m_init_model(fs), samples.drop_last());
        lemma_m_run_preserves_inv(m_init_model(fs), samples.drop_last());
        lemma_m_step_preserves_inv(prev, samples.last());
    }
}

/// Decay law: once M is decaying, one update keeps it decaying or moves it
/// to the constant floor, and the published value never increases and never
/// drops below zero.
pub proof fn lemma_m_decay_monotonic(m: MModel, sample: int)
    requires
        m_inv(m),
        m.phase matches MPhase::Decreasing { .. } || m.phase matches MPhase::ConstantLow { .. },
    ensures
        ({
            let m2 = m_step(m, sample);
            &&& (m2.phase matches MPhase::Decreasing { .. } || m2.phase
                matches MPhase::ConstantLow { .. })
            &&& m_threshold(m) is Some
            &&& m_threshold(m2) is Some
            &&& 0 <= m_threshold(m2).unwrap() <= m_threshold(m).unwrap()
        }),
{
}

/// While the disallow countdown is positive, an update stays in the
/// disallow phase (whose threshold is absent) and the countdown drops by at
/// most one; re-arming can only lengthen it.
pub proof fn lemma_m_disallow_persists(m: MModel, sample: int, left: nat, peak: int)
    requires
        m.phase == (MPhase::Disallow { left, peak }),
        left >= 1,
    ensures
        m_step(m, sample).phase matches MPhase::Disallow { left: l2, .. } && l2 + 1 >= left,
        m_threshold(m_step(m, sample)) is None,
{
}

/// Exact state of the M machine.
#[derive(Clone, Copy)]
enum MState {
    Init(usize, i64),
    Disallow(usize, i64),
    Decreasing(usize, i64, i64),
    ConstantLow(i64),
}

/// The M threshold state machine.
pub struct M {
    state: MState,
    mm: SlidingWindow<i64>,
    fs: SamplingFrequency,
    /// The per-sample decrement of the current decay schedule, consumed by
    /// the R machine on every sample.
    pub current_decrement: i64,
}

impl View for M {
    type V = MModel;

    closed spec fn view(&self) -> MModel {
        MModel {
            fs: self.fs@,
            phase: match self.state {
                MState::Init(left, peak) => MPhase::Init { left: left as nat, peak: peak as int },
                MState::Disallow(left, peak) => MPhase::Disallow {
                    left: left as nat,
                    peak: peak as int,
                },
                MState::Decreasing(left, value, step) => MPhase::Decreasing {
                    left: left as nat,
                    value: value as int,
                    step: step as int,
                },
                MState::ConstantLow(value) => MPhase::ConstantLow { value: value as int },
            },
            mm: seq_to_int(self.mm@),
            decrement: self.current_decrement as int,
        }
    }
}

impl M {
    /// Internal consistency: a valid frequency, a 5-slot MM buffer and the
    /// numeric invariant of the abstract state.
    pub closed spec fn wf(&self) -> bool {
        &&& self.fs.valid()
        &&& self.mm.wf()
        &&& self.mm.capacity_spec() == 5
        &&& m_inv(self@)
    }

    /// What a well-formed M machine exposes of its closed invariant: the
    /// abstract-state invariant on its model.
    pub proof fn wf_exposes(&self)
        requires
            self.wf(),
        ensures
            m_inv(self@),
    {
    }

    /// The published per-sample decrement, as the model sees it.
    pub fn decrement(&self) -> (r: i64)
        ensures
            r as int == self@.decrement,
    {
        self.current_decrement
    }

    /// A fresh M machine in its 3 s warm-up.
    pub fn new(fs: SamplingFrequency) -> (m: M)
        requires
            fs.valid(),
        ensures
            m.wf(),
            m@ == m_init_model(fs@),
    {
        let n = fs.s_to_samples(3);
        let m = M {
            state: MState::Init(n, 0),
            mm: SlidingWindow::new(filled(0i64, 5)),
            fs,
            current_decrement: 0,
        };
        proof {
            assert(m@.mm =~= Seq::<int>::empty());
            assert(m@ =~= m_init_model(fs@));
        }
        m
    }

    /// Returns to the freshly constructed state.
    pub fn clear(&mut self)
        requires
            old(self).wf(),
        ensures
            final(self).wf(),
            final(self)@ == m_init_model(old(self)@.fs),
    {
        let n = self.fs.s_to_samples(3);
        self.mm.clear();
        self.state = MState::Init(n, 0);
        self.current_decrement = 0;
        proof {
            assert(self@.mm =~= Seq::<int>::empty());
            assert(self@ =~= m_init_model(self.fs@));
        }
    }

    /// Sum of the MM buffer: M is the average of five contributions, each
    /// already divided by five as it was pushed.
    fn m(&self) -> (r: i64)
        requires
            self.mm.wf(),
            self.mm@.len() <= 5,
            forall|i: int| 0 <= i < self.mm@.len() ==> 0 <= #[trigger] self.mm@[i] <= MM_ENTRY_MAX,
        ensures
            r as int == sum_int(seq_to_int(self.mm@)),
            0 <= r <= 5 * MM_ENTRY_MAX,
    {
        let items = self.mm.iter_unordered();
        let ghost shift = self.mm.unorder_shift();
        proof {
            lemma_sum_i64_rotation(self.mm@, shift);
            lemma_sum_to_int(self.mm@);
            crate::folds::lemma_sum_i64_bounds(items@, 0, MM_ENTRY_MAX as int);
        }
        let mut total: i64 = 0;
        let mut i: usize = 0;
        while i < items.len()
            invariant
                0 <= i <= items@.len(),
                items@.len() <= 5,
                forall|j: int| 0 <= j < items@.len() ==> 0 <= #[trigger] items@[j] <= MM_ENTRY_MAX,
                total as int == sum_i64(items@.take(i as int)),
                0 <= total <= i * MM_ENTRY_MAX,
            decreases items@.len() - i,
        {
            proof {
                assert(items@.take(i + 1).drop_last() =~= items@.take(i as int));
                crate::folds::lemma_sum_i64_bounds(items@.take(i + 1), 0, MM_ENTRY_MAX as int);
            }
            total = total + items[i];
            i = i + 1;
        }
        proof {
            assert(items@.take(items@.len() as int) =~= items@);
        }
        total
    }

    /// One update by an input sample: advances the warm-up, disallow or
    /// decay schedule exactly as [`m_step`] describes.
    pub fn update(&mut self, sample: i64)
        requires
            old(self).wf(),
            -MAX_AMPLITUDE <= sample <= MAX_AMPLITUDE,
        ensures
            final(self).wf(),
            final(self)@ == m_step(old(self)@, sample as int),
    {
        proof {
            lemma_m_step_preserves_inv(old(self)@, sample as int);
        }
        let st = self.state;
        match st {
            MState::Init(left, peak) => {
                if left == 0 {
                    let mx = if peak >= sample {
                        peak
                    } else {
                        sample
                    };
                    proof {
                        lemma_new_value_bound(mx as int);
                    }
                    let value = 3 * mx / 5;
                    let entry = value / 5;
                    let ghost pre = *self;
                    let mut k: usize = 0;
                    while k < 5
                        invariant
                            0 <= k <= 5,
                            self.mm.wf(),
                            self.mm.capacity_spec() == 5,
                            self.mm@ =~= Seq::new(k as nat, |i: int| entry),
                            self.state == pre.state,
                            self.fs == pre.fs,
                            self.current_decrement == pre.current_decrement,
                        decreases 5 - k,
                    {
                        self.mm.push(entry);
                        proof {
                            assert(self.mm@ =~= Seq::new((k + 1) as nat, |i: int| entry));
                        }
                        k = k + 1;
                    }
                    let n = self.fs.s_to_samples(1);
                    proof {
                        lemma_step_bound(value as int, self.fs@);
                        assert(5 * (n as int) == 5 * self.fs@);
                    }
                    let step = (2 * value) / (5 * (n as i64));
                    self.current_decrement = step;
                    self.state = MState::Decreasing(n, value, step);
                    proof {
                        assert(seq_to_int(Seq::new(5nat, |i: int| entry))
                            =~= Seq::new(5nat, |i: int| entry as int));
                        assert(self@ =~= m_step(old(self)@, sample as int));
                    }
                } else {
                    let new_peak = if peak >= sample {
                        peak
                    } else {
                        sample
                    };
                    self.state = MState::Init(left - 1, new_peak);
                    proof {
                        assert(self@ =~= m_step(old(self)@, sample as int));
                    }
                }
            },
            MState::Disallow(left, peak) => {
                if left == 0 {
                    let mx0 = if peak >= sample {
                        peak
                    } else {
                        sample
                    };
                    let mx = if mx0 >= 0 {
                        mx0
                    } else {
                        0
                    };
                    proof {
                        lemma_new_value_bound(mx as int);
                    }
                    let new_entry = 3 * mx / 25;
                    let prev = match self.mm.last() {
                        Some(v) => v,
                        None => 0,
                    };
                    proof {
                        lemma_pushed_entry_bound(new_entry as int, prev as int);
                    }
                    let pushed = if 2 * new_entry > 3 * prev {
                        (11 * prev) / 10
                    } else {
                        new_entry
                    };
                    proof {
                        lemma_ring_push_to_int(self.mm@, 5, pushed);
                    }
                    self.mm.push(pushed);
                    proof {
                        let old_mm = old(self)@.mm;
                        let new_mm = seq_to_int(self.mm@);
                        assert(new_mm == ring_push(old_mm, 5, pushed as int));
                        assert forall|i: int| 0 <= i < new_mm.len() implies 0 <= #[trigger] new_mm[i]
                            <= MM_ENTRY_MAX by {
                            if old_mm.len() < 5 {
                                if i < old_mm.len() {
                                    assert(new_mm[i] == old_mm[i]);
                                } else {
                                    assert(new_mm[i] == pushed as int);
                                }
                            } else {
                                if i < new_mm.len() - 1 {
                                    assert(new_mm[i] == old_mm[i + 1]);
                                } else {
                                    assert(new_mm[i] == pushed as int);
                                }
                            }
                        }
                        assert(forall|i: int| 0 <= i < self.mm@.len() ==> #[trigger] self.mm@[i]
                            as int == new_mm[i]);
                    }
                    let value = self.m();
                    proof {
                        lemma_sum_int_bounds(seq_to_int(self.mm@), 0, MM_ENTRY_MAX as int);
                        lemma_step_bound(value as int, self.fs@);
                    }
                    let n = self.fs.s_to_samples(1);
                    proof {
                        assert(5 * (n as int) == 5 * self.fs@);
                    }
                    let step = (2 * value) / (5 * (n as i64));
                    self.current_decrement = step;
                    self.state = MState::Decreasing(n, value, step);
                    proof {
                        assert(self@ =~= m_step(old(self)@, sample as int));
                    }
                } else if sample > peak {
                    let floor = self.fs.ms_to_samples(200);
                    let relifted = if left >= floor {
                        left
                    } else {
                        floor
                    };
                    self.state = MState::Disallow(relifted, sample);
                    proof {
                        assert(self@ =~= m_step(old(self)@, sample as int));
                    }
                } else {
                    self.state = MState::Disallow(left - 1, peak);
                    proof {
                        assert(self@ =~= m_step(old(self)@, sample as int));
                    }
                }
            },
            MState::Decreasing(left, value, step) => {
                if left == 0 {
                    self.state = MState::ConstantLow(value);
                } else {
                    let lowered = value - step;
                    let clamped = if lowered >= 0 {
                        lowered
                    } else {
                        0
                    };
                    self.state = MState::Decreasing(left - 1, clamped, step);
                }
                proof {
                    assert(self@ =~= m_step(old(self)@, sample as int));
                }
            },
            MState::ConstantLow(_) => {
                proof {
                    assert(self@ =~= m_step(old(self)@, sample as int));
                }
            },
        }
    }

    /// The published M threshold component.
    pub fn threshold(&self) -> (r: Option<i64>)
        requires
            self.wf(),
        ensures
            match m_threshold(self@) {
                Some(v) => r matches Some(x) && x as int == v,
                None => r is None,
            },
    {
        match self.state {
            MState::Init(_, _) => None,
            MState::Disallow(_, _) => None,
            MState::Decreasing(_, value, _) => Some(value),
            MState::ConstantLow(value) => Some(value),
        }
    }

    /// A detection at the given sample: no detection may re-trigger M for
    /// the next 225 ms, while the steep-slope maximum is re-collected.
    pub fn detection_event(&mut self, sample: i64)
        requires
            old(self).wf(),
            -MAX_AMPLITUDE <= sample <= MAX_AMPLITUDE,
        ensures
            final(self).wf(),
            final(self)@ == m_detection(old(self)@, sample as int),
    {
        let n = self.fs.ms_to_samples(225);
        self.state = MState::Disallow(n, sample);
        proof {
            lemma_m_detection_preserves_inv(old(self)@, sample as int);
            assert(self@ =~= m_detection(old(self)@, sample as int));
        }
    }
}

} // verus!
