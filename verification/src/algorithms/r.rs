//! The R threshold state machine: a refractory component derived from the
//! recent history of inter-beat intervals.
//!
//! R publishes zero until one average inter-beat interval of quiet has
//! passed since the last detection, then decreases from zero at a rate
//! coupled to M's decay, so that a long-overdue beat faces a lower combined
//! threshold.  The published value is therefore never positive.

use vstd::prelude::*;

use crate::algorithms::m::M_DECREMENT_MAX;
use crate::folds::{lemma_sum_u32_bounds, lemma_sum_u32_rotation, lemma_sum_u32_to_int,
    seq_u32_to_int, sum_int, sum_u32};
use crate::sliding::{SlidingWindow, filled, lemma_ring_push_u32_to_int, ring_push};

verus! {

use vstd::arithmetic::div_mod::{lemma_div_is_ordered, lemma_div_pos_is_pos};

/// One more than the largest detection index: indices live in `u32` and
/// wrap around this modulus.
pub const INDEX_MODULUS: u64 = 0x1_0000_0000;

/// Largest number of decrease steps of one R cycle: one third of the
/// largest representable average interval.
pub const DECREASE_STEPS_MAX: u64 = 0x5555_5555;

/// Abstract state of the R machine.
pub enum RPhase {
    /// No detection seen yet.
    Ignore,
    /// Collecting the first five inter-beat intervals.
    InitBuffer,
    /// Quiet period of two thirds of the average interval after a beat.
    NoDecrease { left: nat, avg: nat },
    /// Decreasing from zero for one third of the average interval.
    Decrease { left: nat, value: int, step: int },
    /// Holding the decreased value until the next beat.
    Constant { value: int },
}

/// Abstract state of the R machine together with its buffer of the five
/// most recent inter-beat intervals and the previous detection index.
#[verifier::ext_equal]
pub struct RModel {
    pub phase: RPhase,
    /// Chronological inter-beat intervals, oldest first.
    pub rr: Seq<int>,
    /// Index of the previous detection, in `0 .. INDEX_MODULUS`.
    pub prev: nat,
}

/// The state of a freshly constructed R machine.
pub open spec fn r_init_model() -> RModel {
    RModel { phase: RPhase::Ignore, rr: Seq::empty(), prev: 0 }
}

/// One per-sample update of the R machine, consuming M's current
/// per-sample decrement.
pub open spec fn r_step(r: RModel, m_decrement: int) -> RModel {
    match r.phase {
        RPhase::NoDecrease { left, avg } => {
            if left == 0 {
                RModel {
                    phase: RPhase::Decrease {
                        left: (avg as int / 3) as nat,
                        value: 0,
                        step: 5 * m_decrement / 7,
                    },
                    ..r
                }
            } else {
                RModel { phase: RPhase::NoDecrease { left: (left - 1) as nat, avg }, ..r }
            }
        },
        RPhase::Decrease { left, value, step } => {
            if left == 0 {
                RModel { phase: RPhase::Constant { value }, ..r }
            } else {
                RModel {
                    phase: RPhase::Decrease { left: (left - 1) as nat, value: value - step, step },
                    ..r
                }
            }
        },
        _ => r,
    }
}

/// The quiet-then-decrease schedule restarted from the current interval
/// buffer: two thirds of the average interval with no decrease.
pub open spec fn r_restarted(rr: Seq<int>) -> RPhase {
    let avg = sum_int(rr) / 5;
    RPhase::NoDecrease { left: (2 * avg / 3) as nat, avg: avg as nat }
}

/// A detection at (wrapped) sample index `idx`: records the inter-beat
/// interval and restarts the quiet-then-decrease schedule once five
/// intervals have been seen.
pub open spec fn r_detection(r: RModel, idx: nat) -> RModel {
    let delta = (idx + INDEX_MODULUS - r.prev) as int % INDEX_MODULUS as int;
    match r.phase {
        RPhase::Ignore => RModel { phase: RPhase::InitBuffer, prev: idx, ..r },
        RPhase::InitBuffer => {
            let rr2 = ring_push(r.rr, 5, delta);
            if rr2.len() == 5 {
                RModel { phase: r_restarted(rr2), rr: rr2, prev: idx }
            } else {
                RModel { phase: RPhase::InitBuffer, rr: rr2, prev: idx }
            }
        },
        _ => {
            let rr2 = ring_push(r.rr, 5, delta);
            RModel { phase: r_restarted(rr2), rr: rr2, prev: idx }
        },
    }
}

/// The published R threshold component: zero until the decrease begins,
/// the (non-positive) decreased value afterwards.
pub open spec fn r_threshold(r: RModel) -> int {
    match r.phase {
        RPhase::Ignore => 0,
        RPhase::InitBuffer => 0,
        RPhase::NoDecrease { .. } => 0,
        RPhase::Decrease { value, .. } => value,
        RPhase::Constant { value } => value,
    }
}

/// Numeric invariant of the R machine: intervals and counters stay in the
/// `u32` range and the decreased value stays above the worst-case product
/// of step count and step size.
pub open spec fn r_inv(r: RModel) -> bool {
    &&& r.rr.len() <= 5
    &&& (forall|i: int| 0 <= i < r.rr.len() ==> 0 <= #[trigger] r.rr[i] < INDEX_MODULUS)
    &&& r.prev < INDEX_MODULUS
    &&& match r.phase {
        RPhase::Ignore => r.rr.len() == 0,
        RPhase::InitBuffer => r.rr.len() < 5,
        RPhase::NoDecrease { left, avg } => {
            &&& r.rr.len() == 5
            &&& avg < INDEX_MODULUS
            &&& left < INDEX_MODULUS
        },
        RPhase::Decrease { left, value, step } => {
            &&& r.rr.len() == 5
            &&& 0 <= step <= M_DECREMENT_MAX
            &&& left <= DECREASE_STEPS_MAX
            &&& value <= 0
            &&& value >= -((DECREASE_STEPS_MAX - left) * step)
        },
        RPhase::Constant { value } => {
            &&& r.rr.len() == 5
            &&& -(DECREASE_STEPS_MAX * M_DECREMENT_MAX as int) <= value <= 0
        },
    }
}

/// One update keeps the R machine inside its numeric ranges.
pub proof fn lemma_r_step_preserves_inv(r: RModel, m_decrement: int)
    requires
        r_inv(r),
        0 <= m_decrement <= M_DECREMENT_MAX,
    ensures
        r_inv(r_step(r, m_decrement)),
{
    match r.phase {
        RPhase::NoDecrease { left, avg } => {
            if left == 0 {
                lemma_div_pos_is_pos(avg as int, 3);
                lemma_div_is_ordered(avg as int, INDEX_MODULUS as int - 1, 3);
                lemma_div_pos_is_pos(5 * m_decrement, 7);
                lemma_div_is_ordered(5 * m_decrement, 7 * M_DECREMENT_MAX as int, 7);
                assert((INDEX_MODULUS as int - 1) / 3 == DECREASE_STEPS_MAX as int);
                assert(7 * M_DECREMENT_MAX as int / 7 == M_DECREMENT_MAX as int);
            }
        },
        RPhase::Decrease { left, value, step } => {
            if left >= 1 {
                assert(value - step >= -((DECREASE_STEPS_MAX - (left - 1)) * step)) by (nonlinear_arith)
                    requires
                        value >= -((DECREASE_STEPS_MAX - left) * step),
                        1 <= left <= DECREASE_STEPS_MAX,
                ;
            } else {
                assert(-((DECREASE_STEPS_MAX - 0) * step) >= -(DECREASE_STEPS_MAX
                    * M_DECREMENT_MAX as int)) by (nonlinear_arith)
                    requires
                        0 <= step <= M_DECREMENT_MAX,
                ;
            }
        },
        _ => {},
    }
}

/// A detection event keeps the R machine inside its numeric ranges.
pub proof fn lemma_r_detection_preserves_inv(r: RModel, idx: nat)
    requires
        r_inv(r),
        idx < INDEX_MODULUS,
    ensures
        r_inv(r_detection(r, idx)),
{
    let delta = (idx + INDEX_MODULUS - r.prev) as int % INDEX_MODULUS as int;
    assert(0 <= delta < INDEX_MODULUS);
    match r.phase {
        RPhase::Ignore => {},
        _ => {
            let rr2 = ring_push(r.rr, 5, delta);
            assert(forall|i: int| 0 <= i < rr2.len() ==> 0 <= #[trigger] rr2[i] < INDEX_MODULUS);
            if rr2.len() == 5 {
                lemma_restart_bounds(rr2);
            }
        },
    }
}

/// The restarted schedule's counters fit in the index range.
proof fn lemma_restart_bounds(rr: Seq<int>)
    requires
        rr.len() == 5,
        forall|i: int| 0 <= i < rr.len() ==> 0 <= #[trigger] rr[i] < INDEX_MODULUS,
    ensures
        ({
            let avg = sum_int(rr) / 5;
            &&& 0 <= avg < INDEX_MODULUS
            &&& 0 <= 2 * avg / 3 < INDEX_MODULUS
        }),
{
    crate::folds::lemma_sum_int_bounds(rr, 0, INDEX_MODULUS as int - 1);
    let total = sum_int(rr);
    lemma_div_pos_is_pos(total, 5);
    lemma_div_is_ordered(total, 5 * (INDEX_MODULUS as int - 1), 5);
    let avg = total / 5;
    lemma_div_pos_is_pos(2 * avg, 3);
    lemma_div_is_ordered(2 * avg, 2 * (INDEX_MODULUS as int - 1), 3);
}

/// What a well-formed R machine exposes of its closed invariant: the
/// abstract-state invariant, and so the range of its published value.
pub proof fn lemma_r_wf_exposes(r: &R)
    requires
        r.wf(),
    ensures
        r_inv(r@),
        -(DECREASE_STEPS_MAX * M_DECREMENT_MAX as int) <= r_threshold(r@) <= 0,
{
    match r@.phase {
        RPhase::Decrease { left, value, step } => {
            assert((DECREASE_STEPS_MAX - left) * step <= DECREASE_STEPS_MAX
                * M_DECREMENT_MAX as int) by (nonlinear_arith)
                requires
                    0 <= step <= M_DECREMENT_MAX,
                    0 <= left <= DECREASE_STEPS_MAX,
            ;
        },
        _ => {},
    }
}

/// Exact state of the R machine.
#[derive(Clone, Copy)]
enum RState {
    Ignore,
    InitBuffer,
    NoDecrease(u32, u32),
    Decrease(u32, i64, i64),
    Constant(i64),
}

/// The R threshold state machine.
pub struct R {
    state: RState,
    rr: SlidingWindow<u32>,
    prev_idx: u32,
}

impl View for R {
    type V = RModel;

    closed spec fn view(&self) -> RModel {
        RModel {
            phase: match self.state {
                RState::Ignore => RPhase::Ignore,
                RState::InitBuffer => RPhase::InitBuffer,
                RState::NoDecrease(left, avg) => RPhase::NoDecrease {
                    left: left as nat,
                    avg: avg as nat,
                },
                RState::Decrease(left, value, step) => RPhase::Decrease {
                    left: left as nat,
                    value: value as int,
                    step: step as int,
                },
                RState::Constant(value) => RPhase::Constant { value: value as int },
            },
            rr: seq_u32_to_int(self.rr@),
            prev: self.prev_idx as nat,
        }
    }
}

impl R {
    /// Internal consistency: a 5-slot interval buffer and the numeric
    /// invariant of the abstract state.
    pub closed spec fn wf(&self) -> bool {
        &&& self.rr.wf()
        &&& self.rr.capacity_spec() == 5
        &&& r_inv(self@)
    }

    /// A fresh R machine that has seen no detection.
    pub fn new() -> (r: R)
        ensures
            r.wf(),
            r@ == r_init_model(),
    {
        let r = R { state: RState::Ignore, rr: SlidingWindow::new(filled(0u32, 5)), prev_idx: 0 };
        proof {
            assert(r@.rr =~= Seq::<int>::empty());
            assert(r@ =~= r_init_model());
        }
        r
    }

    /// Returns to the freshly constructed state.
    pub fn clear(&mut self)
        requires
            old(self).wf(),
        ensures
            final(self).wf(),
            final(self)@ == r_init_model(),
    {
        self.state = RState::Ignore;
        self.rr.clear();
        self.prev_idx = 0;
        proof {
            assert(self@.rr =~= Seq::<int>::empty());
            assert(self@ =~= r_init_model());
        }
    }

    /// Restarts the quiet-then-decrease schedule from the interval buffer.
    fn enter_no_decrease(&mut self)
        requires
            old(self).rr.wf(),
            old(self).rr@.len() == 5,
            old(self).rr.capacity_spec() == 5,
        ensures
            final(self).rr == old(self).rr,
            final(self).prev_idx == old(self).prev_idx,
            final(self)@.phase == r_restarted(seq_u32_to_int(old(self).rr@)),
    {
        let items = self.rr.iter_unordered();
        let ghost shift = self.rr.unorder_shift();
        proof {
            lemma_sum_u32_rotation(self.rr@, shift);
            lemma_sum_u32_to_int(self.rr@);
            lemma_sum_u32_bounds(items@, INDEX_MODULUS as int - 1);
        }
        let mut total: u64 = 0;
        let mut i: usize = 0;
        while i < items.len()
            invariant
                0 <= i <= items@.len(),
                items@.len() == 5,
                total as int == sum_u32(items@.take(i as int)),
                0 <= total <= i * (INDEX_MODULUS - 1),
            decreases items@.len() - i,
        {
            proof {
                assert(items@.take(i + 1).drop_last() =~= items@.take(i as int));
                lemma_sum_u32_bounds(items@.take(i + 1), INDEX_MODULUS as int - 1);
                assert((i as int) * (INDEX_MODULUS - 1) <= 4 * (INDEX_MODULUS - 1))
                    by (nonlinear_arith)
                    requires
                        i as int <= 4,
                ;
            }
            total = total + (items[i] as u64);
            i = i + 1;
        }
        proof {
            assert(items@.take(items@.len() as int) =~= items@);
            lemma_div_pos_is_pos(total as int, 5);
            lemma_div_is_ordered(total as int, 5 * (INDEX_MODULUS as int - 1), 5);
        }
        let rr_avg: u64 = total / 5;
        proof {
            lemma_div_pos_is_pos(2 * rr_avg as int, 3);
            lemma_div_is_ordered(2 * rr_avg as int, 2 * (INDEX_MODULUS as int - 1), 3);
        }
        let quiet: u64 = (rr_avg * 2) / 3;
        self.state = RState::NoDecrease(quiet as u32, rr_avg as u32);
    }

    /// One per-sample update, consuming M's current per-sample decrement to
    /// keep the two decay rates coupled.
    pub fn update(&mut self, m_decrement: i64)
        requires
            old(self).wf(),
            0 <= m_decrement <= M_DECREMENT_MAX,
        ensures
            final(self).wf(),
            final(self)@ == r_step(old(self)@, m_decrement as int),
    {
        proof {
            lemma_r_step_preserves_inv(old(self)@, m_decrement as int);
        }
        let st = self.state;
        match st {
            RState::NoDecrease(left, avg) => {
                if left == 0 {
                    let step = (5 * m_decrement) / 7;
                    self.state = RState::Decrease(avg / 3, 0, step);
                } else {
                    self.state = RState::NoDecrease(left - 1, avg);
                }
            },
            RState::Decrease(left, value, step) => {
                if left == 0 {
                    self.state = RState::Constant(value);
                } else {
                    proof {
                        assert(value - step >= -(DECREASE_STEPS_MAX * M_DECREMENT_MAX as int)
                            - M_DECREMENT_MAX) by (nonlinear_arith)
                            requires
                                value as int >= -((DECREASE_STEPS_MAX - left as nat) * step),
                                0 <= step <= M_DECREMENT_MAX,
                                0 <= left as nat <= DECREASE_STEPS_MAX,
                        ;
                    }
                    self.state = RState::Decrease(left - 1, value - step, step);
                }
            },
            _ => {},
        }
        proof {
            assert(self@ =~= r_step(old(self)@, m_decrement as int));
        }
    }

    /// The published R threshold component.
    pub fn threshold(&self) -> (r: i64)
        requires
            self.wf(),
        ensures
            r as int == r_threshold(self@),
    {
        match self.state {
            RState::Ignore => 0,
            RState::InitBuffer => 0,
            RState::NoDecrease(_, _) => 0,
            RState::Decrease(_, value, _) => value,
            RState::Constant(value) => value,
        }
    }

    /// A detection at (wrapped) sample index `idx`.
    pub fn detection_event(&mut self, idx: u32)
        requires
            old(self).wf(),
        ensures
            final(self).wf(),
            final(self)@ == r_detection(old(self)@, idx as nat),
    {
        proof {
            lemma_r_detection_preserves_inv(old(self)@, idx as nat);
        }
        let delta: u32 = if idx >= self.prev_idx {
            idx - self.prev_idx
        } else {
            (u32::MAX - self.prev_idx) + idx + 1
        };
        proof {
            assert(delta as int == (idx as nat + INDEX_MODULUS - self.prev_idx as nat) as int
                % INDEX_MODULUS as int);
        }
        let st = self.state;
        match st {
            RState::Ignore => {
                self.state = RState::InitBuffer;
            },
            RState::InitBuffer => {
                proof {
                    lemma_ring_push_u32_to_int(self.rr@, 5, delta);
                }
                self.rr.push(delta);
                if self.rr.is_full() {
                    self.enter_no_decrease();
                }
            },
            _ => {
                proof {
                    lemma_ring_push_u32_to_int(self.rr@, 5, delta);
                }
                self.rr.push(delta);
                self.enter_no_decrease();
            },
        }
        self.prev_idx = idx;
        proof {
            assert(self@ =~= r_detection(old(self)@, idx as nat));
        }
    }
}

} // verus!
