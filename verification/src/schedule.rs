//! The learning rate: cosine annealing.

use crate::double::Double;
use vstd::prelude::*;

verus! {

/// How the learning rate of a step is found.
#[derive(Clone, Copy, Debug, PartialEq, Eq, Structural)]
pub enum Phase {
    /// The first step has the initial rate.
    Initial,
    /// The cosine has just passed its lowest point: the rate is found from the initial
    /// one.
    Restart,
    /// The rate is found from the one before it.
    Ratio,
}

/// The phase of step `step` where the rate falls for `t_max` steps. Steps count from 0.
pub open spec fn phase_of(step: int, t_max: int) -> Phase {
    if step == 0 {
        Phase::Initial
    } else if t_max > 0 && (step - 1 - t_max) % (2 * t_max) == 0 {
        Phase::Restart
    } else {
        Phase::Ratio
    }
}

/// The largest number of steps that is counted without a gap.
pub const COUNTED: u64 = 0x20_0000_0000_0000;

/// What is kept of a schedule: the number of its last step; 0 before the first.
pub open spec fn record_of(schedule: CosineAnnealingLR) -> u64 {
    if schedule.steps == 0 {
        0
    } else {
        (schedule.steps - 1) as u64
    }
}

/// The schedule after the step that a record gives, with the rate unchanged.
pub open spec fn loaded(schedule: CosineAnnealingLR, record: u64) -> CosineAnnealingLR {
    CosineAnnealingLR { steps: (record + 1) as u64, ..schedule }
}

/// A learning rate that falls along a cosine.
#[derive(Clone, Copy, Debug, PartialEq)]
pub struct CosineAnnealingLR {
    /// The number of steps in which the rate falls.
    pub t_max: u64,
    /// The initial rate.
    pub init_lr: Double,
    /// The steps that were taken.
    pub steps: u64,
    /// The rate of the last step.
    pub current_lr: Double,
}

impl CosineAnnealingLR {
    /// A rate that falls for `t_max` steps.
    pub fn init(t_max: u64, init_lr: Double) -> (r: Self)
        ensures
            r == (CosineAnnealingLR { t_max, init_lr, steps: 0, current_lr: init_lr }),
    {
        CosineAnnealingLR { t_max, init_lr, steps: 0, current_lr: init_lr }
    }

    /// Takes a step and gives its rate. `rate` computes the rate from the number of steps in
    /// which the rate falls, the phase, the number of the step, the initial rate and the
    /// rate before; in the first step it is not asked.
    pub fn step<F: Fn(u64, Phase, u64, Double, Double) -> Double>(&mut self, rate: &F) -> (r: Double)
        requires
            old(self).t_max < COUNTED,
            old(self).steps < COUNTED,
            phase_of(old(self).steps as int, old(self).t_max as int) != Phase::Initial
                ==> call_requires(
                *rate,
                (
                    old(self).t_max,
                    phase_of(old(self).steps as int, old(self).t_max as int),
                    old(self).steps,
                    old(self).init_lr,
                    old(self).current_lr,
                ),
            ),
        ensures
            final(self).steps == old(self).steps + 1,
            final(self).t_max == old(self).t_max,
            final(self).init_lr == old(self).init_lr,
            final(self).current_lr == r,
            phase_of(old(self).steps as int, old(self).t_max as int) == Phase::Initial ==> r
                == old(self).init_lr,
            phase_of(old(self).steps as int, old(self).t_max as int) != Phase::Initial
                ==> call_ensures(
                *rate,
                (
                    old(self).t_max,
                    phase_of(old(self).steps as int, old(self).t_max as int),
                    old(self).steps,
                    old(self).init_lr,
                    old(self).current_lr,
                ),
                r,
            ),
    {
        let lr = match self.phase() {
            Phase::Initial => self.init_lr,
            phase => rate(self.t_max, phase, self.steps, self.init_lr, self.current_lr),
        };
        self.steps = self.steps + 1;
        self.current_lr = lr;
        lr
    }

    /// The phase of the step that comes next.
    pub fn phase(&self) -> (r: Phase)
        requires
            self.t_max < COUNTED,
            self.steps < COUNTED,
        ensures
            r == phase_of(self.steps as int, self.t_max as int),
    {
        if self.steps == 0 {
            return Phase::Initial;
        }
        if self.t_max == 0 {
            return Phase::Ratio;
        }
        let period: u64 = 2 * self.t_max;
        let passed: u64 = self.steps - 1 + self.t_max;
        proof {
            let p = period as int;
            let x = self.steps - 1 - self.t_max;
            assert(x + p == passed);
            vstd::arithmetic::div_mod::lemma_mod_add_multiples_vanish(x, p);
        }
        if passed % period == 0 {
            Phase::Restart
        } else {
            Phase::Ratio
        }
    }

    /// What is kept of the schedule: the number of the last step; 0 before the first.
    pub fn to_record(&self) -> (r: u64)
        ensures
            r == record_of(*self),
    {
        if self.steps == 0 {
            0
        } else {
            self.steps - 1
        }
    }

    /// The schedule after the step that the record gives, with the rate unchanged.
    pub fn load_record(self, record: u64) -> (r: Self)
        requires
            record < COUNTED,
        ensures
            r == loaded(self, record),
    {
        CosineAnnealingLR {
            t_max: self.t_max,
            init_lr: self.init_lr,
            steps: record + 1,
            current_lr: self.current_lr,
        }
    }
}

/// Loading the record of a schedule that has taken a step gives the schedule back.
pub proof fn law_record_gives_the_schedule_back(schedule: CosineAnnealingLR)
    requires
        schedule.steps > 0,
    ensures
        loaded(schedule, record_of(schedule)) == schedule,
{
}

/// The rate does not restart in the steps in which it falls, nor in the one after them:
/// the first restart is two steps after the last of them.
pub proof fn law_first_restart(step: int, t_max: int)
    requires
        t_max > 0,
        0 <= step <= t_max + 1,
    ensures
        phase_of(step, t_max) == Phase::Restart <==> step == t_max + 1,
        phase_of(step, t_max) == Phase::Initial <==> step == 0,
{
    let x = step - 1 - t_max;
    let p = 2 * t_max;
    vstd::arithmetic::div_mod::lemma_mod_add_multiples_vanish(x, p);
    if step == t_max + 1 {
        vstd::arithmetic::div_mod::lemma_small_mod(0, p as nat);
    } else if step > 0 {
        vstd::arithmetic::div_mod::lemma_small_mod((x + p) as nat, p as nat);
    }
}

/// Restarts come every `2 * t_max` steps.
pub proof fn law_restarts_are_periodic(step: int, t_max: int)
    requires
        t_max > 0,
        step > 0,
    ensures
        phase_of(step + 2 * t_max, t_max) == phase_of(step, t_max),
{
    vstd::arithmetic::div_mod::lemma_mod_add_multiples_vanish(step - 1 - t_max, 2 * t_max);
}

/// The rate restarts in exactly the steps that come a whole number of periods of
/// `2 * t_max` steps after step `t_max + 1`. With no steps to fall in, it never restarts.
pub proof fn law_when_the_rate_restarts(step: int, t_max: int)
    requires
        t_max >= 0,
        step > 0,
    ensures
        t_max == 0 ==> phase_of(step, t_max) == Phase::Ratio,
        phase_of(step, t_max) == Phase::Restart ==> exists|m: int|
            m >= 0 && step == t_max + 1 + #[trigger] (m * (2 * t_max)),
        forall|m: int|
            t_max > 0 && m >= 0 && step == t_max + 1 + #[trigger] (m * (2 * t_max)) ==> phase_of(
                step,
                t_max,
            ) == Phase::Restart,
        phase_of(step, t_max) == Phase::Restart || phase_of(step, t_max) == Phase::Ratio,
{
    let p = 2 * t_max;
    let x = step - 1 - t_max;
    if t_max > 0 {
        vstd::arithmetic::div_mod::lemma_fundamental_div_mod(x, p);
        if x % p == 0 {
            let m = x / p;
            assert(p * m == m * p) by (nonlinear_arith);
            assert(m >= 0) by (nonlinear_arith)
                requires
                    x == p * m,
                    x > -p,
                    p > 0,
            ;
            assert(step == t_max + 1 + m * (2 * t_max));
        }
        assert forall|m: int|
            m >= 0 && step == t_max + 1 + #[trigger] (m * (2 * t_max)) implies phase_of(step, t_max)
            == Phase::Restart by {
            vstd::arithmetic::div_mod::lemma_mod_multiples_basic(m, p);
        }
    }
}

/// The record of a schedule is the number of its last step, counted from 0, and 0 before the
/// first; loading it changes nothing but the number of steps.
pub proof fn law_records_count_from_zero(schedule: CosineAnnealingLR, record: u64)
    requires
        record < COUNTED,
    ensures
        schedule.steps > 0 ==> record_of(schedule) == schedule.steps - 1,
        schedule.steps == 0 ==> record_of(schedule) == 0,
        loaded(schedule, record).steps == record + 1,
        loaded(schedule, record).t_max == schedule.t_max,
        loaded(schedule, record).init_lr == schedule.init_lr,
        loaded(schedule, record).current_lr == schedule.current_lr,
{
}

} // verus!
