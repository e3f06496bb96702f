//! What a sampling run does, in order.

use vstd::prelude::*;

verus! {

/// Number of Gibbs steps to run and samples to collect.
///
/// One *step* updates every free block of the program once.
#[derive(Clone, Copy, Debug)]
pub struct Schedule {
    /// Steps to run before the first sample is recorded.
    pub n_warmup: u32,
    /// Number of samples to record.
    pub n_samples: u32,
    /// Steps between consecutive samples.
    pub steps_per_sample: u32,
}

/// One operation of a run.
#[derive(Clone, Copy, Debug, PartialEq, Eq, Structural)]
pub enum RunOp {
    /// Update every free block once.
    Step,
    /// Record the sample with this index.
    Record(u32),
}

impl Schedule {
    /// Steps that are run before a sample is recorded.
    pub open spec fn steps_before(self, sample: int) -> int {
        self.n_warmup + sample * self.steps_per_sample
    }

    /// Steps of the whole run: none follow the last sample.
    pub open spec fn total_steps(self) -> int {
        if self.n_samples == 0 {
            self.n_warmup as int
        } else {
            self.steps_before(self.n_samples - 1)
        }
    }

    /// The operation at a position of the run: after the warmup, each sample
    /// is followed by the steps that lead to the next one.
    pub open spec fn op_at(self, position: int) -> RunOp {
        let past = position - self.n_warmup;
        let period = self.steps_per_sample + 1;
        if past >= 0 && past % period == 0 {
            RunOp::Record((past / period) as u32)
        } else {
            RunOp::Step
        }
    }

    /// The operations of the run, in order.
    pub open spec fn ops(self) -> Seq<RunOp> {
        Seq::new((self.total_steps() + self.n_samples) as nat, |i: int| self.op_at(i))
    }
}

/// A place in the operations of a run.
#[derive(Clone, Copy, Debug)]
pub struct RunOps {
    pub schedule: Schedule,
    /// Steps left before the next sample.
    pub pending: u32,
    /// Samples recorded so far.
    pub sample: u32,
}

impl RunOps {
    pub open spec fn wf(self) -> bool {
        &&& self.sample <= self.schedule.n_samples
        &&& self.sample == 0 ==> self.pending <= self.schedule.n_warmup
        &&& self.sample > 0 ==> self.pending <= self.schedule.steps_per_sample
        &&& 0 < self.sample == self.schedule.n_samples ==> self.pending == 0
    }

    /// Steps taken so far.
    pub open spec fn steps(self) -> int {
        if 0 < self.sample == self.schedule.n_samples {
            self.schedule.total_steps()
        } else {
            self.schedule.steps_before(self.sample as int) - self.pending
        }
    }

    /// Operations handed out so far.
    pub open spec fn position(self) -> int {
        self.steps() + self.sample
    }

    /// Hand out the next operation.
    pub fn next(&mut self) -> (r: Option<RunOp>)
        requires
            old(self).wf(),
        ensures
            final(self).wf(),
            final(self).schedule == old(self).schedule,
            match r {
                Some(op) => {
                    &&& 0 <= old(self).position() < old(self).schedule.ops().len()
                    &&& op == old(self).schedule.ops()[old(self).position()]
                    &&& final(self).position() == old(self).position() + 1
                },
                None => {
                    &&& old(self).position() == old(self).schedule.ops().len()
                    &&& *final(self) == *old(self)
                },
            },
            match r {
                Some(RunOp::Step) => {
                    &&& old(self).steps() < old(self).schedule.total_steps()
                    &&& final(self).steps() == old(self).steps() + 1
                    &&& final(self).sample == old(self).sample
                },
                Some(RunOp::Record(sample)) => {
                    &&& sample == old(self).sample
                    &&& sample < old(self).schedule.n_samples
                    &&& old(self).steps() == old(self).schedule.steps_before(sample as int)
                    &&& final(self).steps() == old(self).steps()
                    &&& final(self).sample == sample + 1
                },
                None => {
                    &&& old(self).steps() == old(self).schedule.total_steps()
                    &&& old(self).sample == old(self).schedule.n_samples
                },
            },
    {
        if self.pending > 0 {
            proof {
                lemma_step_op(self.schedule, self.sample as int, self.pending as int);
            }
            self.pending = self.pending - 1;
            return Some(RunOp::Step);
        }
        if self.sample == self.schedule.n_samples {
            assert(self.sample == 0 ==> self.sample * self.schedule.steps_per_sample == 0)
                by (nonlinear_arith);
            return None;
        }
        let sample: u32 = self.sample;
        proof {
            lemma_record_op(self.schedule, sample as int);
            lemma_steps_distribute(self.schedule, sample as int);
        }
        self.sample = sample + 1;
        if self.sample < self.schedule.n_samples {
            self.pending = self.schedule.steps_per_sample;
        }
        Some(RunOp::Record(sample))
    }
}

/// The operations of a run, to be handed out one by one.
pub fn run_ops(schedule: &Schedule) -> (r: RunOps)
    ensures
        r.wf(),
        r.schedule == *schedule,
        r.position() == 0,
        r.steps() == 0,
        r.sample == 0,
{
    RunOps { schedule: *schedule, pending: schedule.n_warmup, sample: 0 }
}

pub proof fn lemma_steps_distribute(schedule: Schedule, sample: int)
    ensures
        schedule.steps_before(sample + 1) == schedule.steps_before(sample)
            + schedule.steps_per_sample,
{
    assert((sample + 1) * schedule.steps_per_sample == sample * schedule.steps_per_sample
        + schedule.steps_per_sample) by (nonlinear_arith);
}

proof fn lemma_steps_monotone(schedule: Schedule, a: int, b: int)
    requires
        0 <= a <= b,
    ensures
        schedule.n_warmup <= schedule.steps_before(a) <= schedule.steps_before(b),
{
    assert(0 <= a * schedule.steps_per_sample <= b * schedule.steps_per_sample) by (nonlinear_arith)
        requires
            0 <= a <= b,
            schedule.steps_per_sample >= 0,
    ;
}

pub proof fn lemma_record_op(schedule: Schedule, sample: int)
    requires
        0 <= sample < schedule.n_samples,
    ensures
        schedule.op_at(schedule.steps_before(sample) + sample) == RunOp::Record(sample as u32),
        0 <= schedule.steps_before(sample) + sample < schedule.ops().len(),
{
    let period = schedule.steps_per_sample + 1;
    let past = schedule.steps_before(sample) + sample - schedule.n_warmup;
    assert(past == sample * period) by (nonlinear_arith)
        requires
            past == sample * schedule.steps_per_sample + sample,
            period == schedule.steps_per_sample + 1,
    ;
    vstd::arithmetic::div_mod::lemma_fundamental_div_mod_converse(past, period, sample, 0);
    assert(0 <= past) by (nonlinear_arith)
        requires
            past == sample * period,
            sample >= 0,
            period > 0,
    ;
    lemma_steps_monotone(schedule, sample, schedule.n_samples - 1);
}

pub proof fn lemma_step_op(schedule: Schedule, sample: int, pending: int)
    requires
        0 <= sample <= schedule.n_samples,
        sample == 0 ==> 0 < pending <= schedule.n_warmup,
        sample > 0 ==> sample < schedule.n_samples && 0 < pending <= schedule.steps_per_sample,
    ensures
        schedule.op_at(schedule.steps_before(sample) - pending + sample) == RunOp::Step,
        0 <= schedule.steps_before(sample) - pending < schedule.total_steps(),
{
    if sample > 0 {
        let period = schedule.steps_per_sample + 1;
        let past = schedule.steps_before(sample) - pending + sample - schedule.n_warmup;
        assert(past == (sample - 1) * period + (period - pending)) by (nonlinear_arith)
            requires
                past == sample * schedule.steps_per_sample + sample - pending,
                period == schedule.steps_per_sample + 1,
        ;
        vstd::arithmetic::div_mod::lemma_fundamental_div_mod_converse(
            past,
            period,
            sample - 1,
            period - pending,
        );
        lemma_steps_distribute(schedule, sample - 1);
        lemma_steps_monotone(schedule, sample - 1, sample - 1);
        lemma_steps_monotone(schedule, sample, schedule.n_samples - 1);
    } else if schedule.n_samples > 0 {
        lemma_steps_monotone(schedule, 0, schedule.n_samples - 1);
    }
}

/// Every sample is recorded once, in order, after the warmup and the steps
/// between the samples before it.
pub proof fn samples_follow_their_steps(schedule: Schedule, sample: int, position: int)
    requires
        0 <= sample < schedule.n_samples,
        0 <= position < schedule.ops().len(),
    ensures
        schedule.ops()[position] == RunOp::Record(sample as u32) <==> position
            == schedule.steps_before(sample) + sample,
{
    lemma_record_op(schedule, sample);
    if schedule.ops()[position] == RunOp::Record(sample as u32) {
        let period = schedule.steps_per_sample + 1;
        let past = position - schedule.n_warmup;
        vstd::arithmetic::div_mod::lemma_fundamental_div_mod(past, period);
        let quotient = past / period;
        assert(quotient >= 0 && quotient <= past) by (nonlinear_arith)
            requires
                past == period * quotient + 0,
                past >= 0,
                period > 0,
        ;
        assert(quotient < schedule.n_samples) by (nonlinear_arith)
            requires
                past == period * quotient + 0,
                past < (schedule.n_samples - 1) * schedule.steps_per_sample + schedule.n_samples,
                period == schedule.steps_per_sample + 1,
                schedule.n_samples > 0,
        ;
        assert(quotient == sample);
        assert(position == schedule.steps_before(sample) + sample) by (nonlinear_arith)
            requires
                past == position - schedule.n_warmup,
                past == period * sample + 0,
                period == schedule.steps_per_sample + 1,
                schedule.steps_before(sample) == schedule.n_warmup + sample
                    * schedule.steps_per_sample,
        ;
    }
}

} // verus!
