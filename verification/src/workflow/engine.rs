//! What a workflow does with each message, and with what its steps return.

use crate::bytes::{begins, starts_with};
use crate::text::{decimal, decimal_injective, text_of, text_round_trip, utf8_lossy};
use crate::workflow::context::{
    ResumeContext, StepContext, StepKind, StepOutcome, StepResult, TimeoutContext,
};
use crate::workflow::messages::{
    cancel_out, compensate_message, compensate_out, dead_letter_message, dead_letter_out,
    event_names_instance, event_prefix, kinds_differ, outs_of, resume_out, retry_message, retry_out,
    step_message, step_out, timeout_message, timeout_out, write_event_prefix, Out, OutView,
};
use crate::workflow::suspended::{SuspendedEntry, SuspendedView, Suspensions};
use crate::workflow::task::{decode_task, task_of, task_round_trip, TaskView};
use vstd::prelude::*;
use vstd::slice::{slice_subrange, slice_to_vec};
use vstd::utf8::encode_utf8;

verus! {

/// What a subject announces.
pub enum EventView {
    Resume(Seq<char>),
    Timeout(Seq<char>),
    Cancel(Seq<char>),
    Task,
}

/// What a subject announces to the workflow `name`.
pub open spec fn event_of(name: Seq<char>, subject: Seq<u8>) -> EventView {
    let resume = event_prefix(name, ".resume."@);
    let timeout = event_prefix(name, ".timeout."@);
    let cancel = event_prefix(name, ".cancel."@);
    if begins(subject, resume) {
        EventView::Resume(text_of(subject.skip(resume.len() as int)))
    } else if begins(subject, timeout) {
        EventView::Timeout(text_of(subject.skip(timeout.len() as int)))
    } else if begins(subject, cancel) {
        EventView::Cancel(text_of(subject.skip(cancel.len() as int)))
    } else {
        EventView::Task
    }
}

/// What there is to do for a message, with text and bytes as sequences.
pub enum WorkView {
    Ack,
    Resume { id: Seq<char>, step: u16, state: Seq<u8>, event: Seq<u8> },
    Timeout { id: Seq<char>, step: u16, state: Seq<u8> },
    Step(TaskView),
    Compensate(TaskView),
}

/// What there is to do for a message.
#[derive(Debug)]
pub enum Work {
    /// Nothing: acknowledge it.
    Ack,
    /// Run the resume handler of the step.
    Resume(ResumeContext),
    /// Run the timeout handler of the step.
    Timeout(TimeoutContext),
    /// Run the step.
    Step(StepContext),
    /// Run the compensation of the step, then acknowledge the message
    /// whatever came of it.
    Compensate(StepContext),
}

/// `ctx` is what task `t` of workflow `name` gives a handler.
pub open spec fn tells(ctx: StepContext, name: Seq<u8>, t: TaskView) -> bool {
    &&& ctx.name@ == name
    &&& ctx.instance_id@ == t.id
    &&& ctx.step_index == t.step
    &&& ctx.attempt == t.attempt
    &&& ctx.context@ == t.context
}

impl Work {
    /// This is the work `v` of workflow `name`.
    pub open spec fn shows(&self, name: Seq<u8>, v: WorkView) -> bool {
        match v {
            WorkView::Ack => self is Ack,
            WorkView::Resume { id, step, state, event } => {
                &&& self matches Work::Resume(ctx)
                &&& ctx.name@ == name
                &&& ctx.instance_id@ == id
                &&& ctx.step_index == step
                &&& ctx.state@ == state
                &&& ctx.event@ == event
            },
            WorkView::Timeout { id, step, state } => {
                &&& self matches Work::Timeout(ctx)
                &&& ctx.name@ == name
                &&& ctx.instance_id@ == id
                &&& ctx.step_index == step
                &&& ctx.state@ == state
            },
            WorkView::Step(t) => self matches Work::Step(ctx) && tells(*ctx, name, t),
            WorkView::Compensate(t) => self matches Work::Compensate(ctx) && tells(*ctx, name, t),
        }
    }
}

/// How a message whose handler resumed an instance is settled.
#[derive(Debug)]
pub enum Settlement {
    /// Publish what there is, then acknowledge.
    Ack(Option<Out>),
    /// Hand it back.
    Nack,
}

/// A message to publish after a while.
#[derive(Debug)]
pub struct Timer {
    pub after_ms: u64,
    pub message: Out,
}

/// How a message whose step has run is settled.
#[derive(Debug)]
pub enum StepEnd {
    /// The instance is finished.
    Ack,
    /// Hand it back.
    Nack,
    /// Publish the next step; acknowledge if that worked, hand back if not.
    Advance(Out),
    /// The step has failed and has attempts left: publish the next attempt;
    /// acknowledge if that worked, hand back if not.
    Retry(Out),
    /// The instance waits. Start the timer, if any, and acknowledge.
    Suspended(Option<Timer>),
    /// The instance has failed for good: publish these in order, and
    /// acknowledge.
    DeadLetter(Vec<Out>),
}

/// What follows the failure of a step.
pub enum FailureView {
    /// The next attempt.
    Retry(OutView),
    /// No attempt is left: the dead letter, then the compensations.
    DeadLetter(Seq<OutView>),
}

/// A running workflow.
pub struct Workflow {
    pub name: Vec<u8>,
    /// The name as text.
    pub text: String,
    pub steps: Vec<StepKind>,
    /// Which steps can be undone.
    pub compensations: Vec<bool>,
    pub max_context_size: usize,
    pub max_retries: u8,
    pub suspended: Suspensions,
}

/// Undo every step below `step`, the latest first.
pub open spec fn compensations_out(
    name: Seq<char>,
    id: Seq<char>,
    step: u16,
    context: Seq<u8>,
) -> Seq<OutView> {
    Seq::new(step as nat, |i: int| compensate_out(name, id, (step - 1 - i) as u16, context))
}

impl Workflow {
    pub open spec fn wf(&self) -> bool {
        &&& self.text@ == text_of(self.name@)
        &&& self.suspended.wf()
        &&& forall|id: Seq<char>| #[trigger]
            self.suspended@.contains_key(id) ==> self.suspended@[id].step_index < 0x8000
    }

    /// Everything but the suspended instances.
    pub open spec fn same_plan(&self, other: Workflow) -> bool {
        &&& self.name == other.name
        &&& self.text == other.text
        &&& self.steps == other.steps
        &&& self.compensations == other.compensations
        &&& self.max_context_size == other.max_context_size
        &&& self.max_retries == other.max_retries
    }

    /// Steps as far as sixteen bits count them.
    pub open spec fn total_steps(&self) -> nat {
        self.steps@.len() % 0x1_0000
    }

    /// A step that may wait stands at this place.
    pub open spec fn waits_at(&self, step: u16) -> bool {
        (step as int) < self.steps@.len() && self.steps@[step as int] is Suspend
    }

    /// A step that does something when it has waited too long stands at this
    /// place.
    pub open spec fn times_out_at(&self, step: u16) -> bool {
        self.waits_at(step) && self.steps@[step as int]->on_timeout
    }

    /// What there is to do for a message.
    pub open spec fn work_for(&self, subject: Seq<u8>, payload: Seq<u8>) -> WorkView {
        let waiting = self.suspended@;
        match event_of(self.text@, subject) {
            EventView::Resume(id) => if waiting.contains_key(id) && self.waits_at(
                waiting[id].step_index,
            ) {
                WorkView::Resume {
                    id,
                    step: waiting[id].step_index,
                    state: waiting[id].state,
                    event: payload,
                }
            } else {
                WorkView::Ack
            },
            EventView::Timeout(id) => if waiting.contains_key(id) && self.times_out_at(
                waiting[id].step_index,
            ) {
                WorkView::Timeout {
                    id,
                    step: waiting[id].step_index,
                    state: waiting[id].state,
                }
            } else {
                WorkView::Ack
            },
            EventView::Cancel(id) => WorkView::Ack,
            EventView::Task => self.work_of_task(payload),
        }
    }

    /// What there is to do for a task. One that cannot be read, or carries too
    /// much, or names a step that is not there, is dropped.
    pub open spec fn work_of_task(&self, payload: Seq<u8>) -> WorkView {
        match task_of(payload) {
            Some(t) => if t.context.len() > self.max_context_size {
                WorkView::Ack
            } else if t.step >= 0x8000 {
                let step = (t.step - 0x8000) as u16;
                if (step as int) < self.compensations@.len() && self.compensations@[step as int] {
                    WorkView::Compensate(TaskView { step, ..t })
                } else {
                    WorkView::Ack
                }
            } else if t.step >= self.steps@.len() {
                WorkView::Ack
            } else {
                WorkView::Step(t)
            },
            None => WorkView::Ack,
        }
    }

    /// The instances that still wait after a message: an event ends the wait
    /// of its instance, a task ends none.
    pub open spec fn still_waiting(&self, subject: Seq<u8>) -> Map<Seq<char>, SuspendedView> {
        match event_of(self.text@, subject) {
            EventView::Resume(id) => self.suspended@.remove(id),
            EventView::Timeout(id) => self.suspended@.remove(id),
            EventView::Cancel(id) => self.suspended@.remove(id),
            EventView::Task => self.suspended@,
        }
    }

    /// What brings an instance to the next step; `None` behind the last one.
    pub open spec fn next_out(&self, id: Seq<char>, step: u16, context: Seq<u8>) -> Option<
        OutView,
    > {
        if step + 1 < self.total_steps() {
            Some(step_out(self.text@, id, (step + 1) as u16, context))
        } else {
            None
        }
    }

    /// How long a suspended step waits: as its handler says, or else as the
    /// step says. Zero: forever.
    pub open spec fn patience(&self, step: u16, timeout_ms: u64) -> u64 {
        if timeout_ms > 0 {
            timeout_ms
        } else {
            match self.steps@[step as int] {
                StepKind::Suspend { timeout_ms: default, .. } => default,
                StepKind::Normal => 0,
            }
        }
    }

    /// What follows when an attempt at a step fails.
    pub open spec fn after_failure(&self, t: TaskView, error: Seq<char>) -> FailureView {
        if t.attempt >= self.max_retries {
            FailureView::DeadLetter(
                seq![
                    dead_letter_out(self.text@, t.id, t.step, t.attempt, error, t.context),
                ] + compensations_out(self.text@, t.id, t.step, t.context),
            )
        } else {
            FailureView::Retry(
                retry_out(self.text@, t.id, t.step, (t.attempt + 1) as u8, t.context),
            )
        }
    }

    /// A workflow with nothing suspended.
    pub fn new(
        name: Vec<u8>,
        steps: Vec<StepKind>,
        compensations: Vec<bool>,
        max_context_size: usize,
        max_retries: u8,
    ) -> (r: Workflow)
        ensures
            r.wf(),
            r.name == name,
            r.steps == steps,
            r.compensations == compensations,
            r.max_context_size == max_context_size,
            r.max_retries == max_retries,
            r.suspended@ == Map::<Seq<char>, SuspendedView>::empty(),
    {
        let text = utf8_lossy(name.as_slice());
        Workflow {
            name,
            text,
            steps,
            compensations,
            max_context_size,
            max_retries,
            suspended: Suspensions::new(),
        }
    }

    fn after(subject: &[u8], prefix: &Vec<u8>) -> (r: Option<String>)
        ensures
            match r {
                Some(id) => begins(subject@, prefix@) && id@ == text_of(
                    subject@.skip(prefix@.len() as int),
                ),
                None => !begins(subject@, prefix@),
            },
    {
        if starts_with(subject, prefix.as_slice()) {
            let tail = slice_subrange(subject, prefix.len(), subject.len());
            assert(tail@ =~= subject@.skip(prefix@.len() as int));
            Some(utf8_lossy(tail))
        } else {
            None
        }
    }

    /// The instance of the wait that an event ends, and where it waits.
    fn end_wait(&mut self, id: &str) -> (r: Option<SuspendedEntry>)
        requires
            old(self).wf(),
        ensures
            final(self).wf(),
            final(self).same_plan(*old(self)),
            final(self).suspended@ == old(self).suspended@.remove(id@),
            match r {
                Some(e) => old(self).suspended@.contains_key(id@) && e@ == old(
                    self,
                ).suspended@[id@],
                None => !old(self).suspended@.contains_key(id@),
            },
    {
        let r = self.suspended.remove(id);
        assert forall|x: Seq<char>| #[trigger]
            self.suspended@.contains_key(x) implies self.suspended@[x].step_index < 0x8000 by {
            assert(old(self).suspended@.contains_key(x));
        }
        r
    }

    /// Take in a message: tell what there is to do, and end the wait that it
    /// concerns. An instance is resumed or timed out at most once per wait;
    /// an event that comes later finds nothing.
    pub fn receive(&mut self, subject: &[u8], payload: &[u8]) -> (r: Work)
        requires
            old(self).wf(),
        ensures
            final(self).wf(),
            final(self).same_plan(*old(self)),
            r.shows(old(self).name@, old(self).work_for(subject@, payload@)),
            final(self).suspended@ == old(self).still_waiting(subject@),
            match old(self).work_for(subject@, payload@) {
                WorkView::Ack => r is Ack,
                WorkView::Resume { id, step, state, event } => {
                    &&& r matches Work::Resume(ctx)
                    &&& ctx.name@ == old(self).name@ && ctx.instance_id@ == id && ctx.step_index
                        == step && ctx.state@ == state && ctx.event@ == event
                },
                WorkView::Timeout { id, step, state } => {
                    &&& r matches Work::Timeout(ctx)
                    &&& ctx.name@ == old(self).name@ && ctx.instance_id@ == id && ctx.step_index
                        == step && ctx.state@ == state
                },
                WorkView::Step(t) => {
                    &&& r matches Work::Step(ctx)
                    &&& ctx.name@ == old(self).name@ && ctx.instance_id@ == t.id && ctx.step_index
                        == t.step && ctx.attempt == t.attempt && ctx.context@ == t.context
                },
                WorkView::Compensate(t) => {
                    &&& r matches Work::Compensate(ctx)
                    &&& ctx.name@ == old(self).name@ && ctx.instance_id@ == t.id && ctx.step_index
                        == t.step && ctx.attempt == t.attempt && ctx.context@ == t.context
                },
            },
            r matches Work::Step(ctx) ==> ctx.step_index < 0x8000 && (ctx.step_index as int) < old(
                self,
            ).steps@.len(),
            r matches Work::Resume(ctx) ==> ctx.step_index < 0x8000,
            r matches Work::Timeout(ctx) ==> ctx.step_index < 0x8000,
    {
        let resume = write_event_prefix(self.text.as_str(), ".resume.");
        match Workflow::after(subject, &resume) {
            Some(id) => {
                return match self.end_wait(id.as_str()) {
                    Some(e) => {
                        let i: usize = e.step_index as usize;
                        let waits: bool = i < self.steps.len() && match self.steps[i] {
                            StepKind::Suspend { .. } => true,
                            StepKind::Normal => false,
                        };
                        if waits {
                            Work::Resume(
                                ResumeContext {
                                    name: slice_to_vec(self.name.as_slice()),
                                    instance_id: id,
                                    step_index: e.step_index,
                                    state: e.state,
                                    event: slice_to_vec(payload),
                                },
                            )
                        } else {
                            Work::Ack
                        }
                    },
                    None => Work::Ack,
                };
            },
            None => {},
        }
        let timeout = write_event_prefix(self.text.as_str(), ".timeout.");
        match Workflow::after(subject, &timeout) {
            Some(id) => {
                return match self.end_wait(id.as_str()) {
                    Some(e) => {
                        let i: usize = e.step_index as usize;
                        let acts: bool = i < self.steps.len() && match self.steps[i] {
                            StepKind::Suspend { on_timeout, .. } => on_timeout,
                            StepKind::Normal => false,
                        };
                        if acts {
                            Work::Timeout(
                                TimeoutContext {
                                    name: slice_to_vec(self.name.as_slice()),
                                    instance_id: id,
                                    step_index: e.step_index,
                                    state: e.state,
                                },
                            )
                        } else {
                            Work::Ack
                        }
                    },
                    None => Work::Ack,
                };
            },
            None => {},
        }
        let cancel = write_event_prefix(self.text.as_str(), ".cancel.");
        match Workflow::after(subject, &cancel) {
            Some(id) => {
                let _entry = self.end_wait(id.as_str());
                return Work::Ack;
            },
            None => {},
        }
        self.task_work(payload)
    }

    fn task_work(&self, payload: &[u8]) -> (r: Work)
        ensures
            r.shows(self.name@, self.work_of_task(payload@)),
            !(r is Resume) && !(r is Timeout),
            r matches Work::Step(ctx) ==> ctx.step_index < 0x8000 && (ctx.step_index as int)
                < self.steps@.len(),
    {
        let t = match decode_task(payload) {
            Some(t) => t,
            None => {
                return Work::Ack;
            },
        };
        if t.context.len() > self.max_context_size {
            return Work::Ack;
        }
        if t.step >= 0x8000 {
            let step: u16 = t.step - 0x8000;
            let i: usize = step as usize;
            if i < self.compensations.len() && self.compensations[i] {
                return Work::Compensate(
                    StepContext {
                        name: slice_to_vec(self.name.as_slice()),
                        instance_id: t.id,
                        step_index: step,
                        attempt: t.attempt,
                        context: t.context,
                    },
                );
            }
            return Work::Ack;
        }
        if t.step as usize >= self.steps.len() {
            return Work::Ack;
        }
        Work::Step(
            StepContext {
                name: slice_to_vec(self.name.as_slice()),
                instance_id: t.id,
                step_index: t.step,
                attempt: t.attempt,
                context: t.context,
            },
        )
    }

    fn next_message(&self, id: &str, step: u16, context: &Vec<u8>) -> (r: Option<Out>)
        requires
            step < 0x8000,
        ensures
            match r {
                Some(o) => self.next_out(id@, step, context@) == Some(o@),
                None => self.next_out(id@, step, context@) is None,
            },
    {
        let total: usize = self.steps.len() % 0x1_0000;
        let next: u16 = step + 1;
        if (next as usize) < total {
            Some(step_message(self.text.as_str(), id, next, context.as_slice()))
        } else {
            None
        }
    }

    /// A resume or timeout handler has returned. A context that is too large
    /// is handed back like a failure.
    pub fn resumed(&self, id: &str, step: u16, result: Result<StepResult, ()>) -> (r: Settlement)
        requires
            self.wf(),
            step < 0x8000,
        ensures
            match result {
                Ok(res) => if res.context@.len() > self.max_context_size {
                    r is Nack
                } else {
                    r matches Settlement::Ack(o) && match o {
                        Some(out) => self.next_out(id@, step, res.context@) == Some(out@),
                        None => self.next_out(id@, step, res.context@) is None,
                    }
                },
                Err(_) => r is Nack,
            },
            result matches Ok(res) && res.context@.len() <= self.max_context_size && step + 1
                < 0x8000 && self.steps@.len() < 0x1_0000 && encode_utf8(id@).len() < 0x1_0000
                ==> if step + 1 < self.steps@.len() {
                &&& r matches Settlement::Ack(Some(out))
                &&& !out.dead_letter
                &&& self.work_for(encode_utf8(out.subject@), out.payload@) == WorkView::Step(
                    TaskView {
                        id: id@,
                        step: (step + 1) as u16,
                        attempt: 0,
                        context: result->Ok_0.context@,
                    },
                )
            } else {
                r == Settlement::Ack(None)
            },
    {
        match result {
            Ok(res) => {
                if res.context.len() > self.max_context_size {
                    Settlement::Nack
                } else {
                    proof {
                        if step + 1 < 0x8000 && self.steps@.len() < 0x1_0000 && encode_utf8(
                            id@,
                        ).len() < 0x1_0000 {
                            done_leads_to_the_next_step(*self, id@, step, res.context@);
                        }
                    }
                    Settlement::Ack(self.next_message(id, step, &res.context))
                }
            },
            Err(_) => Settlement::Nack,
        }
    }

    /// A step has returned.
    pub fn stepped(&mut self, ctx: &StepContext, outcome: Result<StepOutcome, String>) -> (r:
        StepEnd)
        requires
            old(self).wf(),
            ctx.step_index < 0x8000,
            (ctx.step_index as int) < old(self).steps@.len(),
        ensures
            final(self).wf(),
            final(self).same_plan(*old(self)),
            ({
                let id = ctx.instance_id@;
                let step = ctx.step_index;
                match outcome {
                    Ok(StepOutcome::Done(res)) => {
                        &&& final(self).suspended@ == old(self).suspended@
                        &&& if res.context@.len() > old(self).max_context_size {
                            r is Nack
                        } else {
                            match old(self).next_out(id, step, res.context@) {
                                Some(out) => r matches StepEnd::Advance(o) && o@ == out,
                                None => r is Ack,
                            }
                        }
                    },
                    Ok(StepOutcome::Suspend { state, timeout_ms }) => {
                        let patience = old(self).patience(step, timeout_ms);
                        &&& final(self).suspended@ == old(self).suspended@.insert(
                            id,
                            SuspendedView { step_index: step, state: state@, context: ctx.context@ },
                        )
                        &&& r matches StepEnd::Suspended(timer)
                        &&& match timer {
                            Some(t) => patience > 0 && t.after_ms == patience && t.message@
                                == timeout_out(old(self).text@, id, step),
                            None => patience == 0,
                        }
                    },
                    Err(error) => {
                        &&& final(self).suspended@ == old(self).suspended@
                        &&& match old(self).after_failure(
                            TaskView {
                                id,
                                step,
                                attempt: ctx.attempt,
                                context: ctx.context@,
                            },
                            error@,
                        ) {
                            FailureView::Retry(out) => r matches StepEnd::Retry(o) && o@ == out,
                            FailureView::DeadLetter(letters) => r matches StepEnd::DeadLetter(outs)
                                && outs_of(outs@) == letters,
                        }
                    },
                }
            }),
            ({
                let w = *old(self);
                let id = ctx.instance_id@;
                let step = ctx.step_index;
                encode_utf8(id).len() < 0x1_0000 ==> match outcome {
                    Ok(StepOutcome::Done(res)) => res.context@.len() <= w.max_context_size && step
                        + 1 < 0x8000 && w.steps@.len() < 0x1_0000 ==> if step + 1 < w.steps@.len() {
                        &&& r matches StepEnd::Advance(out)
                        &&& !out.dead_letter
                        &&& w.work_for(encode_utf8(out.subject@), out.payload@) == WorkView::Step(
                            TaskView {
                                id,
                                step: (step + 1) as u16,
                                attempt: 0,
                                context: res.context@,
                            },
                        )
                    } else {
                        r is Ack
                    },
                    Ok(StepOutcome::Suspend { state, timeout_ms }) => {
                        let kind = w.steps@[step as int];
                        let limit = if timeout_ms == 0 && kind is Suspend {
                            kind->timeout_ms
                        } else {
                            timeout_ms
                        };
                        &&& r matches StepEnd::Suspended(timer)
                        &&& (timer is Some) == (limit > 0)
                        &&& timer matches Some(t) ==> {
                            &&& t.after_ms == limit
                            &&& final(self).work_for(
                                encode_utf8(t.message.subject@),
                                t.message.payload@,
                            ) == if kind is Suspend && kind->on_timeout {
                                WorkView::Timeout { id, step, state: state@ }
                            } else {
                                WorkView::Ack
                            }
                        }
                    },
                    Err(error) => ctx.context@.len() <= w.max_context_size ==> if ctx.attempt
                        < w.max_retries {
                        &&& r matches StepEnd::Retry(out)
                        &&& !out.dead_letter
                        &&& w.work_for(encode_utf8(out.subject@), out.payload@) == WorkView::Step(
                            TaskView {
                                id,
                                step,
                                attempt: (ctx.attempt + 1) as u8,
                                context: ctx.context@,
                            },
                        )
                    } else {
                        &&& r matches StepEnd::DeadLetter(outs)
                        &&& outs@.len() == 1 + step
                        &&& outs@[0].dead_letter
                        &&& forall|i: int|
                            1 <= i <= step ==> {
                                let undone = (step - i) as u16;
                                &&& !(#[trigger] outs@[i]).dead_letter
                                &&& w.work_for(
                                    encode_utf8(outs@[i].subject@),
                                    outs@[i].payload@,
                                ) == if (undone as int) < w.compensations@.len()
                                    && w.compensations@[undone as int] {
                                    WorkView::Compensate(
                                        TaskView {
                                            id,
                                            step: undone,
                                            attempt: 0,
                                            context: ctx.context@,
                                        },
                                    )
                                } else {
                                    WorkView::Ack
                                }
                            }
                    },
                }
            }),
    {
        let ghost w = *self;
        let ghost id = ctx.instance_id@;
        let ghost step = ctx.step_index;
        let ghost fits = encode_utf8(id).len() < 0x1_0000;
        match outcome {
            Ok(StepOutcome::Done(res)) => {
                if res.context.len() > self.max_context_size {
                    return StepEnd::Nack;
                }
                proof {
                    if fits && step + 1 < 0x8000 && w.steps@.len() < 0x1_0000 {
                        done_leads_to_the_next_step(w, id, step, res.context@);
                    }
                }
                match self.next_message(ctx.instance_id.as_str(), ctx.step_index, &res.context) {
                    Some(out) => StepEnd::Advance(out),
                    None => StepEnd::Ack,
                }
            },
            Ok(StepOutcome::Suspend { state, timeout_ms }) => {
                let patience: u64 = if timeout_ms > 0 {
                    timeout_ms
                } else {
                    match self.steps[ctx.step_index as usize] {
                        StepKind::Suspend { timeout_ms: default, .. } => default,
                        StepKind::Normal => 0,
                    }
                };
                let e = SuspendedEntry {
                    step_index: ctx.step_index,
                    state,
                    context: slice_to_vec(ctx.context.as_slice()),
                };
                self.suspended.insert(ctx.instance_id.as_str(), e);
                assert forall|x: Seq<char>| #[trigger]
                    self.suspended@.contains_key(x) implies self.suspended@[x].step_index
                    < 0x8000 by {
                    if x != ctx.instance_id@ {
                        assert(old(self).suspended@.contains_key(x));
                    }
                }
                proof {
                    timeout_gives_the_state_back(*self, id, step);
                }
                if patience > 0 {
                    let message = timeout_message(
                        self.text.as_str(),
                        ctx.instance_id.as_str(),
                        ctx.step_index,
                    );
                    StepEnd::Suspended(Some(Timer { after_ms: patience, message }))
                } else {
                    StepEnd::Suspended(None)
                }
            },
            Err(error) => {
                let ghost failed = TaskView {
                    id,
                    step,
                    attempt: ctx.attempt,
                    context: ctx.context@,
                };
                proof {
                    if fits && ctx.context@.len() <= w.max_context_size {
                        failure_leads_to_retry_or_undoing(w, failed, error@);
                    }
                }
                if ctx.attempt >= self.max_retries {
                    let outs = self.dead_letter(ctx, error.as_str());
                    proof {
                        let letters = outs_of(outs@);
                        assert forall|i: int| 0 <= i < outs@.len() implies letters[i] == (
                        #[trigger] outs@[i])@ by {}
                    }
                    StepEnd::DeadLetter(outs)
                } else {
                    StepEnd::Retry(
                        retry_message(
                            self.text.as_str(),
                            ctx.instance_id.as_str(),
                            ctx.step_index,
                            ctx.attempt + 1,
                            ctx.context.as_slice(),
                        ),
                    )
                }
            },
        }
    }

    /// What a failure for good publishes: the dead letter, then the
    /// compensations of the completed steps, the latest first.
    fn dead_letter(&self, ctx: &StepContext, error: &str) -> (r: Vec<Out>)
        requires
            ctx.step_index < 0x8000,
        ensures
            outs_of(r@) == seq![
                dead_letter_out(
                    self.text@,
                    ctx.instance_id@,
                    ctx.step_index,
                    ctx.attempt,
                    error@,
                    ctx.context@,
                ),
            ] + compensations_out(self.text@, ctx.instance_id@, ctx.step_index, ctx.context@),
    {
        let letter = dead_letter_message(
            self.text.as_str(),
            ctx.instance_id.as_str(),
            ctx.step_index,
            ctx.attempt,
            error,
            ctx.context.as_slice(),
        );
        let ghost head = seq![letter@];
        let mut out: Vec<Out> = Vec::new();
        out.push(letter);
        let ghost all = compensations_out(
            self.text@,
            ctx.instance_id@,
            ctx.step_index,
            ctx.context@,
        );
        let mut k: u16 = ctx.step_index;
        assert(outs_of(out@) =~= head + all.take(0));
        while k > 0
            invariant
                k <= ctx.step_index < 0x8000,
                all == compensations_out(
                    self.text@,
                    ctx.instance_id@,
                    ctx.step_index,
                    ctx.context@,
                ),
                outs_of(out@) == head + all.take(ctx.step_index - k),
            decreases k,
        {
            k = k - 1;
            let m = compensate_message(
                self.text.as_str(),
                ctx.instance_id.as_str(),
                k,
                ctx.context.as_slice(),
            );
            let ghost v = m@;
            let ghost o0 = out@;
            let ghost i = ctx.step_index - k - 1;
            out.push(m);
            proof {
                assert(outs_of(out@) =~= outs_of(o0).push(v));
                assert(all[i] == v);
                assert(outs_of(out@) =~= head + all.take(i + 1));
            }
        }
        assert(all.take(ctx.step_index as int) =~= all);
        out
    }
}

// ── laws ───────────────────────────────────────────────────────────────────
/// A message with this subject is a task: no kind of event claims it.
proof fn is_task(name: Seq<char>, kind: Seq<char>, tail: Seq<char>)
    requires
        kind == ".step."@ || kind == ".compensate."@,
    ensures
        event_of(name, encode_utf8("_wf."@ + name + kind + tail)) is Task,
{
    reveal_strlit(".step.");
    reveal_strlit(".compensate.");
    reveal_strlit(".resume.");
    reveal_strlit(".timeout.");
    reveal_strlit(".cancel.");
    kinds_differ(name, kind, ".resume."@, tail, 1);
    kinds_differ(name, kind, ".timeout."@, tail, 1);
    if kind == ".step."@ {
        kinds_differ(name, kind, ".cancel."@, tail, 1);
    } else {
        kinds_differ(name, kind, ".cancel."@, tail, 2);
    }
}

/// The message that advances an instance comes back as the next step of that
/// instance, with the context that the step before has produced, and as its
/// first attempt.
pub proof fn next_step_runs(w: Workflow, id: Seq<char>, step: u16, context: Seq<u8>)
    requires
        w.wf(),
        step < 0x8000,
        (step as int) < w.steps@.len(),
        context.len() <= w.max_context_size,
        encode_utf8(id).len() < 0x1_0000,
    ensures
        ({
            let out = step_out(w.text@, id, step, context);
            let t = TaskView { id, step, attempt: 0, context };
            &&& w.work_for(encode_utf8(out.subject), out.payload) == WorkView::Step(t)
            &&& w.still_waiting(encode_utf8(out.subject)) == w.suspended@
        }),
{
    is_task(w.text@, ".step."@, decimal(step as nat));
    task_round_trip(TaskView { id, step, attempt: 0, context });
}

/// The message that retries a step comes back as that step of that instance,
/// with the same context, and as the attempt that it says.
pub proof fn retry_runs(w: Workflow, t: TaskView)
    requires
        w.wf(),
        t.step < 0x8000,
        (t.step as int) < w.steps@.len(),
        t.context.len() <= w.max_context_size,
        encode_utf8(t.id).len() < 0x1_0000,
    ensures
        ({
            let out = retry_out(w.text@, t.id, t.step, t.attempt, t.context);
            &&& w.work_for(encode_utf8(out.subject), out.payload) == WorkView::Step(t)
            &&& w.still_waiting(encode_utf8(out.subject)) == w.suspended@
        }),
{
    is_task(w.text@, ".step."@, decimal(t.step as nat));
    task_round_trip(t);
}

/// What a step that fails every time has led to when it has been retried `n`
/// times: its last messages, or `None` while it is still retried.
pub open spec fn given_up(w: Workflow, t: TaskView, error: Seq<char>, n: nat) -> Option<
    Seq<OutView>,
>
    decreases n,
{
    match w.after_failure(t, error) {
        FailureView::DeadLetter(outs) => Some(outs),
        FailureView::Retry(out) => if n == 0 {
            None
        } else {
            match w.work_for(encode_utf8(out.subject), out.payload) {
                WorkView::Step(next) => given_up(w, next, error, (n - 1) as nat),
                _ => None,
            }
        },
    }
}

proof fn given_up_from(w: Workflow, t: TaskView, error: Seq<char>, n: nat)
    requires
        w.wf(),
        t.step < 0x8000,
        (t.step as int) < w.steps@.len(),
        t.context.len() <= w.max_context_size,
        encode_utf8(t.id).len() < 0x1_0000,
        t.attempt <= w.max_retries,
    ensures
        n < w.max_retries - t.attempt ==> given_up(w, t, error, n) is None,
        n >= w.max_retries - t.attempt ==> given_up(w, t, error, n) == Some(
            seq![
                dead_letter_out(w.text@, t.id, t.step, w.max_retries, error, t.context),
            ] + compensations_out(w.text@, t.id, t.step, t.context),
        ),
    decreases n,
{
    if t.attempt < w.max_retries && n > 0 {
        let next = TaskView { attempt: (t.attempt + 1) as u8, ..t };
        retry_runs(w, next);
        given_up_from(w, next, error, (n - 1) as nat);
    }
}

/// Retries are bounded. A step that fails every time is run once and retried
/// `max_retries` times, no more and no fewer; then its dead letter is
/// published, and the compensations of the steps before it.
pub proof fn retries_are_bounded(
    w: Workflow,
    id: Seq<char>,
    step: u16,
    context: Seq<u8>,
    error: Seq<char>,
    n: nat,
)
    requires
        w.wf(),
        step < 0x8000,
        (step as int) < w.steps@.len(),
        context.len() <= w.max_context_size,
        encode_utf8(id).len() < 0x1_0000,
    ensures
        ({
            let first = TaskView { id, step, attempt: 0, context };
            &&& n < w.max_retries ==> given_up(w, first, error, n) is None
            &&& n >= w.max_retries ==> given_up(w, first, error, n) == Some(
                seq![
                    dead_letter_out(w.text@, id, step, w.max_retries, error, context),
                ] + compensations_out(w.text@, id, step, context),
            )
        }),
{
    given_up_from(w, TaskView { id, step, attempt: 0, context }, error, n);
}

/// No two attempts at a step go out under the same message id.
pub proof fn attempts_have_own_ids(
    name: Seq<char>,
    id: Seq<char>,
    step: u16,
    a: u8,
    b: u8,
    context: Seq<u8>,
)
    requires
        a != b,
    ensures
        retry_out(name, id, step, a, context).msg_id != retry_out(name, id, step, b, context).msg_id,
        a != 0 ==> retry_out(name, id, step, a, context).msg_id != step_out(
            name,
            id,
            step,
            context,
        ).msg_id,
{
    reveal_strlit(":0");
    reveal_strlit(":");
    let head = "wf:"@ + id + ":"@ + decimal(step as nat);
    let x = retry_out(name, id, step, a, context).msg_id;
    let y = retry_out(name, id, step, b, context).msg_id;
    let z = step_out(name, id, step, context).msg_id;
    let k = head.len() as int;
    assert(x.skip(k + 1) =~= decimal(a as nat));
    assert(y.skip(k + 1) =~= decimal(b as nat));
    assert(decimal(0) =~= seq!['0']);
    assert(z.skip(k + 1) =~= decimal(0));
    if x == y {
        decimal_injective(a as nat, b as nat);
    }
    if x == z {
        decimal_injective(a as nat, 0);
    }
}

/// The message that undoes a step comes back as the compensation of that
/// step, where it has one, and is dropped where it has none.
pub proof fn compensation_runs(w: Workflow, id: Seq<char>, step: u16, context: Seq<u8>)
    requires
        w.wf(),
        step < 0x8000,
        context.len() <= w.max_context_size,
        encode_utf8(id).len() < 0x1_0000,
    ensures
        ({
            let out = compensate_out(w.text@, id, step, context);
            let t = TaskView { id, step, attempt: 0, context };
            w.work_for(encode_utf8(out.subject), out.payload) == if (step as int)
                < w.compensations@.len() && w.compensations@[step as int] {
                WorkView::Compensate(t)
            } else {
                WorkView::Ack
            }
        }),
{
    is_task(w.text@, ".compensate."@, decimal(step as nat));
    task_round_trip(TaskView { id, step: (0x8000 + step) as u16, attempt: 0, context });
}

/// Every completed step is undone exactly once, the latest first.
pub proof fn completed_steps_are_undone(
    name: Seq<char>,
    id: Seq<char>,
    step: u16,
    context: Seq<u8>,
    done: u16,
)
    requires
        done < step,
    ensures
        ({
            let outs = compensations_out(name, id, step, context);
            &&& outs.len() == step
            &&& outs[step - 1 - done] == compensate_out(name, id, done, context)
        }),
        forall|i: int|
            0 <= i < step && i != step - 1 - done ==> (#[trigger] compensations_out(
                name,
                id,
                step,
                context,
            )[i]).subject != compensate_out(name, id, done, context).subject,
{
    let outs = compensations_out(name, id, step, context);
    assert forall|i: int| 0 <= i < step && i != step - 1 - done implies (#[trigger] outs[i]).subject
        != compensate_out(name, id, done, context).subject by {
        let k = (step - 1 - i) as u16;
        let base = "_wf."@ + name + ".compensate."@;
        if base + decimal(k as nat) == base + decimal(done as nat) {
            let n = base.len() as int;
            assert((base + decimal(k as nat)).skip(n) =~= decimal(k as nat));
            assert((base + decimal(done as nat)).skip(n) =~= decimal(done as nat));
            crate::text::decimal_injective(k as nat, done as nat);
        }
    }
}

/// What the subjects of events announce.
proof fn event_subjects(name: Seq<char>, id: Seq<char>)
    ensures
        event_of(name, encode_utf8("_wf."@ + name + ".resume."@ + id)) == EventView::Resume(id),
        event_of(name, encode_utf8("_wf."@ + name + ".timeout."@ + id)) == EventView::Timeout(id),
        event_of(name, encode_utf8("_wf."@ + name + ".cancel."@ + id)) == EventView::Cancel(id),
{
    reveal_strlit(".resume.");
    reveal_strlit(".timeout.");
    reveal_strlit(".cancel.");
    text_round_trip(id);
    event_names_instance(name, ".resume."@, id);
    event_names_instance(name, ".timeout."@, id);
    event_names_instance(name, ".cancel."@, id);
    kinds_differ(name, ".timeout."@, ".resume."@, id, 1);
    kinds_differ(name, ".cancel."@, ".resume."@, id, 1);
    kinds_differ(name, ".cancel."@, ".timeout."@, id, 1);
}

/// An event resumes the instance that it names: the step that was suspended
/// gets back the state that it left, and the event.
pub proof fn resume_gives_the_state_back(w: Workflow, id: Seq<char>, seq: u32, event: Seq<u8>)
    requires
        w.wf(),
        w.suspended@.contains_key(id),
        (w.suspended@[id].step_index as int) < w.steps@.len(),
        w.steps@[w.suspended@[id].step_index as int] is Suspend,
    ensures
        ({
            let out = resume_out(w.text@, id, seq, event);
            &&& w.work_for(encode_utf8(out.subject), out.payload) == (WorkView::Resume {
                id,
                step: w.suspended@[id].step_index,
                state: w.suspended@[id].state,
                event,
            })
            &&& w.still_waiting(encode_utf8(out.subject)) == w.suspended@.remove(id)
        }),
{
    event_subjects(w.text@, id);
}

/// The first event ends a wait. What comes after it, a second event, the
/// timeout or a cancellation, finds nothing to do.
pub proof fn late_events_do_nothing(w: Workflow, id: Seq<char>, seq: u32, step: u16, event: Seq<u8>)
    requires
        w.wf(),
        !w.suspended@.contains_key(id),
    ensures
        ({
            let resume = resume_out(w.text@, id, seq, event);
            let timeout = timeout_out(w.text@, id, step);
            let cancel = cancel_out(w.text@, id);
            &&& w.work_for(encode_utf8(resume.subject), resume.payload) is Ack
            &&& w.work_for(encode_utf8(timeout.subject), timeout.payload) is Ack
            &&& w.work_for(encode_utf8(cancel.subject), cancel.payload) is Ack
            &&& w.still_waiting(encode_utf8(resume.subject)) == w.suspended@
            &&& w.still_waiting(encode_utf8(timeout.subject)) == w.suspended@
            &&& w.still_waiting(encode_utf8(cancel.subject)) == w.suspended@
        }),
{
    event_subjects(w.text@, id);
    assert(w.suspended@.remove(id) =~= w.suspended@);
}

/// A cancelled instance waits no longer, and no other instance is touched.
pub proof fn cancel_ends_the_wait(w: Workflow, id: Seq<char>)
    requires
        w.wf(),
    ensures
        ({
            let out = cancel_out(w.text@, id);
            &&& w.work_for(encode_utf8(out.subject), out.payload) is Ack
            &&& w.still_waiting(encode_utf8(out.subject)) == w.suspended@.remove(id)
        }),
{
    event_subjects(w.text@, id);
}

/// When a suspended instance has waited too long, the step that was suspended
/// gets back the state that it left, where something is to be done then. Where
/// nothing is, the wait just ends.
pub proof fn timeout_gives_the_state_back(w: Workflow, id: Seq<char>, step: u16)
    requires
        w.wf(),
        w.suspended@.contains_key(id),
        (w.suspended@[id].step_index as int) < w.steps@.len(),
    ensures
        ({
            let out = timeout_out(w.text@, id, step);
            let e = w.suspended@[id];
            let kind = w.steps@[e.step_index as int];
            &&& w.work_for(encode_utf8(out.subject), out.payload) == if kind is Suspend
                && kind->on_timeout {
                WorkView::Timeout { id, step: e.step_index, state: e.state }
            } else {
                WorkView::Ack
            }
            &&& w.still_waiting(encode_utf8(out.subject)) == w.suspended@.remove(id)
        }),
{
    event_subjects(w.text@, id);
}

/// A step that is done leads to the next one. As long as there is a next step,
/// what is published is, when it is received, the work of that next step: of
/// the same instance, as its first attempt, with the context that the step has
/// produced. Behind the last step nothing is published.
pub proof fn done_leads_to_the_next_step(w: Workflow, id: Seq<char>, step: u16, context: Seq<u8>)
    requires
        w.wf(),
        step + 1 < 0x8000,
        w.steps@.len() < 0x1_0000,
        context.len() <= w.max_context_size,
        encode_utf8(id).len() < 0x1_0000,
    ensures
        match w.next_out(id, step, context) {
            Some(out) => {
                &&& step + 1 < w.steps@.len()
                &&& !out.dead_letter
                &&& w.work_for(encode_utf8(out.subject), out.payload) == WorkView::Step(
                    TaskView { id, step: (step + 1) as u16, attempt: 0, context },
                )
            },
            None => step + 1 >= w.steps@.len(),
        },
{
    if step + 1 < w.steps@.len() {
        next_step_runs(w, id, (step + 1) as u16, context);
    }
}

/// A step that fails is run again, with the same context, as long as it has
/// not been tried `max_retries` times before. Then its dead letter is
/// published, and for every step before it, the latest first, what undoes that
/// step where it can be undone.
pub proof fn failure_leads_to_retry_or_undoing(w: Workflow, t: TaskView, error: Seq<char>)
    requires
        w.wf(),
        t.step < 0x8000,
        (t.step as int) < w.steps@.len(),
        t.context.len() <= w.max_context_size,
        encode_utf8(t.id).len() < 0x1_0000,
    ensures
        match w.after_failure(t, error) {
            FailureView::Retry(out) => {
                &&& t.attempt < w.max_retries
                &&& !out.dead_letter
                &&& w.work_for(encode_utf8(out.subject), out.payload) == WorkView::Step(
                    TaskView { attempt: (t.attempt + 1) as u8, ..t },
                )
            },
            FailureView::DeadLetter(outs) => {
                &&& t.attempt >= w.max_retries
                &&& outs.len() == 1 + t.step
                &&& outs[0].dead_letter
                &&& forall|i: int|
                    1 <= i <= t.step ==> {
                        let undone = (t.step - i) as u16;
                        &&& !(#[trigger] outs[i]).dead_letter
                        &&& w.work_for(encode_utf8(outs[i].subject), outs[i].payload) == if (
                        undone as int) < w.compensations@.len() && w.compensations@[undone as int] {
                            WorkView::Compensate(
                                TaskView { id: t.id, step: undone, attempt: 0, context: t.context },
                            )
                        } else {
                            WorkView::Ack
                        }
                    }
            },
        },
{
    match w.after_failure(t, error) {
        FailureView::Retry(out) => {
            retry_runs(w, TaskView { attempt: (t.attempt + 1) as u8, ..t });
        },
        FailureView::DeadLetter(outs) => {
            let undoing = compensations_out(w.text@, t.id, t.step, t.context);
            assert forall|i: int| 1 <= i <= t.step implies {
                let undone = (t.step - i) as u16;
                &&& !(#[trigger] outs[i]).dead_letter
                &&& w.work_for(encode_utf8(outs[i].subject), outs[i].payload) == if (undone as int)
                    < w.compensations@.len() && w.compensations@[undone as int] {
                    WorkView::Compensate(
                        TaskView { id: t.id, step: undone, attempt: 0, context: t.context },
                    )
                } else {
                    WorkView::Ack
                }
            } by {
                assert(outs[i] == undoing[i - 1]);
                compensation_runs(w, t.id, (t.step - i) as u16, t.context);
            }
        },
    }
}

/// Different steps of an instance go out under different message ids.
pub proof fn steps_have_own_ids(
    name: Seq<char>,
    id: Seq<char>,
    a: u16,
    b: u16,
    x: Seq<u8>,
    y: Seq<u8>,
)
    requires
        a != b,
    ensures
        step_out(name, id, a, x).msg_id != step_out(name, id, b, y).msg_id,
        compensate_out(name, id, a, x).msg_id != compensate_out(name, id, b, y).msg_id,
{
    let m = step_out(name, id, a, x).msg_id;
    let n = step_out(name, id, b, y).msg_id;
    let head = "wf:"@ + id + ":"@;
    reveal_strlit(":0");
    if m == n {
        assert(m.skip(head.len() as int) =~= decimal(a as nat) + ":0"@);
        assert(n.skip(head.len() as int) =~= decimal(b as nat) + ":0"@);
        let da = decimal(a as nat);
        let db = decimal(b as nat);
        assert(da.len() == db.len());
        assert((da + ":0"@).take(da.len() as int) =~= da);
        assert((db + ":0"@).take(db.len() as int) =~= db);
        decimal_injective(a as nat, b as nat);
    }
    let u = compensate_out(name, id, a, x).msg_id;
    let v = compensate_out(name, id, b, y).msg_id;
    let root = "wf:"@ + id + ":comp:"@;
    if u == v {
        assert(u.skip(root.len() as int) =~= decimal(a as nat));
        assert(v.skip(root.len() as int) =~= decimal(b as nat));
        decimal_injective(a as nat, b as nat);
    }
}

/// A task that carries more than the limit, or names a step that is not there,
/// is dropped, and so is one that cannot be read.
pub proof fn unusable_tasks_are_dropped(w: Workflow, t: TaskView, payload: Seq<u8>)
    requires
        w.wf(),
        encode_utf8(t.id).len() < 0x1_0000,
        payload.len() < 5,
    ensures
        ({
            let out = retry_out(w.text@, t.id, t.step, t.attempt, t.context);
            &&& t.context.len() > w.max_context_size ==> w.work_for(
                encode_utf8(out.subject),
                out.payload,
            ) is Ack
            &&& t.step < 0x8000 && t.step >= w.steps@.len() ==> w.work_for(
                encode_utf8(out.subject),
                out.payload,
            ) is Ack
            &&& w.work_for(encode_utf8(out.subject), payload) is Ack
        }),
{
    is_task(w.text@, ".step."@, decimal(t.step as nat));
    task_round_trip(t);
}

/// An event for an instance whose step does not wait has no effect but to end
/// the wait.
pub proof fn only_waiting_steps_resume(w: Workflow, id: Seq<char>, seq: u32, event: Seq<u8>)
    requires
        w.wf(),
        w.suspended@.contains_key(id),
        (w.suspended@[id].step_index as int) >= w.steps@.len()
            || w.steps@[w.suspended@[id].step_index as int] is Normal,
    ensures
        ({
            let out = resume_out(w.text@, id, seq, event);
            &&& w.work_for(encode_utf8(out.subject), out.payload) is Ack
            &&& w.still_waiting(encode_utf8(out.subject)) == w.suspended@.remove(id)
        }),
{
    event_subjects(w.text@, id);
}

} // verus!
