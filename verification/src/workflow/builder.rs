//! Describing a workflow, and what it asks the broker for when it starts.

use crate::consumer_builder::CreateConsumer;
use crate::error::{invalid, refused, ClientError};
use crate::policy::{AckPolicy, DeliverMode, DiscardPolicy, JournalKind, RetentionPolicy};
use crate::stream_builder::CreateStream;
use crate::text::{bytes_in, decimal, push_decimal, text_of, utf8_lossy};
use crate::workflow::context::StepKind;
use crate::workflow::engine::Workflow;
use crate::workflow::suspended::SuspendedView;
use vstd::prelude::*;
use vstd::slice::slice_to_vec;
use vstd::utf8::encode_utf8;

verus! {

/// Window in which a task's message id is not accepted twice.
pub const TASK_WINDOW_MS: u32 = 300_000;

pub const NO_TRIGGER: &'static str = "trigger subject required";

pub const NO_STEPS: &'static str = "at least one step required";

/// Messages of another stream that start instances.
#[derive(Debug, Clone)]
pub struct SourceDef {
    pub stream_name: Vec<u8>,
    pub subject: Vec<u8>,
}

/// A workflow in the making. Handlers are kept by the owner, in the order of
/// the steps.
#[derive(Debug, Clone)]
pub struct WorkflowBuilder {
    pub name: Vec<u8>,
    pub trigger_subject: Option<Vec<u8>>,
    pub trigger_stream_id: Option<u32>,
    pub sources: Vec<SourceDef>,
    pub steps: Vec<StepKind>,
    /// Which steps can be undone.
    pub compensations: Vec<bool>,
    pub ack_wait_ms: u32,
    pub max_inflight: u16,
    pub max_context_size: usize,
    pub max_retries: u8,
}

impl WorkflowBuilder {
    /// There is a compensation slot for every step.
    pub open spec fn wf(&self) -> bool {
        self.compensations@.len() == self.steps@.len()
    }

    /// The name as text.
    pub open spec fn text(&self) -> Seq<char> {
        text_of(self.name@)
    }

    pub fn new(name: &[u8]) -> (r: WorkflowBuilder)
        ensures
            r.wf(),
            r.name@ == name@,
            r.trigger_subject is None,
            r.trigger_stream_id is None,
            r.sources@.len() == 0,
            r.steps@.len() == 0,
            r.ack_wait_ms == 30_000,
            r.max_inflight == 10,
            r.max_context_size == 262_144,
            r.max_retries == 3,
    {
        WorkflowBuilder {
            name: slice_to_vec(name),
            trigger_subject: None,
            trigger_stream_id: None,
            sources: Vec::new(),
            steps: Vec::new(),
            compensations: Vec::new(),
            ack_wait_ms: 30_000,
            max_inflight: 10,
            max_context_size: 262_144,
            max_retries: 3,
        }
    }

    /// Subject whose messages start instances. Required.
    pub fn trigger(self, subject: &[u8]) -> (r: WorkflowBuilder)
        ensures
            r.trigger_subject matches Some(s) && s@ == subject@,
            r == (WorkflowBuilder { trigger_subject: r.trigger_subject, ..self }),
    {
        WorkflowBuilder { trigger_subject: Some(slice_to_vec(subject)), ..self }
    }

    /// Stream to watch for that subject.
    pub fn trigger_stream(self, stream_id: u32) -> (r: WorkflowBuilder)
        ensures
            r == (WorkflowBuilder { trigger_stream_id: Some(stream_id), ..self }),
    {
        WorkflowBuilder { trigger_stream_id: Some(stream_id), ..self }
    }

    /// Start an instance for every message of a subject of another stream.
    pub fn source(self, stream_name: &[u8], subject: &[u8]) -> (r: WorkflowBuilder)
        ensures
            r.sources@.len() == self.sources@.len() + 1,
            r.sources@.drop_last() == self.sources@,
            r.sources@.last().stream_name@ == stream_name@,
            r.sources@.last().subject@ == subject@,
            r == (WorkflowBuilder { sources: r.sources, ..self }),
    {
        let mut sources = self.sources;
        let ghost before = sources@;
        sources.push(
            SourceDef { stream_name: slice_to_vec(stream_name), subject: slice_to_vec(subject) },
        );
        assert(sources@.drop_last() =~= before);
        WorkflowBuilder { sources, ..self }
    }

    fn append(self, kind: StepKind) -> (r: WorkflowBuilder)
        requires
            self.wf(),
        ensures
            r.wf(),
            r.steps@ == self.steps@.push(kind),
            r.compensations@ == self.compensations@.push(false),
            r == (WorkflowBuilder { steps: r.steps, compensations: r.compensations, ..self }),
    {
        let mut steps = self.steps;
        let mut compensations = self.compensations;
        steps.push(kind);
        compensations.push(false);
        WorkflowBuilder { steps, compensations, ..self }
    }

    /// Append a step.
    pub fn step(self) -> (r: WorkflowBuilder)
        requires
            self.wf(),
        ensures
            r.wf(),
            r.steps@ == self.steps@.push(StepKind::Normal),
            r.compensations@ == self.compensations@.push(false),
            r == (WorkflowBuilder { steps: r.steps, compensations: r.compensations, ..self }),
    {
        self.append(StepKind::Normal)
    }

    /// Append a step that may wait for an event, at most `timeout_ms`
    /// milliseconds; zero: forever.
    pub fn suspend_step(self, timeout_ms: u64) -> (r: WorkflowBuilder)
        requires
            self.wf(),
        ensures
            r.wf(),
            r.steps@ == self.steps@.push(StepKind::Suspend { timeout_ms, on_timeout: false }),
            r.compensations@ == self.compensations@.push(false),
            r == (WorkflowBuilder { steps: r.steps, compensations: r.compensations, ..self }),
    {
        self.append(StepKind::Suspend { timeout_ms, on_timeout: false })
    }

    /// The step added last does something when it has waited too long. Says
    /// nothing of a step that does not wait.
    pub fn on_timeout(self) -> (r: WorkflowBuilder)
        requires
            self.wf(),
        ensures
            r.wf(),
            r == (WorkflowBuilder { steps: r.steps, ..self }),
            if self.steps@.len() == 0 {
                r.steps@ == self.steps@
            } else {
                r.steps@ == self.steps@.update(
                    self.steps@.len() - 1,
                    match self.steps@.last() {
                        StepKind::Suspend { timeout_ms, .. } => StepKind::Suspend {
                            timeout_ms,
                            on_timeout: true,
                        },
                        StepKind::Normal => StepKind::Normal,
                    },
                )
            },
    {
        let mut steps = self.steps;
        let n: usize = steps.len();
        if n > 0 {
            let kind: StepKind = match steps[n - 1] {
                StepKind::Suspend { timeout_ms, .. } => StepKind::Suspend {
                    timeout_ms,
                    on_timeout: true,
                },
                StepKind::Normal => StepKind::Normal,
            };
            steps.set(n - 1, kind);
        }
        WorkflowBuilder { steps, ..self }
    }

    /// The step added last can be undone, should a later one fail for good.
    pub fn compensate(self) -> (r: WorkflowBuilder)
        requires
            self.wf(),
        ensures
            r.wf(),
            r == (WorkflowBuilder { compensations: r.compensations, ..self }),
            r.compensations@ == if self.compensations@.len() == 0 {
                self.compensations@
            } else {
                self.compensations@.update(self.compensations@.len() - 1, true)
            },
    {
        let mut compensations = self.compensations;
        let n: usize = compensations.len();
        if n > 0 {
            compensations.set(n - 1, true);
        }
        WorkflowBuilder { compensations, ..self }
    }

    /// How long the broker waits for the ack of a task.
    pub fn ack_wait_ms(self, ms: u32) -> (r: WorkflowBuilder)
        ensures
            r == (WorkflowBuilder { ack_wait_ms: ms, ..self }),
    {
        WorkflowBuilder { ack_wait_ms: ms, ..self }
    }

    /// Cap on tasks that are being worked on.
    pub fn max_inflight(self, n: u16) -> (r: WorkflowBuilder)
        ensures
            r == (WorkflowBuilder { max_inflight: n, ..self }),
    {
        WorkflowBuilder { max_inflight: n, ..self }
    }

    /// Largest context, in bytes. A step that produces more has its task
    /// handed back; a task that carries more is dropped.
    pub fn max_context_size(self, bytes: usize) -> (r: WorkflowBuilder)
        ensures
            r == (WorkflowBuilder { max_context_size: bytes, ..self }),
    {
        WorkflowBuilder { max_context_size: bytes, ..self }
    }

    /// Attempts at a step before its instance is given up.
    pub fn max_retries(self, n: u8) -> (r: WorkflowBuilder)
        ensures
            r == (WorkflowBuilder { max_retries: n, ..self }),
    {
        WorkflowBuilder { max_retries: n, ..self }
    }

    /// Whether the workflow can start.
    pub fn check(&self) -> (r: Result<(), ClientError>)
        ensures
            if self.trigger_subject is None {
                refused(r, NO_TRIGGER@)
            } else if self.steps@.len() == 0 {
                refused(r, NO_STEPS@)
            } else {
                r is Ok
            },
    {
        if self.trigger_subject.is_none() {
            return Err(invalid(NO_TRIGGER));
        }
        if self.steps.len() == 0 {
            return Err(invalid(NO_STEPS));
        }
        Ok(())
    }

    /// `head`, the name, `tail`.
    fn around(&self, head: &str, tail: &str) -> (r: String)
        ensures
            r@ == head@ + self.text() + tail@,
    {
        let mut s = head.to_owned();
        let name = utf8_lossy(self.name.as_slice());
        s.push_str(name.as_str());
        s.push_str(tail);
        s
    }

    fn stream(&self, name: String, filter: String, window_ms: u32) -> (r: CreateStream)
        ensures
            stream_asks(r, name@, filter@, window_ms),
    {
        CreateStream {
            name: bytes_in(name.as_str()),
            filter: bytes_in(filter.as_str()),
            max_msgs: 0,
            max_bytes: 0,
            max_age_secs: 0,
            replicas: 1,
            journal_kind: JournalKind::Memory.as_u8(),
            retention: RetentionPolicy::Limits.as_u8(),
            discard: DiscardPolicy::Old.as_u8(),
            idempotency_window_ms: window_ms,
        }
    }

    /// The stream of tasks: `_wf_<name>_tasks`, for `_wf.<name>.>`. It takes
    /// no message id twice.
    pub fn task_stream(&self) -> (r: CreateStream)
        ensures
            stream_asks(
                r,
                "_wf_"@ + self.text() + "_tasks"@,
                "_wf."@ + self.text() + ".>"@,
                TASK_WINDOW_MS,
            ),
            r.idempotency_window_ms == 300_000,
    {
        self.stream(self.around("_wf_", "_tasks"), self.around("_wf.", ".>"), TASK_WINDOW_MS)
    }

    /// The stream of dead letters: `_wf_<name>_dlq`, for `_wf.<name>.dlq.>`.
    pub fn dlq_stream(&self) -> (r: CreateStream)
        ensures
            stream_asks(
                r,
                "_wf_"@ + self.text() + "_dlq"@,
                "_wf."@ + self.text() + ".dlq.>"@,
                0,
            ),
    {
        self.stream(self.around("_wf_", "_dlq"), self.around("_wf.", ".dlq.>"), 0)
    }

    fn consumer(
        &self,
        stream_id: u32,
        name: String,
        group: String,
        subject: Vec<u8>,
        max_inflight: u16,
    ) -> (r: CreateConsumer)
        ensures
            consumer_asks(
                r,
                stream_id,
                name@,
                group@,
                subject@,
                max_inflight,
                self.ack_wait_ms,
            ),
    {
        CreateConsumer {
            stream_id,
            name: bytes_in(name.as_str()),
            group: bytes_in(group.as_str()),
            subject,
            max_inflight,
            ack_policy: AckPolicy::Explicit.as_u8(),
            deliver_policy: 0,
            deliver_mode: DeliverMode::Queue.as_u8(),
            ack_wait_ms: self.ack_wait_ms,
            start_seq: 0,
            subject_limits: Vec::new(),
        }
    }

    /// The consumer of one worker. Workers have a name of their own and share
    /// a group, so that each task goes to one of them.
    pub fn worker_consumer(&self, stream_id: u32, worker: &str) -> (r: CreateConsumer)
        ensures
            consumer_asks(
                r,
                stream_id,
                "_wf_"@ + self.text() + "_w"@ + worker@,
                "_wf_"@ + self.text() + "_workers"@,
                encode_utf8("_wf."@ + self.text() + ".>"@),
                self.max_inflight,
                self.ack_wait_ms,
            ),
    {
        let mut name = self.around("_wf_", "_w");
        name.push_str(worker);
        let subject = self.around("_wf.", ".>");
        self.consumer(
            stream_id,
            name,
            self.around("_wf_", "_workers"),
            bytes_in(subject.as_str()),
            self.max_inflight,
        )
    }

    /// The consumer of the trigger subject.
    pub fn trigger_consumer(&self, stream_id: u32, subject: &[u8]) -> (r: CreateConsumer)
        ensures
            consumer_asks(
                r,
                stream_id,
                "_wf_"@ + self.text() + "_trigger"@,
                "_wf_"@ + self.text() + "_trigger"@,
                subject@,
                1,
                self.ack_wait_ms,
            ),
    {
        self.consumer(
            stream_id,
            self.around("_wf_", "_trigger"),
            self.around("_wf_", "_trigger"),
            slice_to_vec(subject),
            1,
        )
    }

    /// The consumer of source number `index`.
    pub fn source_consumer(&self, stream_id: u32, index: usize) -> (r: CreateConsumer)
        requires
            index < self.sources@.len(),
        ensures
            consumer_asks(
                r,
                stream_id,
                "_wf_"@ + self.text() + "_src_"@ + decimal(index as nat),
                "_wf_"@ + self.text() + "_src_"@ + decimal(index as nat),
                self.sources@[index as int].subject@,
                1,
                self.ack_wait_ms,
            ),
    {
        let mut name = self.around("_wf_", "_src_");
        push_decimal(&mut name, index as u64);
        let group = name.clone();
        self.consumer(
            stream_id,
            name,
            group,
            slice_to_vec(self.sources[index].subject.as_slice()),
            1,
        )
    }

    /// The workflow, ready to run.
    pub fn engine(self) -> (r: Workflow)
        ensures
            r.wf(),
            r.name == self.name,
            r.steps == self.steps,
            r.compensations == self.compensations,
            r.max_context_size == self.max_context_size,
            r.max_retries == self.max_retries,
            r.suspended@ == Map::<Seq<char>, SuspendedView>::empty(),
    {
        Workflow::new(
            self.name,
            self.steps,
            self.compensations,
            self.max_context_size,
            self.max_retries,
        )
    }
}

/// A request for a stream without limits, of one replica, kept in memory.
pub open spec fn stream_asks(
    r: CreateStream,
    name: Seq<char>,
    filter: Seq<char>,
    window_ms: u32,
) -> bool {
    &&& r.name@ == encode_utf8(name)
    &&& r.filter@ == encode_utf8(filter)
    &&& r.max_msgs == 0
    &&& r.max_bytes == 0
    &&& r.max_age_secs == 0
    &&& r.replicas == 1
    &&& r.journal_kind == JournalKind::Memory.wire()
    &&& r.retention == RetentionPolicy::Limits.wire()
    &&& r.discard == DiscardPolicy::Old.wire()
    &&& r.idempotency_window_ms == window_ms
}

/// A request for a queue consumer with explicit acks, from the first message
/// on.
pub open spec fn consumer_asks(
    r: CreateConsumer,
    stream_id: u32,
    name: Seq<char>,
    group: Seq<char>,
    subject: Seq<u8>,
    max_inflight: u16,
    ack_wait_ms: u32,
) -> bool {
    &&& r.stream_id == stream_id
    &&& r.name@ == encode_utf8(name)
    &&& r.group@ == encode_utf8(group)
    &&& r.subject@ == subject
    &&& r.max_inflight == max_inflight
    &&& r.ack_policy == AckPolicy::Explicit.wire()
    &&& r.deliver_policy == 0
    &&& r.deliver_mode == DeliverMode::Queue.wire()
    &&& r.ack_wait_ms == ack_wait_ms
    &&& r.start_seq == 0
    &&& r.subject_limits@.len() == 0
}

// ── laws ───────────────────────────────────────────────────────────────────
/// A queue consumer of a workflow hands each message to one member of its
/// group, and again to another where no ack comes: it has the broker's queue
/// mode and explicit acks, and starts with the first message.
pub proof fn queue_consumers_share_and_redeliver(
    r: CreateConsumer,
    stream_id: u32,
    name: Seq<char>,
    group: Seq<char>,
    subject: Seq<u8>,
    max_inflight: u16,
    ack_wait_ms: u32,
)
    requires
        consumer_asks(r, stream_id, name, group, subject, max_inflight, ack_wait_ms),
    ensures
        r.deliver_mode == 1,
        r.ack_policy == 1,
        r.deliver_policy == 0 && r.start_seq == 0,
        r.stream_id == stream_id,
        r.name@ == encode_utf8(name) && r.group@ == encode_utf8(group) && r.subject@ == subject,
        r.max_inflight == max_inflight && r.ack_wait_ms == ack_wait_ms,
        r.subject_limits@.len() == 0,
{
}

/// A stream of a workflow keeps what it captures: it has no limit by number,
/// size or age, and one replica. It refuses repeated message ids for as long
/// as it was asked to.
pub proof fn streams_keep_what_they_capture(
    r: CreateStream,
    name: Seq<char>,
    filter: Seq<char>,
    window_ms: u32,
)
    requires
        stream_asks(r, name, filter, window_ms),
    ensures
        r.name@ == encode_utf8(name) && r.filter@ == encode_utf8(filter),
        r.max_msgs == 0 && r.max_bytes == 0 && r.max_age_secs == 0,
        r.replicas == 1,
        r.idempotency_window_ms == window_ms,
{
}

} // verus!
