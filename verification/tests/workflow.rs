use arbitro_client::workflow::builder::WorkflowBuilder;
use arbitro_client::workflow::context::{StepContext, StepKind, StepOutcome, StepResult};
use arbitro_client::workflow::engine::{Settlement, StepEnd, Work, Workflow};
use arbitro_client::workflow::handle::{InstanceIds, WorkflowHandle};
use arbitro_client::workflow::messages::{cancel_message, resume_message, step_message, Out};
use arbitro_client::workflow::task::{decode_task, encode_task};

fn done(context: &[u8]) -> Result<StepOutcome, String> {
    Ok(StepOutcome::Done(StepResult { context: context.to_vec() }))
}

fn failed() -> Result<StepOutcome, String> {
    Err("boom".to_string())
}

fn three_steps() -> Workflow {
    WorkflowBuilder::new(b"order")
        .trigger(b"orders.new")
        .step()
        .compensate()
        .suspend_step(5_000)
        .on_timeout()
        .step()
        .max_retries(2)
        .max_context_size(64)
        .engine()
}

fn receive(w: &mut Workflow, out: &Out) -> Work {
    w.receive(out.subject.as_bytes(), &out.payload)
}

fn step(w: &mut Workflow, out: &Out) -> StepContext {
    match receive(w, out) {
        Work::Step(ctx) => ctx,
        _ => panic!("expected a step"),
    }
}

#[test]
fn tasks_read_back() {
    let bytes = encode_task("i7", 3, 1, b"ctx");
    assert_eq!(bytes, vec![2, 0, b'i', b'7', 3, 0, 1, b'c', b't', b'x']);
    let t = decode_task(&bytes).unwrap();
    assert_eq!((t.id.as_str(), t.step, t.attempt), ("i7", 3, 1));
    assert_eq!(t.context, b"ctx".to_vec());
    assert!(decode_task(&bytes[..4]).is_none());
    assert!(decode_task(&bytes[..6]).is_none());
}

#[test]
fn an_instance_runs_from_step_to_step() {
    let mut w = three_steps();
    let first = step_message("order", "1", 0, b"in");
    assert_eq!(first.subject, "_wf.order.step.0");
    assert_eq!(first.msg_id, "wf:1:0:0");
    let ctx = step(&mut w, &first);
    assert_eq!((ctx.instance_id.as_str(), ctx.step_index), ("1", 0));
    assert_eq!(ctx.context, b"in".to_vec());
    let next = match w.stepped(&ctx, done(b"mid")) {
        StepEnd::Advance(out) => out,
        _ => panic!("expected the next step"),
    };
    assert_eq!(next.subject, "_wf.order.step.1");
    let ctx = step(&mut w, &next);
    assert_eq!((ctx.step_index, ctx.context.as_slice()), (1, &b"mid"[..]));
    let last = match w.stepped(&ctx, done(b"more")) {
        StepEnd::Advance(out) => out,
        _ => panic!("expected the last step"),
    };
    let ctx = step(&mut w, &last);
    assert!(matches!(w.stepped(&ctx, done(b"")), StepEnd::Ack));
}

#[test]
fn a_suspended_instance_is_resumed_by_an_event() {
    let mut w = three_steps();
    let ctx = step(&mut w, &step_message("order", "1", 1, b"ctx"));
    let end =
        w.stepped(&ctx, Ok(StepOutcome::Suspend { state: b"st".to_vec(), timeout_ms: 0 }));
    match end {
        StepEnd::Suspended(Some(t)) => {
            assert_eq!(t.after_ms, 5_000, "the step's own limit");
            assert_eq!(t.message.subject, "_wf.order.timeout.1");
        }
        _ => panic!("expected a timer"),
    }
    let event = resume_message("order", "1", 0, b"paid");
    match receive(&mut w, &event) {
        Work::Resume(r) => {
            assert_eq!(r.step_index, 1);
            assert_eq!(r.state, b"st".to_vec());
            assert_eq!(r.event, b"paid".to_vec());
        }
        _ => panic!("expected a resume"),
    }
    match w.resumed("1", 1, Ok(StepResult { context: b"c2".to_vec() })) {
        Settlement::Ack(Some(out)) => assert_eq!(out.subject, "_wf.order.step.2"),
        _ => panic!("expected the next step"),
    }
    assert!(matches!(receive(&mut w, &event), Work::Ack), "nothing waits any more");
}

#[test]
fn a_suspended_instance_can_time_out() {
    let mut w = three_steps();
    let ctx = step(&mut w, &step_message("order", "1", 1, b""));
    let timer =
        match w.stepped(&ctx, Ok(StepOutcome::Suspend { state: b"st".to_vec(), timeout_ms: 70 })) {
            StepEnd::Suspended(Some(t)) => t,
            _ => panic!("expected a timer"),
        };
    assert_eq!(timer.after_ms, 70);
    match receive(&mut w, &timer.message) {
        Work::Timeout(t) => assert_eq!((t.step_index, t.state.as_slice()), (1, &b"st"[..])),
        _ => panic!("expected a timeout"),
    }
    assert!(matches!(receive(&mut w, &timer.message), Work::Ack));
    assert!(matches!(w.resumed("1", 1, Err(())), Settlement::Nack));
}

#[test]
fn a_cancelled_instance_is_not_resumed() {
    let mut w = three_steps();
    let ctx = step(&mut w, &step_message("order", "1", 1, b""));
    w.stepped(&ctx, Ok(StepOutcome::Suspend { state: Vec::new(), timeout_ms: 0 }));
    assert!(matches!(receive(&mut w, &cancel_message("order", "1")), Work::Ack));
    assert!(matches!(receive(&mut w, &resume_message("order", "1", 0, b"")), Work::Ack));
}

#[test]
fn a_failed_step_is_retried_and_then_undone() {
    let mut w = three_steps();
    let mut ctx = step(&mut w, &step_message("order", "1", 2, b"ctx"));
    for attempt in 1u8..=2 {
        let again = match w.stepped(&ctx, failed()) {
            StepEnd::Retry(out) => out,
            _ => panic!("expected a retry"),
        };
        assert_eq!(again.subject, "_wf.order.step.2");
        assert_eq!(again.msg_id, format!("wf:1:2:{attempt}"));
        ctx = step(&mut w, &again);
        assert_eq!((ctx.instance_id.as_str(), ctx.attempt), ("1", attempt));
        assert_eq!(ctx.context, b"ctx".to_vec());
    }
    let outs = match w.stepped(&ctx, failed()) {
        StepEnd::DeadLetter(outs) => outs,
        _ => panic!("expected a dead letter"),
    };
    let subjects: Vec<&str> = outs.iter().map(|o| o.subject.as_str()).collect();
    assert_eq!(
        subjects,
        vec!["_wf.order.dlq.2", "_wf.order.compensate.1", "_wf.order.compensate.0"]
    );
    assert!(outs[0].dead_letter && !outs[1].dead_letter);
    assert!(matches!(receive(&mut w, &outs[1]), Work::Ack), "step 1 cannot be undone");
    match receive(&mut w, &outs[2]) {
        Work::Compensate(c) => assert_eq!((c.step_index, c.context.as_slice()), (0, &b"ctx"[..])),
        _ => panic!("expected a compensation"),
    }
}

#[test]
fn retries_are_bounded_by_the_limit() {
    let mut w = WorkflowBuilder::new(b"w").trigger(b"t").step().max_retries(1).engine();
    let mut next = step_message("w", "1", 0, b"");
    let mut runs = 0;
    let letters = loop {
        let ctx = step(&mut w, &next);
        runs += 1;
        match w.stepped(&ctx, failed()) {
            StepEnd::Retry(out) => next = out,
            StepEnd::DeadLetter(outs) => break outs,
            _ => panic!("expected a retry or a dead letter"),
        }
    };
    assert_eq!(runs, 2, "the first run and one retry");
    assert_eq!(letters.len(), 1);
    assert_eq!(letters[0].subject, "_wf.w.dlq.0");
    assert!(letters[0].dead_letter);
}

#[test]
fn without_retries_the_first_failure_is_the_last() {
    let mut w = WorkflowBuilder::new(b"w").trigger(b"t").step().max_retries(0).engine();
    let ctx = step(&mut w, &step_message("w", "1", 0, b""));
    assert!(matches!(w.stepped(&ctx, failed()), StepEnd::DeadLetter(_)));
}

#[test]
fn contexts_have_a_size_limit() {
    let mut w = three_steps();
    let ctx = step(&mut w, &step_message("order", "1", 0, b""));
    assert!(matches!(w.stepped(&ctx, done(&[0u8; 65])), StepEnd::Nack));
    let big = step_message("order", "1", 0, &[0u8; 65]);
    assert!(matches!(receive(&mut w, &big), Work::Ack));
    assert!(matches!(
        w.resumed("1", 1, Ok(StepResult { context: vec![0u8; 65] })),
        Settlement::Nack
    ));
}

#[test]
fn what_cannot_be_read_is_dropped() {
    let mut w = three_steps();
    assert!(matches!(w.receive(b"_wf.order.step.0", b"x"), Work::Ack));
    let beyond = step_message("order", "1", 9, b"");
    assert!(matches!(receive(&mut w, &beyond), Work::Ack));
}

#[test]
fn a_workflow_needs_a_trigger_and_a_step() {
    assert!(WorkflowBuilder::new(b"w").step().check().is_err());
    assert!(WorkflowBuilder::new(b"w").trigger(b"t").check().is_err());
    assert!(WorkflowBuilder::new(b"w").trigger(b"t").step().check().is_ok());
}

#[test]
fn a_workflow_sets_up_its_streams_and_consumers() {
    let b = WorkflowBuilder::new(b"order")
        .trigger(b"orders.new")
        .source(b"orders", b"orders.>")
        .step()
        .suspend_step(0)
        .ack_wait_ms(1_000)
        .max_inflight(9);
    assert_eq!(b.task_stream().name, b"_wf_order_tasks".to_vec());
    assert_eq!(b.task_stream().filter, b"_wf.order.>".to_vec());
    assert_eq!(b.task_stream().idempotency_window_ms, 300_000);
    assert_eq!(b.dlq_stream().name, b"_wf_order_dlq".to_vec());
    let worker = b.worker_consumer(4, "3");
    assert_eq!(worker.name, b"_wf_order_w3".to_vec());
    assert_eq!(worker.group, b"_wf_order_workers".to_vec());
    assert_eq!((worker.ack_wait_ms, worker.max_inflight), (1_000, 9));
    let trigger = b.trigger_consumer(4, b"orders.new");
    assert_eq!(trigger.name, b"_wf_order_trigger".to_vec());
    assert_eq!(trigger.subject, b"orders.new".to_vec());
    assert_eq!(b.source_consumer(4, 0).name, b"_wf_order_src_0".to_vec());
    assert_eq!(b.steps.len(), 2);
    assert!(matches!(b.steps[1], StepKind::Suspend { timeout_ms: 0, on_timeout: false }));
}

#[test]
fn handles_start_resume_and_cancel() {
    let mut ids = InstanceIds::new();
    let mut h = WorkflowHandle::new(b"order", 4, 5);
    let (id, out) = h.trigger(&mut ids, b"in");
    assert_eq!(id, "1");
    assert_eq!(out.msg_id, "wf:1:0:0");
    assert_eq!(h.trigger(&mut ids, b"in").0, "2");
    assert_eq!(h.resume("1", b"e").msg_id, "wf:1:resume:0");
    assert_eq!(h.resume("1", b"e").msg_id, "wf:1:resume:1", "events are told apart");
    assert_eq!(h.cancel("1").subject, "_wf.order.cancel.1");
    assert_eq!(h.trigger_with_id("x", b"").subject, "_wf.order.step.0");
}
