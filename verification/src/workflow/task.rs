//! The wire form of a task:
//! `[id length, 2][id][step, 2][attempt, 1][context]`.

use crate::ackstore::format::sub_vec;
use crate::le::{
    get_u16, le_bytes, le_bytes_truncates, le_round_trip, le_value, pow256_values, push_u16,
};
use crate::text::{text_of, text_round_trip, utf8_lossy};
use vstd::prelude::*;
use vstd::utf8::encode_utf8;

verus! {

/// Shortest task.
pub const MIN_TASK_PAYLOAD: usize = 5;

/// A task, with its text and bytes as sequences.
pub struct TaskView {
    pub id: Seq<char>,
    pub step: u16,
    pub attempt: u8,
    pub context: Seq<u8>,
}

/// A task: one step of one instance.
#[derive(Debug)]
pub struct Task {
    pub id: String,
    pub step: u16,
    pub attempt: u8,
    pub context: Vec<u8>,
}

impl View for Task {
    type V = TaskView;

    open spec fn view(&self) -> TaskView {
        TaskView {
            id: self.id@,
            step: self.step,
            attempt: self.attempt,
            context: self.context@,
        }
    }
}

/// The wire form of a task. The length field holds the low sixteen bits of
/// the id's length.
pub open spec fn task_bytes(t: TaskView) -> Seq<u8> {
    let id = encode_utf8(t.id);
    le_bytes(id.len(), 2) + id + le_bytes(t.step as nat, 2) + seq![t.attempt] + t.context
}

/// What a payload says; `None` for one that is cut short.
pub open spec fn task_of(p: Seq<u8>) -> Option<TaskView> {
    let n = le_value(p.subrange(0, 2)) as int;
    if p.len() < 5 || p.len() < n + 5 {
        None
    } else {
        Some(
            TaskView {
                id: text_of(p.subrange(2, 2 + n)),
                step: le_value(p.subrange(2 + n, 4 + n)) as u16,
                attempt: p[4 + n],
                context: p.skip(5 + n),
            },
        )
    }
}

/// Appends the start that tasks and dead letters share: id, step, attempt.
pub fn push_task_head(out: &mut Vec<u8>, id: &str, step: u16, attempt: u8)
    ensures
        final(out)@ == old(out)@ + le_bytes(encode_utf8(id@).len(), 2) + encode_utf8(id@)
            + le_bytes(step as nat, 2) + seq![attempt],
{
    let id8: &[u8] = id.as_bytes();
    let n: u16 = (id8.len() % 0x1_0000) as u16;
    proof {
        pow256_values();
        le_bytes_truncates(id8@.len(), 2);
    }
    push_u16(out, n);
    out.extend_from_slice(id8);
    push_u16(out, step);
    out.push(attempt);
    assert(out@ =~= old(out)@ + le_bytes(encode_utf8(id@).len(), 2) + encode_utf8(id@) + le_bytes(
        step as nat,
        2,
    ) + seq![attempt]);
}

/// Write a task.
pub fn encode_task(id: &str, step: u16, attempt: u8, context: &[u8]) -> (r: Vec<u8>)
    ensures
        r@ == task_bytes(TaskView { id: id@, step, attempt, context: context@ }),
{
    let mut out: Vec<u8> = Vec::new();
    push_task_head(&mut out, id, step, attempt);
    out.extend_from_slice(context);
    assert(out@ =~= task_bytes(TaskView { id: id@, step, attempt, context: context@ }));
    out
}

/// Read a task.
pub fn decode_task(payload: &[u8]) -> (r: Option<Task>)
    ensures
        match r {
            Some(t) => task_of(payload@) == Some(t@),
            None => task_of(payload@) is None,
        },
{
    if payload.len() < MIN_TASK_PAYLOAD {
        return None;
    }
    let n: usize = get_u16(payload, 0) as usize;
    if payload.len() - MIN_TASK_PAYLOAD < n {
        return None;
    }
    let id8 = sub_vec(payload, 2, 2 + n);
    let id = utf8_lossy(id8.as_slice());
    let step: u16 = get_u16(payload, 2 + n);
    let attempt: u8 = payload[4 + n];
    let context = sub_vec(payload, 5 + n, payload.len());
    assert(context@ =~= payload@.skip(5 + n));
    Some(Task { id, step, attempt, context })
}

/// A task reads back as it was written, where its id is short enough for the
/// length field.
pub proof fn task_round_trip(t: TaskView)
    requires
        encode_utf8(t.id).len() < 0x1_0000,
    ensures
        task_of(task_bytes(t)) == Some(t),
{
    let id = encode_utf8(t.id);
    let n = id.len() as int;
    let p = task_bytes(t);
    pow256_values();
    le_round_trip(id.len(), 2);
    le_round_trip(t.step as nat, 2);
    assert(p.subrange(0, 2) =~= le_bytes(id.len(), 2));
    assert(p.subrange(2, 2 + n) =~= id);
    assert(p.subrange(2 + n, 4 + n) =~= le_bytes(t.step as nat, 2));
    assert(p[4 + n] == t.attempt);
    assert(p.skip(5 + n) =~= t.context);
    text_round_trip(t.id);
}

/// Where things stand in a task: the length of the instance's id, the id, the
/// step, the attempt, the context.
pub proof fn task_layout(t: TaskView)
    requires
        encode_utf8(t.id).len() < 0x1_0000,
    ensures
        ({
            let p = task_bytes(t);
            let n = encode_utf8(t.id).len() as int;
            &&& p.len() == 5 + n + t.context.len()
            &&& le_value(p.subrange(0, 2)) == n
            &&& p.subrange(2, 2 + n) == encode_utf8(t.id)
            &&& le_value(p.subrange(2 + n, 4 + n)) == t.step
            &&& p[4 + n] == t.attempt
            &&& p.skip(5 + n) == t.context
        }),
{
    let p = task_bytes(t);
    let id = encode_utf8(t.id);
    let n = id.len() as int;
    pow256_values();
    le_round_trip(id.len(), 2);
    le_round_trip(t.step as nat, 2);
    assert(p.subrange(0, 2) =~= le_bytes(id.len(), 2));
    assert(p.subrange(2, 2 + n) =~= id);
    assert(p.subrange(2 + n, 4 + n) =~= le_bytes(t.step as nat, 2));
    assert(p.skip(5 + n) =~= t.context);
}

} // verus!
