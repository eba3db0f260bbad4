//! The messages that drive an instance, and the names they travel under.
//! `name` is the text of the workflow's name throughout.

use crate::bytes::begins;
use crate::le::{le_bytes, le_round_trip, le_value, pow256_values, push_u32};
use crate::text::{
    bytes_in, decimal, encode_ascii, encode_concat, push_decimal, text_round_trip,
};
use crate::workflow::task::{encode_task, push_task_head, task_bytes, TaskView};
use vstd::prelude::*;
use vstd::slice::slice_to_vec;
use vstd::utf8::encode_utf8;

verus! {

/// A message to publish, with its text and bytes as sequences.
pub struct OutView {
    pub dead_letter: bool,
    pub subject: Seq<char>,
    pub msg_id: Seq<char>,
    pub payload: Seq<u8>,
}

/// A message to publish. The message id makes a repeated publish harmless.
#[derive(Debug)]
pub struct Out {
    /// To the dead-letter stream rather than the task stream.
    pub dead_letter: bool,
    pub subject: String,
    pub msg_id: String,
    pub payload: Vec<u8>,
}

impl View for Out {
    type V = OutView;

    open spec fn view(&self) -> OutView {
        OutView {
            dead_letter: self.dead_letter,
            subject: self.subject@,
            msg_id: self.msg_id@,
            payload: self.payload@,
        }
    }
}

/// The views of a list of messages.
pub open spec fn outs_of(v: Seq<Out>) -> Seq<OutView> {
    v.map_values(|o: Out| o@)
}

/// Step `step` of instance `id`, to be run for the first time.
pub open spec fn step_out(name: Seq<char>, id: Seq<char>, step: u16, context: Seq<u8>) -> OutView {
    OutView {
        dead_letter: false,
        subject: "_wf."@ + name + ".step."@ + decimal(step as nat),
        msg_id: "wf:"@ + id + ":"@ + decimal(step as nat) + ":0"@,
        payload: task_bytes(TaskView { id, step, attempt: 0, context }),
    }
}

/// Step `step` of instance `id`, to be run again as attempt number `attempt`.
/// Each attempt has a message id of its own.
pub open spec fn retry_out(
    name: Seq<char>,
    id: Seq<char>,
    step: u16,
    attempt: u8,
    context: Seq<u8>,
) -> OutView {
    OutView {
        dead_letter: false,
        subject: "_wf."@ + name + ".step."@ + decimal(step as nat),
        msg_id: "wf:"@ + id + ":"@ + decimal(step as nat) + ":"@ + decimal(attempt as nat),
        payload: task_bytes(TaskView { id, step, attempt, context }),
    }
}

/// The suspension of instance `id` in step `step` has lasted too long.
pub open spec fn timeout_out(name: Seq<char>, id: Seq<char>, step: u16) -> OutView {
    OutView {
        dead_letter: false,
        subject: "_wf."@ + name + ".timeout."@ + id,
        msg_id: "wf:"@ + id + ":timeout:"@ + decimal(step as nat),
        payload: Seq::empty(),
    }
}

/// Instance `id` has failed for good in step `step`.
pub open spec fn dead_letter_out(
    name: Seq<char>,
    id: Seq<char>,
    step: u16,
    attempt: u8,
    error: Seq<char>,
    context: Seq<u8>,
) -> OutView {
    let id8 = encode_utf8(id);
    let error8 = encode_utf8(error);
    OutView {
        dead_letter: true,
        subject: "_wf."@ + name + ".dlq."@ + decimal(step as nat),
        msg_id: "wf:"@ + id + ":dlq:"@ + decimal(step as nat),
        payload: le_bytes(id8.len(), 2) + id8 + le_bytes(step as nat, 2) + seq![attempt] + le_bytes(
            error8.len(),
            4,
        ) + error8 + context,
    }
}

/// Undo step `step` of instance `id`.
pub open spec fn compensate_out(
    name: Seq<char>,
    id: Seq<char>,
    step: u16,
    context: Seq<u8>,
) -> OutView {
    OutView {
        dead_letter: false,
        subject: "_wf."@ + name + ".compensate."@ + decimal(step as nat),
        msg_id: "wf:"@ + id + ":comp:"@ + decimal(step as nat),
        payload: task_bytes(
            TaskView { id, step: (0x8000 + step) as u16, attempt: 0, context },
        ),
    }
}

/// Forget instance `id` if it is suspended.
pub open spec fn cancel_out(name: Seq<char>, id: Seq<char>) -> OutView {
    OutView {
        dead_letter: false,
        subject: "_wf."@ + name + ".cancel."@ + id,
        msg_id: "wf:"@ + id + ":cancel"@,
        payload: Seq::empty(),
    }
}

/// An event for instance `id`, which is suspended. `seq` tells events apart.
pub open spec fn resume_out(name: Seq<char>, id: Seq<char>, seq: u32, event: Seq<u8>) -> OutView {
    OutView {
        dead_letter: false,
        subject: "_wf."@ + name + ".resume."@ + id,
        msg_id: "wf:"@ + id + ":resume:"@ + decimal(seq as nat),
        payload: event,
    }
}

/// `_wf.<name>` and the text that follows it.
fn subject_text(name: &str, tail: &str) -> (s: String)
    ensures
        s@ == "_wf."@ + name@ + tail@,
{
    let mut s = "_wf.".to_owned();
    s.push_str(name);
    s.push_str(tail);
    s
}

/// `wf:<id>` and the text that follows it.
fn msg_id_text(id: &str, tail: &str) -> (s: String)
    ensures
        s@ == "wf:"@ + id@ + tail@,
{
    let mut s = "wf:".to_owned();
    s.push_str(id);
    s.push_str(tail);
    s
}

/// Write the message that runs a step.
pub fn step_message(name: &str, id: &str, step: u16, context: &[u8]) -> (r: Out)
    ensures
        r@ == step_out(name@, id@, step, context@),
{
    let mut subject = subject_text(name, ".step.");
    push_decimal(&mut subject, step as u64);
    let mut msg_id = msg_id_text(id, ":");
    push_decimal(&mut msg_id, step as u64);
    msg_id.push_str(":0");
    Out { dead_letter: false, subject, msg_id, payload: encode_task(id, step, 0, context) }
}

/// Write the message that runs a step again.
pub fn retry_message(name: &str, id: &str, step: u16, attempt: u8, context: &[u8]) -> (r: Out)
    ensures
        r@ == retry_out(name@, id@, step, attempt, context@),
{
    let mut subject = subject_text(name, ".step.");
    push_decimal(&mut subject, step as u64);
    let mut msg_id = msg_id_text(id, ":");
    push_decimal(&mut msg_id, step as u64);
    msg_id.push_str(":");
    push_decimal(&mut msg_id, attempt as u64);
    Out { dead_letter: false, subject, msg_id, payload: encode_task(id, step, attempt, context) }
}

/// Write the message that ends a suspension for time.
pub fn timeout_message(name: &str, id: &str, step: u16) -> (r: Out)
    ensures
        r@ == timeout_out(name@, id@, step),
{
    let mut subject = subject_text(name, ".timeout.");
    subject.push_str(id);
    let mut msg_id = msg_id_text(id, ":timeout:");
    push_decimal(&mut msg_id, step as u64);
    let r = Out { dead_letter: false, subject, msg_id, payload: Vec::new() };
    assert(r@.payload =~= Seq::empty());
    r
}

/// Write the dead letter of an instance.
pub fn dead_letter_message(
    name: &str,
    id: &str,
    step: u16,
    attempt: u8,
    error: &str,
    context: &[u8],
) -> (r: Out)
    ensures
        r@ == dead_letter_out(name@, id@, step, attempt, error@, context@),
{
    let mut subject = subject_text(name, ".dlq.");
    push_decimal(&mut subject, step as u64);
    let mut msg_id = msg_id_text(id, ":dlq:");
    push_decimal(&mut msg_id, step as u64);
    let mut payload: Vec<u8> = Vec::new();
    push_task_head(&mut payload, id, step, attempt);
    let error8: &[u8] = error.as_bytes();
    let n: u32 = (error8.len() as u64 % 0x1_0000_0000) as u32;
    proof {
        crate::le::pow256_values();
        crate::le::le_bytes_truncates(error8@.len(), 4);
    }
    push_u32(&mut payload, n);
    payload.extend_from_slice(error8);
    payload.extend_from_slice(context);
    let r = Out { dead_letter: true, subject, msg_id, payload };
    assert(r@.payload =~= dead_letter_out(name@, id@, step, attempt, error@, context@).payload);
    r
}

/// Write the message that undoes a step.
pub fn compensate_message(name: &str, id: &str, step: u16, context: &[u8]) -> (r: Out)
    requires
        step < 0x8000,
    ensures
        r@ == compensate_out(name@, id@, step, context@),
{
    let mut subject = subject_text(name, ".compensate.");
    push_decimal(&mut subject, step as u64);
    let mut msg_id = msg_id_text(id, ":comp:");
    push_decimal(&mut msg_id, step as u64);
    Out { dead_letter: false, subject, msg_id, payload: encode_task(id, 0x8000 + step, 0, context) }
}

/// Write the message that cancels an instance.
pub fn cancel_message(name: &str, id: &str) -> (r: Out)
    ensures
        r@ == cancel_out(name@, id@),
{
    let mut subject = subject_text(name, ".cancel.");
    subject.push_str(id);
    let r = Out {
        dead_letter: false,
        subject,
        msg_id: msg_id_text(id, ":cancel"),
        payload: Vec::new(),
    };
    assert(r@.payload =~= Seq::empty());
    r
}

/// Write the message that resumes an instance.
pub fn resume_message(name: &str, id: &str, seq: u32, event: &[u8]) -> (r: Out)
    ensures
        r@ == resume_out(name@, id@, seq, event@),
{
    let mut subject = subject_text(name, ".resume.");
    subject.push_str(id);
    let mut msg_id = msg_id_text(id, ":resume:");
    push_decimal(&mut msg_id, seq as u64);
    Out { dead_letter: false, subject, msg_id, payload: slice_to_vec(event) }
}

// ── telling messages apart ─────────────────────────────────────────────────
/// Start of the subjects of one kind of event.
pub open spec fn event_prefix(name: Seq<char>, kind: Seq<char>) -> Seq<u8> {
    encode_utf8("_wf."@ + name + kind)
}

/// Write the start of the subjects of one kind of event.
pub fn write_event_prefix(name: &str, kind: &str) -> (r: Vec<u8>)
    ensures
        r@ == event_prefix(name@, kind@),
{
    let s = subject_text(name, kind);
    bytes_in(s.as_str())
}

/// Two kinds of event whose names differ somewhere within the shorter one
/// have subjects that differ there too.
pub proof fn kinds_differ(name: Seq<char>, kind: Seq<char>, other: Seq<char>, tail: Seq<char>, i: int)
    requires
        forall|j: int| 0 <= j < kind.len() ==> #[trigger] kind[j] < 128,
        forall|j: int| 0 <= j < other.len() ==> #[trigger] other[j] < 128,
        0 <= i < kind.len(),
        i < other.len(),
        kind[i] != other[i],
    ensures
        !begins(encode_utf8("_wf."@ + name + kind + tail), event_prefix(name, other)),
{
    let base = "_wf."@ + name;
    let head = encode_utf8(base);
    encode_concat(base, kind);
    encode_concat(base + kind, tail);
    encode_concat(base, other);
    encode_ascii(kind);
    encode_ascii(other);
    let s = encode_utf8(base + kind + tail);
    let p = event_prefix(name, other);
    let k = head.len() + i;
    assert(s[k] == encode_utf8(kind)[i]);
    assert(p[k] == encode_utf8(other)[i]);
    if begins(s, p) {
        assert(s.take(p.len() as int)[k] == s[k]);
    }
}

/// The subject of an event begins as events of its kind do, and what follows
/// is the instance.
pub proof fn event_names_instance(name: Seq<char>, kind: Seq<char>, id: Seq<char>)
    ensures
        ({
            let s = encode_utf8("_wf."@ + name + kind + id);
            let p = event_prefix(name, kind);
            begins(s, p) && s.skip(p.len() as int) == encode_utf8(id)
        }),
{
    let p = event_prefix(name, kind);
    encode_concat("_wf."@ + name + kind, id);
    let s = encode_utf8("_wf."@ + name + kind + id);
    assert(s.take(p.len() as int) =~= p);
    assert(s.skip(p.len() as int) =~= encode_utf8(id));
}

/// A dead letter tells what failed: two dead letters with the same payload are
/// of the same instance, step and attempt, with the same error and context.
pub proof fn dead_letters_tell_what_failed(
    name: Seq<char>,
    a: (Seq<char>, u16, u8, Seq<char>, Seq<u8>),
    b: (Seq<char>, u16, u8, Seq<char>, Seq<u8>),
)
    requires
        encode_utf8(a.0).len() < 0x1_0000,
        encode_utf8(b.0).len() < 0x1_0000,
        encode_utf8(a.3).len() < 0x1_0000_0000,
        encode_utf8(b.3).len() < 0x1_0000_0000,
        dead_letter_out(name, a.0, a.1, a.2, a.3, a.4).payload == dead_letter_out(
            name,
            b.0,
            b.1,
            b.2,
            b.3,
            b.4,
        ).payload,
    ensures
        a == b,
{
    letter_fields(name, a);
    letter_fields(name, b);
    text_round_trip(a.0);
    text_round_trip(b.0);
    text_round_trip(a.3);
    text_round_trip(b.3);
}

/// The fields of a dead letter, read from its payload.
proof fn letter_fields(name: Seq<char>, a: (Seq<char>, u16, u8, Seq<char>, Seq<u8>))
    requires
        encode_utf8(a.0).len() < 0x1_0000,
        encode_utf8(a.3).len() < 0x1_0000_0000,
    ensures
        ({
            let p = dead_letter_out(name, a.0, a.1, a.2, a.3, a.4).payload;
            let n = le_value(p.subrange(0, 2)) as int;
            let m = le_value(p.subrange(5 + n, 9 + n)) as int;
            &&& p.subrange(2, 2 + n) == encode_utf8(a.0)
            &&& le_value(p.subrange(2 + n, 4 + n)) == a.1
            &&& p[4 + n] == a.2
            &&& p.subrange(9 + n, 9 + n + m) == encode_utf8(a.3)
            &&& p.skip(9 + n + m) == a.4
        }),
{
    let p = dead_letter_out(name, a.0, a.1, a.2, a.3, a.4).payload;
    let id8 = encode_utf8(a.0);
    let error8 = encode_utf8(a.3);
    let n = id8.len() as int;
    let m = error8.len() as int;
    pow256_values();
    le_round_trip(id8.len(), 2);
    le_round_trip(a.1 as nat, 2);
    le_round_trip(error8.len(), 4);
    assert(p.subrange(0, 2) =~= le_bytes(id8.len(), 2));
    assert(p.subrange(2, 2 + n) =~= id8);
    assert(p.subrange(2 + n, 4 + n) =~= le_bytes(a.1 as nat, 2));
    assert(p.subrange(5 + n, 9 + n) =~= le_bytes(error8.len(), 4));
    assert(p.subrange(9 + n, 9 + n + m) =~= error8);
    assert(p.skip(9 + n + m) =~= a.4);
}

/// The names that messages travel under: the subject tells the workflow, the
/// kind of the message and its step or its instance, and the message id tells
/// the instance, the kind and the step, attempt or event.
pub proof fn names_of_messages(
    name: Seq<char>,
    id: Seq<char>,
    step: u16,
    attempt: u8,
    seq: u32,
    error: Seq<char>,
    x: Seq<u8>,
)
    ensures
        step_out(name, id, step, x).subject == "_wf."@ + name + ".step."@ + decimal(step as nat),
        step_out(name, id, step, x).msg_id == "wf:"@ + id + ":"@ + decimal(step as nat) + ":0"@,
        retry_out(name, id, step, attempt, x).subject == step_out(name, id, step, x).subject,
        retry_out(name, id, step, attempt, x).msg_id == "wf:"@ + id + ":"@ + decimal(step as nat)
            + ":"@ + decimal(attempt as nat),
        timeout_out(name, id, step).subject == "_wf."@ + name + ".timeout."@ + id,
        timeout_out(name, id, step).msg_id == "wf:"@ + id + ":timeout:"@ + decimal(step as nat),
        dead_letter_out(name, id, step, attempt, error, x).subject == "_wf."@ + name + ".dlq."@
            + decimal(step as nat),
        dead_letter_out(name, id, step, attempt, error, x).msg_id == "wf:"@ + id + ":dlq:"@
            + decimal(step as nat),
        compensate_out(name, id, step, x).subject == "_wf."@ + name + ".compensate."@ + decimal(
            step as nat,
        ),
        compensate_out(name, id, step, x).msg_id == "wf:"@ + id + ":comp:"@ + decimal(step as nat),
        cancel_out(name, id).subject == "_wf."@ + name + ".cancel."@ + id,
        cancel_out(name, id).msg_id == "wf:"@ + id + ":cancel"@,
        resume_out(name, id, seq, x).subject == "_wf."@ + name + ".resume."@ + id,
        resume_out(name, id, seq, x).msg_id == "wf:"@ + id + ":resume:"@ + decimal(seq as nat),
{
}

/// Every event for an instance goes out under a message id of its own, with
/// what the event brings and nothing else.
pub proof fn events_have_own_ids(
    name: Seq<char>,
    id: Seq<char>,
    a: u32,
    b: u32,
    x: Seq<u8>,
    y: Seq<u8>,
)
    requires
        a != b,
    ensures
        resume_out(name, id, a, x).msg_id != resume_out(name, id, b, y).msg_id,
        resume_out(name, id, a, x).payload == x,
        !resume_out(name, id, a, x).dead_letter,
{
    let head = "wf:"@ + id + ":resume:"@;
    let m = resume_out(name, id, a, x).msg_id;
    let n = resume_out(name, id, b, y).msg_id;
    if m == n {
        assert(m.skip(head.len() as int) =~= decimal(a as nat));
        assert(n.skip(head.len() as int) =~= decimal(b as nat));
        crate::text::decimal_injective(a as nat, b as nat);
    }
}

} // verus!
