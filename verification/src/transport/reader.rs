//! Inbound bytes: cutting them into frames and telling the frames apart.
//!
//! Two header layouts share sixteen bytes. A management frame has its body
//! length at bytes 4 to 8 and a request number at 8 to 16. A batch delivery
//! has a stream id at bytes 4 to 8 and its body length at 8 to 12.

use crate::ackstore::format::sub_vec;
use crate::error::ClientError;
use crate::le::{
    get_u16, get_u32, get_u64, le_bytes, le_bytes_len, le_round_trip, le_value, pow256_values,
};
use crate::transport::frame::HEADER_SIZE;
use vstd::prelude::*;

verus! {

broadcast use le_bytes_len;

/// The numbers of the wire protocol that reading depends on.
#[derive(Debug, Clone, Copy)]
pub struct Protocol {
    pub rep_ok: u16,
    pub rep_error: u16,
    pub list_streams: u16,
    pub list_consumers: u16,
    pub rep_subscribe_batch: u16,
    pub shard_topology: u16,
    pub deliver: u16,
    pub rep_batch: u16,
    pub fanout_batch: u16,
    pub pong: u16,
    pub cron_fire: u16,
    pub ack_state_rep: u16,
    pub ack_batch_resp: u16,
    /// Size of an error reply, header included.
    pub rep_err_size: usize,
    /// Where an error reply has its code.
    pub error_code_at: usize,
    /// Error codes of a rejected login.
    pub auth_failed: u16,
    pub auth_required: u16,
    /// Size of an ack-state reply, header included.
    pub ack_state_rep_size: usize,
    /// Size of an ack confirmation, header included.
    pub ack_batch_resp_size: usize,
}

impl Protocol {
    /// An error reply holds its code.
    pub open spec fn wf(&self) -> bool {
        &&& HEADER_SIZE <= self.error_code_at
        &&& self.error_code_at + 2 <= self.rep_err_size
    }

    /// A batch delivery, with the other header layout.
    pub open spec fn is_batch(&self, action: u16) -> bool {
        action == self.rep_batch || action == self.fanout_batch
    }
}

// ── framing ────────────────────────────────────────────────────────────────
/// The action of a frame.
pub open spec fn action_of(f: Seq<u8>) -> u16 {
    le_value(f.subrange(0, 2)) as u16
}

/// The request number of a frame.
pub open spec fn seq_of(f: Seq<u8>) -> u64 {
    le_value(f.subrange(8, 16)) as u64
}

/// The size of the frame that a buffer starts with, told by its header.
pub open spec fn frame_size(p: Protocol, buf: Seq<u8>) -> nat {
    if p.is_batch(action_of(buf)) {
        16 + le_value(buf.subrange(8, 12))
    } else {
        16 + le_value(buf.subrange(4, 8))
    }
}

/// A buffer starts with a whole frame.
pub open spec fn has_frame(p: Protocol, buf: Seq<u8>) -> bool {
    buf.len() >= 16 && frame_size(p, buf) <= buf.len()
}

/// The whole frames of a buffer, in order.
pub open spec fn frames(p: Protocol, buf: Seq<u8>) -> Seq<Seq<u8>>
    decreases buf.len(),
{
    if has_frame(p, buf) {
        let n = frame_size(p, buf) as int;
        seq![buf.take(n)] + frames(p, buf.skip(n))
    } else {
        Seq::empty()
    }
}

/// What follows the whole frames of a buffer.
pub open spec fn leftover(p: Protocol, buf: Seq<u8>) -> Seq<u8>
    decreases buf.len(),
{
    if has_frame(p, buf) {
        leftover(p, buf.skip(frame_size(p, buf) as int))
    } else {
        buf
    }
}

/// The views of a list of byte vectors.
pub open spec fn bytes_of(v: Seq<Vec<u8>>) -> Seq<Seq<u8>> {
    v.map_values(|f: Vec<u8>| f@)
}

/// A list of pieces, joined.
pub open spec fn joined(v: Seq<Seq<u8>>) -> Seq<u8>
    decreases v.len(),
{
    if v.len() == 0 {
        Seq::empty()
    } else {
        v[0] + joined(v.skip(1))
    }
}

/// Size of the whole frame that starts at `at`, if there is one.
fn frame_at(p: &Protocol, buf: &Vec<u8>, at: usize) -> (r: Option<usize>)
    requires
        at <= buf@.len(),
    ensures
        match r {
            Some(n) => has_frame(*p, buf@.skip(at as int)) && n == frame_size(
                *p,
                buf@.skip(at as int),
            ),
            None => !has_frame(*p, buf@.skip(at as int)),
        },
{
    let rest: usize = buf.len() - at;
    if rest < HEADER_SIZE {
        return None;
    }
    let ghost s = buf@.skip(at as int);
    proof {
        assert(s.subrange(0, 2) =~= buf@.subrange(at as int, at + 2));
        assert(s.subrange(4, 8) =~= buf@.subrange(at + 4, at + 8));
        assert(s.subrange(8, 12) =~= buf@.subrange(at + 8, at + 12));
    }
    let action: u16 = get_u16(buf.as_slice(), at);
    let body: u32 = if action == p.rep_batch || action == p.fanout_batch {
        get_u32(buf.as_slice(), at + 8)
    } else {
        get_u32(buf.as_slice(), at + 4)
    };
    let total: u64 = 16 + body as u64;
    if total <= rest as u64 {
        Some(total as usize)
    } else {
        None
    }
}

/// Bytes that have arrived and do not make up a frame yet.
#[derive(Debug)]
pub struct FrameReader {
    pub buf: Vec<u8>,
}

impl FrameReader {
    pub fn new() -> (r: FrameReader)
        ensures
            r.buf@.len() == 0,
    {
        FrameReader { buf: Vec::new() }
    }

    /// Take in what one read brought, and hand out the frames that are whole
    /// now. A read that brings nothing means that the peer is gone.
    pub fn feed(&mut self, p: &Protocol, chunk: &[u8]) -> (r: Result<Vec<Vec<u8>>, ClientError>)
        ensures
            match r {
                Ok(out) => {
                    &&& chunk@.len() != 0
                    &&& bytes_of(out@) == frames(*p, old(self).buf@ + chunk@)
                    &&& final(self).buf@ == leftover(*p, old(self).buf@ + chunk@)
                },
                Err(e) => chunk@.len() == 0 && e is Disconnected && final(self).buf@ == old(
                    self,
                ).buf@,
            },
    {
        if chunk.len() == 0 {
            return Err(ClientError::Disconnected);
        }
        self.buf.extend_from_slice(chunk);
        let ghost all = self.buf@;
        assert(all =~= old(self).buf@ + chunk@);
        let mut out: Vec<Vec<u8>> = Vec::new();
        let mut at: usize = 0;
        assert(all.skip(0) =~= all);
        assert(bytes_of(out@) + frames(*p, all) =~= frames(*p, all));
        loop
            invariant
                self.buf@ == all,
                at <= all.len(),
                frames(*p, all) == bytes_of(out@) + frames(*p, all.skip(at as int)),
                leftover(*p, all) == leftover(*p, all.skip(at as int)),
            ensures
                at <= all.len(),
                self.buf@ == all,
                !has_frame(*p, all.skip(at as int)),
                frames(*p, all) == bytes_of(out@) + frames(*p, all.skip(at as int)),
                leftover(*p, all) == leftover(*p, all.skip(at as int)),
            decreases all.len() - at,
        {
            match frame_at(p, &self.buf, at) {
                Some(n) => {
                    assert(at + n <= self.buf.len());
                    let f = sub_vec(self.buf.as_slice(), at, at + n);
                    proof {
                        let s = all.skip(at as int);
                        assert(f@ =~= s.take(n as int));
                        assert(s.skip(n as int) =~= all.skip(at + n));
                        assert(bytes_of(out@.push(f)) =~= bytes_of(out@).push(f@));
                        assert(bytes_of(out@.push(f)) + frames(*p, all.skip(at + n))
                            =~= bytes_of(out@) + frames(*p, s));
                    }
                    out.push(f);
                    at = at + n;
                },
                None => {
                    break ;
                },
            }
        }
        let rest = sub_vec(self.buf.as_slice(), at, self.buf.len());
        assert(rest@ =~= all.skip(at as int));
        self.buf = rest;
        assert(bytes_of(out@) + Seq::<Seq<u8>>::empty() =~= bytes_of(out@));
        Ok(out)
    }
}

/// How the bytes are spread over reads does not matter: feeding `a` and then
/// `b` gives the frames, and leaves the bytes, that feeding both at once does.
pub proof fn reads_do_not_matter(p: Protocol, a: Seq<u8>, b: Seq<u8>)
    ensures
        frames(p, a + b) == frames(p, a) + frames(p, leftover(p, a) + b),
        leftover(p, a + b) == leftover(p, leftover(p, a) + b),
    decreases a.len(),
{
    if has_frame(p, a) {
        let n = frame_size(p, a) as int;
        let ab = a + b;
        assert(ab.subrange(0, 2) =~= a.subrange(0, 2));
        assert(ab.subrange(4, 8) =~= a.subrange(4, 8));
        assert(ab.subrange(8, 12) =~= a.subrange(8, 12));
        assert(frame_size(p, ab) == n);
        assert(ab.take(n) =~= a.take(n));
        assert(ab.skip(n) =~= a.skip(n) + b);
        reads_do_not_matter(p, a.skip(n), b);
        assert(frames(p, ab) =~= frames(p, a) + frames(p, leftover(p, a) + b));
    } else {
        assert(frames(p, a) + frames(p, a + b) =~= frames(p, a + b));
    }
}

/// No byte is lost or invented: the frames and what is left over, joined, are
/// what came in.
pub proof fn no_byte_is_lost(p: Protocol, buf: Seq<u8>)
    ensures
        joined(frames(p, buf)) + leftover(p, buf) == buf,
    decreases buf.len(),
{
    if has_frame(p, buf) {
        let n = frame_size(p, buf) as int;
        no_byte_is_lost(p, buf.skip(n));
        let all = frames(p, buf);
        assert(all.skip(1) =~= frames(p, buf.skip(n)));
        let tail = joined(all.skip(1));
        let left = leftover(p, buf);
        assert(tail + left == buf.skip(n));
        assert(joined(all) + left =~= all[0] + (tail + left));
        assert(all[0] + buf.skip(n) =~= buf);
    } else {
        assert(joined(frames(p, buf)) + leftover(p, buf) =~= buf);
    }
}

// ── dispatch ───────────────────────────────────────────────────────────────
/// What a frame asks for, with its bytes as sequences.
pub enum Meaning {
    Reply { seq: u64, body: Seq<u8> },
    Refusal { seq: u64, code: u16 },
    AuthRejected { code: u16 },
    Deliver(Seq<u8>),
    Batch(Seq<u8>),
    Pong,
    CronFire(Seq<u8>),
    AckState(Seq<u8>),
    AckBatch(Seq<u8>),
    Ignored,
}

/// What a frame asks for.
#[derive(Debug)]
pub enum Inbound {
    /// A request has been answered.
    Reply { seq: u64, body: Vec<u8> },
    /// A request has been refused.
    Refusal { seq: u64, code: u16 },
    /// The login has been rejected: shut the client down. Trying again with
    /// the same token is pointless.
    AuthRejected { code: u16 },
    /// A single delivery.
    Deliver(Vec<u8>),
    /// A batch of deliveries.
    Batch(Vec<u8>),
    /// The broker is alive.
    Pong,
    /// A cron job fires; holds the body.
    CronFire(Vec<u8>),
    /// The broker's view of a consumer's acks.
    AckState(Vec<u8>),
    /// The broker confirms acks.
    AckBatch(Vec<u8>),
    /// Nothing for this client.
    Ignored,
}

impl View for Inbound {
    type V = Meaning;

    open spec fn view(&self) -> Meaning {
        match self {
            Inbound::Reply { seq, body } => Meaning::Reply { seq: *seq, body: body@ },
            Inbound::Refusal { seq, code } => Meaning::Refusal { seq: *seq, code: *code },
            Inbound::AuthRejected { code } => Meaning::AuthRejected { code: *code },
            Inbound::Deliver(f) => Meaning::Deliver(f@),
            Inbound::Batch(f) => Meaning::Batch(f@),
            Inbound::Pong => Meaning::Pong,
            Inbound::CronFire(body) => Meaning::CronFire(body@),
            Inbound::AckState(f) => Meaning::AckState(f@),
            Inbound::AckBatch(f) => Meaning::AckBatch(f@),
            Inbound::Ignored => Meaning::Ignored,
        }
    }
}

/// What a frame asks for. The first rule that applies counts. A rejected
/// login is told by its code alone: it answers no request. An error reply or
/// an ack report that is cut short is ignored.
pub open spec fn meaning(p: Protocol, f: Seq<u8>) -> Meaning {
    let action = action_of(f);
    let seq = seq_of(f);
    let body = f.skip(16);
    if action == p.rep_ok {
        Meaning::Reply { seq, body }
    } else if action == p.rep_error {
        let code = le_value(f.subrange(p.error_code_at as int, p.error_code_at + 2)) as u16;
        if f.len() < p.rep_err_size {
            Meaning::Ignored
        } else if code == p.auth_failed || code == p.auth_required {
            Meaning::AuthRejected { code }
        } else {
            Meaning::Refusal { seq, code }
        }
    } else if action == p.list_streams || action == p.list_consumers || action
        == p.rep_subscribe_batch || action == p.shard_topology {
        Meaning::Reply { seq, body }
    } else if action == p.deliver {
        Meaning::Deliver(f)
    } else if p.is_batch(action) {
        Meaning::Batch(f)
    } else if action == p.pong {
        Meaning::Pong
    } else if action == p.cron_fire {
        Meaning::CronFire(body)
    } else if action == p.ack_state_rep {
        if f.len() < p.ack_state_rep_size {
            Meaning::Ignored
        } else {
            Meaning::AckState(f)
        }
    } else if action == p.ack_batch_resp {
        if f.len() < p.ack_batch_resp_size {
            Meaning::Ignored
        } else {
            Meaning::AckBatch(f)
        }
    } else {
        Meaning::Ignored
    }
}

/// Tell what a frame asks for.
pub fn dispatch(p: &Protocol, frame: Vec<u8>) -> (r: Inbound)
    requires
        p.wf(),
        frame@.len() >= 16,
    ensures
        r@ == meaning(*p, frame@),
{
    let action: u16 = get_u16(frame.as_slice(), 0);
    let seq: u64 = get_u64(frame.as_slice(), 8);
    let n: usize = frame.len();
    assert(frame@.subrange(16, n as int) =~= frame@.skip(16));
    if action == p.rep_ok {
        return Inbound::Reply { seq, body: sub_vec(frame.as_slice(), 16, n) };
    }
    if action == p.rep_error {
        if n < p.rep_err_size {
            return Inbound::Ignored;
        }
        let code: u16 = get_u16(frame.as_slice(), p.error_code_at);
        if code == p.auth_failed || code == p.auth_required {
            return Inbound::AuthRejected { code };
        }
        return Inbound::Refusal { seq, code };
    }
    if action == p.list_streams || action == p.list_consumers || action == p.rep_subscribe_batch
        || action == p.shard_topology {
        return Inbound::Reply { seq, body: sub_vec(frame.as_slice(), 16, n) };
    }
    if action == p.deliver {
        return Inbound::Deliver(frame);
    }
    if action == p.rep_batch || action == p.fanout_batch {
        return Inbound::Batch(frame);
    }
    if action == p.pong {
        return Inbound::Pong;
    }
    if action == p.cron_fire {
        return Inbound::CronFire(sub_vec(frame.as_slice(), 16, n));
    }
    if action == p.ack_state_rep {
        if n < p.ack_state_rep_size {
            return Inbound::Ignored;
        }
        return Inbound::AckState(frame);
    }
    if action == p.ack_batch_resp {
        if n < p.ack_batch_resp_size {
            return Inbound::Ignored;
        }
        return Inbound::AckBatch(frame);
    }
    Inbound::Ignored
}

/// Every frame that the reader cuts out can be dispatched.
pub proof fn frames_have_headers(p: Protocol, buf: Seq<u8>)
    ensures
        forall|i: int| 0 <= i < frames(p, buf).len() ==> (#[trigger] frames(p, buf)[i]).len() >= 16,
    decreases buf.len(),
{
    if has_frame(p, buf) {
        let n = frame_size(p, buf) as int;
        frames_have_headers(p, buf.skip(n));
        assert forall|i: int| 0 <= i < frames(p, buf).len() implies (#[trigger] frames(
            p,
            buf,
        )[i]).len() >= 16 by {
            if i > 0 {
                assert(frames(p, buf)[i] == frames(p, buf.skip(n))[i - 1]);
            }
        }
    }
}

// ── laws ───────────────────────────────────────────────────────────────────
/// A frame as a peer writes it: action, two bytes of flags, the length of the
/// body, the request number, the body.
pub open spec fn written(action: u16, flags: Seq<u8>, seq: u64, body: Seq<u8>) -> Seq<u8> {
    le_bytes(action as nat, 2) + flags + le_bytes(body.len(), 4) + le_bytes(seq as nat, 8) + body
}

/// A batch delivery as a peer writes it: action, two bytes of flags, the
/// stream, the length of the body, four bytes of sequence, the body.
pub open spec fn written_batch(
    action: u16,
    flags: Seq<u8>,
    stream: Seq<u8>,
    order: Seq<u8>,
    body: Seq<u8>,
) -> Seq<u8> {
    le_bytes(action as nat, 2) + flags + stream + le_bytes(body.len(), 4) + order + body
}

/// The actions of the protocol.
pub open spec fn actions(p: Protocol) -> Seq<u16> {
    seq![
        p.rep_ok,
        p.rep_error,
        p.list_streams,
        p.list_consumers,
        p.rep_subscribe_batch,
        p.shard_topology,
        p.deliver,
        p.rep_batch,
        p.fanout_batch,
        p.pong,
        p.cron_fire,
        p.ack_state_rep,
        p.ack_batch_resp,
    ]
}

/// Every action number means one thing.
pub open spec fn distinct_actions(p: Protocol) -> bool {
    forall|i: int, j: int|
        #![trigger actions(p)[i], actions(p)[j]]
        0 <= i < j < actions(p).len() ==> actions(p)[i] != actions(p)[j]
}

proof fn actions_differ(p: Protocol)
    requires
        distinct_actions(p),
    ensures
        p.rep_error != p.rep_ok,
        p.list_streams != p.rep_ok && p.list_streams != p.rep_error,
        p.list_consumers != p.rep_ok && p.list_consumers != p.rep_error
            && p.list_consumers != p.list_streams,
        p.rep_subscribe_batch != p.rep_ok && p.rep_subscribe_batch != p.rep_error
            && p.rep_subscribe_batch != p.list_streams
            && p.rep_subscribe_batch != p.list_consumers,
        p.shard_topology != p.rep_ok && p.shard_topology != p.rep_error
            && p.shard_topology != p.list_streams && p.shard_topology != p.list_consumers
            && p.shard_topology != p.rep_subscribe_batch,
        p.deliver != p.rep_ok && p.deliver != p.rep_error && p.deliver != p.list_streams
            && p.deliver != p.list_consumers && p.deliver != p.rep_subscribe_batch
            && p.deliver != p.shard_topology,
        p.rep_batch != p.rep_ok && p.rep_batch != p.rep_error && p.rep_batch != p.list_streams
            && p.rep_batch != p.list_consumers && p.rep_batch != p.rep_subscribe_batch
            && p.rep_batch != p.shard_topology && p.rep_batch != p.deliver,
        p.fanout_batch != p.rep_ok && p.fanout_batch != p.rep_error
            && p.fanout_batch != p.list_streams && p.fanout_batch != p.list_consumers
            && p.fanout_batch != p.rep_subscribe_batch && p.fanout_batch != p.shard_topology
            && p.fanout_batch != p.deliver && p.fanout_batch != p.rep_batch,
        p.pong != p.rep_ok && p.pong != p.rep_error && p.pong != p.list_streams
            && p.pong != p.list_consumers && p.pong != p.rep_subscribe_batch
            && p.pong != p.shard_topology && p.pong != p.deliver && p.pong != p.rep_batch
            && p.pong != p.fanout_batch,
        p.cron_fire != p.rep_ok && p.cron_fire != p.rep_error && p.cron_fire != p.list_streams
            && p.cron_fire != p.list_consumers && p.cron_fire != p.rep_subscribe_batch
            && p.cron_fire != p.shard_topology && p.cron_fire != p.deliver
            && p.cron_fire != p.rep_batch && p.cron_fire != p.fanout_batch
            && p.cron_fire != p.pong,
        p.ack_state_rep != p.rep_ok && p.ack_state_rep != p.rep_error
            && p.ack_state_rep != p.list_streams && p.ack_state_rep != p.list_consumers
            && p.ack_state_rep != p.rep_subscribe_batch && p.ack_state_rep != p.shard_topology
            && p.ack_state_rep != p.deliver && p.ack_state_rep != p.rep_batch
            && p.ack_state_rep != p.fanout_batch && p.ack_state_rep != p.pong
            && p.ack_state_rep != p.cron_fire,
        p.ack_batch_resp != p.rep_ok && p.ack_batch_resp != p.rep_error
            && p.ack_batch_resp != p.list_streams && p.ack_batch_resp != p.list_consumers
            && p.ack_batch_resp != p.rep_subscribe_batch && p.ack_batch_resp != p.shard_topology
            && p.ack_batch_resp != p.deliver && p.ack_batch_resp != p.rep_batch
            && p.ack_batch_resp != p.fanout_batch && p.ack_batch_resp != p.pong
            && p.ack_batch_resp != p.cron_fire && p.ack_batch_resp != p.ack_state_rep,
{
    let a = actions(p);
    assert(a[0] == p.rep_ok && a[1] == p.rep_error && a[2] == p.list_streams
        && a[3] == p.list_consumers && a[4] == p.rep_subscribe_batch && a[5] == p.shard_topology
        && a[6] == p.deliver && a[7] == p.rep_batch && a[8] == p.fanout_batch && a[9] == p.pong
        && a[10] == p.cron_fire && a[11] == p.ack_state_rep && a[12] == p.ack_batch_resp);
}

proof fn written_fields(action: u16, flags: Seq<u8>, seq: u64, body: Seq<u8>)
    requires
        flags.len() == 2,
        body.len() < 0x1_0000_0000,
    ensures
        ({
            let f = written(action, flags, seq, body);
            &&& f.len() == 16 + body.len()
            &&& le_value(f.subrange(0, 2)) == action as nat
            &&& le_value(f.subrange(4, 8)) == body.len()
            &&& le_value(f.subrange(8, 16)) == seq as nat
            &&& f.skip(16) == body
        }),
{
    let f = written(action, flags, seq, body);
    pow256_values();
    le_round_trip(action as nat, 2);
    le_round_trip(body.len(), 4);
    le_round_trip(seq as nat, 8);
    assert(f.subrange(0, 2) =~= le_bytes(action as nat, 2));
    assert(f.subrange(4, 8) =~= le_bytes(body.len(), 4));
    assert(f.subrange(8, 16) =~= le_bytes(seq as nat, 8));
    assert(f.skip(16) =~= body);
}

proof fn written_batch_fields(
    action: u16,
    flags: Seq<u8>,
    stream: Seq<u8>,
    order: Seq<u8>,
    body: Seq<u8>,
)
    requires
        flags.len() == 2,
        stream.len() == 4,
        order.len() == 4,
        body.len() < 0x1_0000_0000,
    ensures
        ({
            let f = written_batch(action, flags, stream, order, body);
            &&& f.len() == 16 + body.len()
            &&& le_value(f.subrange(0, 2)) == action as nat
            &&& le_value(f.subrange(8, 12)) == body.len()
        }),
{
    let f = written_batch(action, flags, stream, order, body);
    pow256_values();
    le_round_trip(action as nat, 2);
    le_round_trip(body.len(), 4);
    assert(f.subrange(0, 2) =~= le_bytes(action as nat, 2));
    assert(f.subrange(8, 12) =~= le_bytes(body.len(), 4));
}

/// `f` leads the bytes that follow it, and is not taken before it is whole.
proof fn leads(p: Protocol, f: Seq<u8>, rest: Seq<u8>, n: int)
    requires
        f.len() >= 16,
        frame_size(p, f) == f.len(),
        0 <= n < f.len(),
    ensures
        frames(p, f + rest) == seq![f] + frames(p, rest),
        leftover(p, f + rest) == leftover(p, rest),
        frames(p, f.take(n)) == Seq::<Seq<u8>>::empty(),
        leftover(p, f.take(n)) == f.take(n),
{
    let all = f + rest;
    assert(all.subrange(0, 2) =~= f.subrange(0, 2));
    assert(all.subrange(4, 8) =~= f.subrange(4, 8));
    assert(all.subrange(8, 12) =~= f.subrange(8, 12));
    assert(all.take(f.len() as int) =~= f);
    assert(all.skip(f.len() as int) =~= rest);
    if n >= 16 {
        let t = f.take(n);
        assert(t.subrange(0, 2) =~= f.subrange(0, 2));
        assert(t.subrange(4, 8) =~= f.subrange(4, 8));
        assert(t.subrange(8, 12) =~= f.subrange(8, 12));
    }
}

/// A frame that a peer has written comes out whole, in front of the frames
/// that follow it, and not before its last byte has come in.
pub proof fn written_frames_come_out(
    p: Protocol,
    action: u16,
    flags: Seq<u8>,
    seq: u64,
    body: Seq<u8>,
    rest: Seq<u8>,
    n: int,
)
    requires
        action != p.rep_batch,
        action != p.fanout_batch,
        flags.len() == 2,
        body.len() < 0x1_0000_0000,
        0 <= n < 16 + body.len(),
    ensures
        ({
            let f = written(action, flags, seq, body);
            &&& frames(p, f + rest) == seq![f] + frames(p, rest)
            &&& leftover(p, f + rest) == leftover(p, rest)
            &&& frames(p, f.take(n)) == Seq::<Seq<u8>>::empty()
            &&& leftover(p, f.take(n)) == f.take(n)
        }),
{
    written_fields(action, flags, seq, body);
    leads(p, written(action, flags, seq, body), rest, n);
}

/// A batch delivery that the broker has written comes out whole, in front of
/// the frames that follow it, and not before its last byte has come in.
pub proof fn written_batches_come_out(
    p: Protocol,
    action: u16,
    flags: Seq<u8>,
    stream: Seq<u8>,
    order: Seq<u8>,
    body: Seq<u8>,
    rest: Seq<u8>,
    n: int,
)
    requires
        action == p.rep_batch || action == p.fanout_batch,
        flags.len() == 2,
        stream.len() == 4,
        order.len() == 4,
        body.len() < 0x1_0000_0000,
        0 <= n < 16 + body.len(),
    ensures
        ({
            let f = written_batch(action, flags, stream, order, body);
            &&& frames(p, f + rest) == seq![f] + frames(p, rest)
            &&& leftover(p, f + rest) == leftover(p, rest)
            &&& frames(p, f.take(n)) == Seq::<Seq<u8>>::empty()
            &&& leftover(p, f.take(n)) == f.take(n)
        }),
{
    written_batch_fields(action, flags, stream, order, body);
    leads(p, written_batch(action, flags, stream, order, body), rest, n);
}

/// Each kind of frame reaches what handles it, with the request number and the
/// body, or the whole of it, as the broker has written them.
pub proof fn written_frames_reach_their_handler(
    p: Protocol,
    action: u16,
    flags: Seq<u8>,
    seq: u64,
    body: Seq<u8>,
)
    requires
        distinct_actions(p),
        flags.len() == 2,
        body.len() < 0x1_0000_0000,
    ensures
        ({
            let f = written(action, flags, seq, body);
            let m = meaning(p, f);
            &&& action == p.rep_ok || action == p.list_streams || action == p.list_consumers
                || action == p.rep_subscribe_batch || action == p.shard_topology ==> m
                == Meaning::Reply { seq, body }
            &&& action == p.deliver ==> m == Meaning::Deliver(f)
            &&& action == p.pong ==> m == Meaning::Pong
            &&& action == p.cron_fire ==> m == Meaning::CronFire(body)
            &&& action == p.ack_state_rep && 16 + body.len() >= p.ack_state_rep_size ==> m
                == Meaning::AckState(f)
            &&& action == p.ack_batch_resp && 16 + body.len() >= p.ack_batch_resp_size ==> m
                == Meaning::AckBatch(f)
        }),
{
    actions_differ(p);
    written_fields(action, flags, seq, body);
}

/// A batch delivery reaches its handler whole, whichever of its two actions it
/// comes under.
pub proof fn written_batches_reach_their_handler(
    p: Protocol,
    action: u16,
    flags: Seq<u8>,
    stream: Seq<u8>,
    order: Seq<u8>,
    body: Seq<u8>,
)
    requires
        distinct_actions(p),
        action == p.rep_batch || action == p.fanout_batch,
        flags.len() == 2,
        stream.len() == 4,
        order.len() == 4,
        body.len() < 0x1_0000_0000,
    ensures
        ({
            let f = written_batch(action, flags, stream, order, body);
            meaning(p, f) == Meaning::Batch(f)
        }),
{
    actions_differ(p);
    written_batch_fields(action, flags, stream, order, body);
}

/// A refusal reaches the request that it answers, with its code. One whose
/// code says that the login was rejected shuts the client down instead.
pub proof fn written_refusals_reach_their_request(
    p: Protocol,
    flags: Seq<u8>,
    seq: u64,
    body: Seq<u8>,
    code: u16,
)
    requires
        distinct_actions(p),
        p.wf(),
        flags.len() == 2,
        body.len() < 0x1_0000_0000,
        16 + body.len() >= p.rep_err_size,
        body.subrange(p.error_code_at - 16, p.error_code_at - 14) == le_bytes(code as nat, 2),
    ensures
        ({
            let m = meaning(p, written(p.rep_error, flags, seq, body));
            if code == p.auth_failed || code == p.auth_required {
                m == Meaning::AuthRejected { code }
            } else {
                m == Meaning::Refusal { seq, code }
            }
        }),
{
    actions_differ(p);
    written_fields(p.rep_error, flags, seq, body);
    let f = written(p.rep_error, flags, seq, body);
    pow256_values();
    le_round_trip(code as nat, 2);
    assert(f.subrange(p.error_code_at as int, p.error_code_at + 2) =~= body.subrange(
        p.error_code_at - 16,
        p.error_code_at - 14,
    ));
}

/// Nothing is ignored but frames under an action that the protocol does not
/// know, and error replies and ack reports that are cut short.
pub proof fn only_strange_frames_are_ignored(p: Protocol, f: Seq<u8>)
    requires
        f.len() >= 16,
        meaning(p, f) is Ignored,
    ensures
        ({
            let action = le_value(f.subrange(0, 2)) as u16;
            ||| action == p.rep_error && f.len() < p.rep_err_size
            ||| action == p.ack_state_rep && f.len() < p.ack_state_rep_size
            ||| action == p.ack_batch_resp && f.len() < p.ack_batch_resp_size
            ||| {
                &&& action != p.rep_ok && action != p.rep_error && action != p.list_streams
                &&& action != p.list_consumers && action != p.rep_subscribe_batch
                &&& action != p.shard_topology && action != p.deliver && action != p.rep_batch
                &&& action != p.fanout_batch && action != p.pong && action != p.cron_fire
                &&& action != p.ack_state_rep && action != p.ack_batch_resp
            }
        }),
{
}

/// A frame under an action that the protocol does not know does nothing, and
/// neither does one that is cut short.
pub proof fn strange_frames_are_ignored(p: Protocol, f: Seq<u8>)
    requires
        f.len() >= 16,
        distinct_actions(p),
        ({
            let action = le_value(f.subrange(0, 2)) as u16;
            ||| action == p.rep_error && f.len() < p.rep_err_size
            ||| action == p.ack_state_rep && f.len() < p.ack_state_rep_size
            ||| action == p.ack_batch_resp && f.len() < p.ack_batch_resp_size
            ||| {
                &&& action != p.rep_ok && action != p.rep_error && action != p.list_streams
                &&& action != p.list_consumers && action != p.rep_subscribe_batch
                &&& action != p.shard_topology && action != p.deliver && action != p.rep_batch
                &&& action != p.fanout_batch && action != p.pong && action != p.cron_fire
                &&& action != p.ack_state_rep && action != p.ack_batch_resp
            }
        }),
    ensures
        meaning(p, f) is Ignored,
{
    actions_differ(p);
}

} // verus!
