//! Publishing: what becomes of a frame handed to the writer, and how large
//! batches are cut.

use crate::error::{ClientError, RequestResult};
use crate::metrics::ClientMetrics;
use crate::state::matcher::same_bytes;
use crate::state::pending::Pending;
use crate::state::seq::{counter_after, SeqAllocator};
use vstd::prelude::*;
use vstd::slice::slice_to_vec;

verus! {

/// Entries of one batch frame at most. Larger batches are cut.
pub const PUBLISH_BATCH_MAX: usize = 256;

/// Why no write ring could be leased.
#[derive(Debug, Clone, Copy, PartialEq, Eq, Structural)]
pub enum LeaseFault {
    /// The writer is gone for good.
    Closed,
    /// Every ring is leased right now.
    Exhausted,
}

/// Why a frame was not taken by its ring.
#[derive(Debug, Clone, Copy, PartialEq, Eq, Structural)]
pub enum SendFault {
    Full,
    Closed,
}

/// How waiting for ring space ended.
#[derive(Debug, Clone, Copy, PartialEq, Eq, Structural)]
pub enum WaitEnd {
    Sent,
    Closed,
    TimedOut,
}

/// What to do after the first try to send.
#[derive(Debug)]
pub enum FirstTry {
    Done,
    /// The ring is full: wait for space.
    Park,
    Failed(ClientError),
}

/// The error for a lease that was not to be had. Only one of the two is worth
/// a retry, so they are kept apart.
pub fn lease_error(fault: LeaseFault) -> (r: ClientError)
    ensures
        r == (match fault {
            LeaseFault::Closed => ClientError::ChannelClosed,
            LeaseFault::Exhausted => ClientError::PoolExhausted,
        }),
{
    match fault {
        LeaseFault::Closed => ClientError::ChannelClosed,
        LeaseFault::Exhausted => ClientError::PoolExhausted,
    }
}

/// Outcome of handing a frame to the writer without waiting: the lease, then
/// the send. A full ring is `QueueFull`: transient.
pub fn enqueue(lease: Result<(), LeaseFault>, sent: Result<(), SendFault>) -> (r: Result<
    (),
    ClientError,
>)
    ensures
        r == (match lease {
            Err(LeaseFault::Closed) => Err::<(), ClientError>(ClientError::ChannelClosed),
            Err(LeaseFault::Exhausted) => Err(ClientError::PoolExhausted),
            Ok(_) => match sent {
                Ok(_) => Ok(()),
                Err(SendFault::Full) => Err(ClientError::QueueFull),
                Err(SendFault::Closed) => Err(ClientError::ChannelClosed),
            },
        }),
{
    match lease {
        Err(fault) => Err(lease_error(fault)),
        Ok(_) => match sent {
            Ok(_) => Ok(()),
            Err(SendFault::Full) => Err(ClientError::QueueFull),
            Err(SendFault::Closed) => Err(ClientError::ChannelClosed),
        },
    }
}

/// The first try of a send that may wait.
pub fn first_try(sent: Result<(), SendFault>) -> (r: FirstTry)
    ensures
        r == (match sent {
            Ok(_) => FirstTry::Done,
            Err(SendFault::Full) => FirstTry::Park,
            Err(SendFault::Closed) => FirstTry::Failed(ClientError::ChannelClosed),
        }),
{
    match sent {
        Ok(_) => FirstTry::Done,
        Err(SendFault::Full) => FirstTry::Park,
        Err(SendFault::Closed) => FirstTry::Failed(ClientError::ChannelClosed),
    }
}

/// The end of a send that had to wait. Waiting is bounded: a peer that is
/// really dead shows as an error.
pub fn waited(end: WaitEnd) -> (r: Result<(), ClientError>)
    ensures
        r == (match end {
            WaitEnd::Sent => Ok::<(), ClientError>(()),
            WaitEnd::Closed => Err(ClientError::ChannelClosed),
            WaitEnd::TimedOut => Err(ClientError::QueueFull),
        }),
{
    match end {
        WaitEnd::Sent => Ok(()),
        WaitEnd::Closed => Err(ClientError::ChannelClosed),
        WaitEnd::TimedOut => Err(ClientError::QueueFull),
    }
}

/// A request that could not be sent gives its reply slot back; one that was
/// sent keeps it.
pub fn sent_or_cancelled<T>(
    pending: &mut Pending<T>,
    seq: u64,
    enqueued: Result<(), ClientError>,
) -> (r: Result<(), ClientError>)
    requires
        old(pending).wf(),
    ensures
        final(pending).wf(),
        r == enqueued,
        final(pending).waiting() == if enqueued is Ok {
            old(pending).waiting()
        } else {
            old(pending).waiting().remove(seq)
        },
{
    match enqueued {
        Ok(sent) => Ok(sent),
        Err(e) => {
            pending.cancel(seq);
            Err(e)
        },
    }
}

/// The reply of a request. One whose slot was dropped unresolved has failed
/// with `ChannelClosed`.
pub fn reply_of(received: Option<RequestResult>) -> (r: RequestResult)
    ensures
        r == (match received {
            Some(reply) => reply,
            None => RequestResult::Err(ClientError::ChannelClosed),
        }),
{
    match received {
        Some(reply) => reply,
        None => Err(ClientError::ChannelClosed),
    }
}

/// Count a publish that was handed to the writer.
pub fn count_publish(metrics: &mut ClientMetrics, r: &Result<(), ClientError>)
    ensures
        *final(metrics) == if r is Ok {
            ClientMetrics {
                publishes_sent: old(metrics).publishes_sent.wrapping_add(1),
                ..*old(metrics)
            }
        } else {
            *old(metrics)
        },
{
    if r.is_ok() {
        metrics.publishes_sent = metrics.publishes_sent.wrapping_add(1);
    }
}

/// Count the entries of a batch that was handed to the writer.
pub fn count_batch(metrics: &mut ClientMetrics, r: &Result<(), ClientError>, entries: usize)
    ensures
        *final(metrics) == if r is Ok {
            ClientMetrics {
                publish_batch_entries: old(metrics).publish_batch_entries.wrapping_add(
                    entries as u64,
                ),
                ..*old(metrics)
            }
        } else {
            *old(metrics)
        },
{
    if r.is_ok() {
        metrics.publish_batch_entries = metrics.publish_batch_entries.wrapping_add(entries as u64);
    }
}

// ── batches ────────────────────────────────────────────────────────────────
/// One entry of a batch. An empty message id stands for "no dedup".
#[derive(Debug)]
pub struct BatchEntry {
    pub subject: Vec<u8>,
    pub msg_id: Vec<u8>,
    pub payload: Vec<u8>,
}

impl BatchEntry {
    pub fn new(subject: &[u8], payload: Vec<u8>) -> (r: BatchEntry)
        ensures
            r.subject@ == subject@,
            r.msg_id@.len() == 0,
            r.payload@ == payload@,
    {
        BatchEntry { subject: slice_to_vec(subject), msg_id: Vec::new(), payload }
    }

    /// With a message id, for streams that refuse repeated ones.
    pub fn with_msg_id(subject: &[u8], msg_id: &[u8], payload: Vec<u8>) -> (r: BatchEntry)
        ensures
            r.subject@ == subject@,
            r.msg_id@ == msg_id@,
            r.payload@ == payload@,
    {
        BatchEntry { subject: slice_to_vec(subject), msg_id: slice_to_vec(msg_id), payload }
    }

    /// Bytes of an entry in a frame.
    pub open spec fn size(&self, header: usize) -> nat {
        header as nat + self.subject@.len() + self.msg_id@.len() + self.payload@.len()
    }
}

/// Bytes of a list of entries in a frame.
pub open spec fn entries_size(entries: Seq<BatchEntry>, header: usize) -> nat
    decreases entries.len(),
{
    if entries.len() == 0 {
        0
    } else {
        entries_size(entries.drop_last(), header) + entries.last().size(header)
    }
}

proof fn entries_size_grows(entries: Seq<BatchEntry>, header: usize, n: int)
    requires
        0 <= n <= entries.len(),
    ensures
        entries_size(entries.take(n), header) <= entries_size(entries, header),
    decreases entries.len() - n,
{
    if n < entries.len() {
        entries_size_grows(entries, header, n + 1);
        assert(entries.take(n + 1).drop_last() =~= entries.take(n));
    } else {
        assert(entries.take(n) =~= entries);
    }
}

/// Bytes that the entries of a batch take up in a frame, with a fixed header
/// each.
pub fn tail_bytes(entries: &Vec<BatchEntry>, header: usize) -> (r: usize)
    requires
        entries_size(entries@, header) <= usize::MAX,
    ensures
        r == entries_size(entries@, header),
{
    let mut total: usize = 0;
    let mut i: usize = 0;
    assert(entries@.take(0) =~= Seq::empty());
    while i < entries.len()
        invariant
            i <= entries@.len(),
            total == entries_size(entries@.take(i as int), header),
            entries_size(entries@, header) <= usize::MAX,
        decreases entries@.len() - i,
    {
        proof {
            entries_size_grows(entries@, header, i + 1);
            assert(entries@.take(i + 1).drop_last() =~= entries@.take(i as int));
        }
        total = total + header + entries[i].subject.len() + entries[i].msg_id.len()
            + entries[i].payload.len();
        i = i + 1;
    }
    assert(entries@.take(i as int) =~= entries@);
    total
}

/// One frame of a batch: its number and the entries `from..to` in it.
#[derive(Debug, Clone, Copy, PartialEq, Eq, Structural)]
pub struct BatchPart {
    pub number: u64,
    pub from: usize,
    pub to: usize,
}

/// Frames that `n` entries need. A batch whose reply is awaited needs one
/// even when it is empty.
pub open spec fn part_count(n: nat, awaited: bool) -> nat {
    if n == 0 && awaited {
        1
    } else {
        (n + 255) / 256
    }
}

/// Frame number `i` of a batch of `n` entries.
pub open spec fn part_at(start: u64, n: nat, i: int) -> BatchPart {
    BatchPart {
        number: counter_after(start, i as nat),
        from: (i * 256) as usize,
        to: if (i + 1) * 256 < n {
            ((i + 1) * 256) as usize
        } else {
            n as usize
        },
    }
}

/// Cut a batch of `n` entries into frames. The reply to wait for, where one
/// is awaited, is that of the first.
pub fn batch_parts(n: usize, awaited: bool, seqs: &mut SeqAllocator) -> (r: Vec<BatchPart>)
    ensures
        r@.len() == part_count(n as nat, awaited),
        forall|i: int| 0 <= i < r@.len() ==> #[trigger] r@[i] == part_at(old(seqs).next, n as nat, i),
        final(seqs).next == counter_after(old(seqs).next, part_count(n as nat, awaited)),
{
    let ghost start = seqs.next;
    let mut out: Vec<BatchPart> = Vec::new();
    if n == 0 && awaited {
        let number: u64 = seqs.next();
        out.push(BatchPart { number, from: 0, to: 0 });
        assert(counter_after(start, 0) == start);
        assert(counter_after(start, 1) == counter_after(start, 0).wrapping_add(1));
        return out;
    }
    let mut at: usize = 0;
    while at < n
        invariant
            at <= n,
            at < n ==> at == out@.len() * 256,
            at == n ==> out@.len() == (n + 255) / 256,
            seqs.next == counter_after(start, out@.len()),
            forall|i: int|
                0 <= i < out@.len() ==> #[trigger] out@[i] == part_at(start, n as nat, i),
        decreases n - at,
    {
        let left: usize = n - at;
        let size: usize = if left < PUBLISH_BATCH_MAX {
            left
        } else {
            PUBLISH_BATCH_MAX
        };
        let number: u64 = seqs.next();
        out.push(BatchPart { number, from: at, to: at + size });
        at = at + size;
    }
    out
}

/// Every entry of a batch is in exactly the frame that its position says, and
/// no frame is over the limit.
pub proof fn parts_cover(start: u64, n: nat, k: int)
    requires
        0 <= k < n <= usize::MAX,
    ensures
        ({
            let part = part_at(start, n, k / 256);
            &&& 0 <= k / 256 < part_count(n, false)
            &&& part_count(n, false) == part_count(n, true)
            &&& part.from <= k < part.to
            &&& part.to - part.from <= PUBLISH_BATCH_MAX
        }),
        forall|i: int|
            0 <= i < part_count(n, false) && (#[trigger] part_at(start, n, i)).from <= k < part_at(
                start,
                n,
                i,
            ).to ==> i == k / 256,
{
}

// ── headers ────────────────────────────────────────────────────────────────
/// Position of the first header with this key.
pub open spec fn first_with_key(headers: Seq<(Vec<u8>, Vec<u8>)>, key: Seq<u8>, i: int) -> bool {
    &&& 0 <= i < headers.len()
    &&& headers[i].0@ == key
    &&& forall|j: int| 0 <= j < i ==> (#[trigger] headers[j]).0@ != key
}

/// The key of the message-id header: `msg-id`.
pub open spec fn msg_id_key() -> Seq<u8> {
    seq![0x6Du8, 0x73u8, 0x67u8, 0x2Du8, 0x69u8, 0x64u8]
}

/// The message id among the headers of a publish: the value of the first
/// `msg-id` header, empty where there is none.
pub fn msg_id_of(headers: &Vec<(Vec<u8>, Vec<u8>)>) -> (r: Vec<u8>)
    ensures
        (exists|i: int| #[trigger] first_with_key(headers@, msg_id_key(), i) && r@
            == headers@[i].1@) || (r@.len() == 0 && forall|j: int|
            0 <= j < headers@.len() ==> (#[trigger] headers@[j]).0@ != msg_id_key()),
        forall|i: int|
            0 <= i < headers@.len() && (#[trigger] headers@[i]).0@ == seq![
                0x6Du8,
                0x73u8,
                0x67u8,
                0x2Du8,
                0x69u8,
                0x64u8,
            ] && (forall|j: int|
                0 <= j < i ==> (#[trigger] headers@[j]).0@ != seq![
                    0x6Du8,
                    0x73u8,
                    0x67u8,
                    0x2Du8,
                    0x69u8,
                    0x64u8,
                ]) ==> r@ == headers@[i].1@,
{
    let mut key: Vec<u8> = Vec::new();
    key.push(0x6D);
    key.push(0x73);
    key.push(0x67);
    key.push(0x2D);
    key.push(0x69);
    key.push(0x64);
    assert(key@ =~= msg_id_key());
    let mut i: usize = 0;
    while i < headers.len()
        invariant
            i <= headers@.len(),
            key@ == msg_id_key(),
            forall|j: int| 0 <= j < i ==> (#[trigger] headers@[j]).0@ != msg_id_key(),
        decreases headers@.len() - i,
    {
        if same_bytes(headers[i].0.as_slice(), key.as_slice()) {
            let id = slice_to_vec(headers[i].1.as_slice());
            assert(first_with_key(headers@, msg_id_key(), i as int));
            return id;
        }
        i = i + 1;
    }
    Vec::new()
}

// ── laws ───────────────────────────────────────────────────────────────────
/// The first frame of a batch has the next number and the first entries; a
/// batch whose reply is awaited has one even where it is empty.
pub proof fn first_part_is_awaited(start: u64, n: nat, awaited: bool)
    requires
        n <= usize::MAX,
    ensures
        part_count(n, awaited) > 0 <==> n > 0 || awaited,
        part_at(start, n, 0).number == start,
        part_at(start, n, 0).from == 0,
        n == 0 ==> part_count(n, awaited) <= 1 && part_at(start, n, 0).to == 0,
{
}

/// The sizes of entries add up: those of two lists together are those of one
/// and those of the other, and an entry takes its header, subject, message id
/// and payload.
pub proof fn sizes_add_up(a: Seq<BatchEntry>, b: Seq<BatchEntry>, e: BatchEntry, header: usize)
    ensures
        entries_size(a + b, header) == entries_size(a, header) + entries_size(b, header),
        entries_size(seq![e], header) == header + e.subject@.len() + e.msg_id@.len()
            + e.payload@.len(),
    decreases b.len(),
{
    reveal_with_fuel(entries_size, 2);
    assert(seq![e].drop_last() =~= Seq::<BatchEntry>::empty());
    if b.len() == 0 {
        assert(a + b =~= a);
    } else {
        sizes_add_up(a, b.drop_last(), e, header);
        assert((a + b).drop_last() =~= a + b.drop_last());
    }
}

/// The frames of a batch follow each other: each has the next number and
/// begins where the one before it ends, and the last ends with the batch.
pub proof fn parts_follow_each_other(start: u64, n: nat, i: int)
    requires
        n <= usize::MAX,
        0 <= i < part_count(n, false),
    ensures
        i + 1 < part_count(n, false) ==> {
            &&& part_at(start, n, i + 1).number == part_at(start, n, i).number.wrapping_add(1)
            &&& part_at(start, n, i + 1).from == part_at(start, n, i).to
            &&& part_at(start, n, i).to - part_at(start, n, i).from == 256
        },
        i + 1 == part_count(n, false) ==> part_at(start, n, i).to == n,
{
    assert(counter_after(start, (i + 1) as nat) == counter_after(start, i as nat).wrapping_add(1));
}

} // verus!
