//! Requests that wait for a reply, and the streams of the services they go
//! to.

use crate::consume::message::{encode_reply_to, reply_address};
use crate::error::ClientError;
use crate::service::names::{
    method_subject, reply_subject, write_method_subject, write_reply_subject,
};
use std::collections::BTreeMap;
use vstd::prelude::*;

verus! {

broadcast use vstd::laws_cmp::group_laws_cmp;

/// Waiting requests by correlation number. `T` is whatever wakes the caller.
pub struct ReplyMux<T> {
    pub pending: BTreeMap<u64, T>,
    pub next_corr: u64,
}

impl<T> ReplyMux<T> {
    pub fn new() -> (r: ReplyMux<T>)
        ensures
            r.pending@ == Map::<u64, T>::empty(),
            r.next_corr == 1,
    {
        ReplyMux { pending: BTreeMap::new(), next_corr: 1 }
    }

    /// A correlation number that is not in use, short of wrapping.
    pub fn next_correlation(&mut self) -> (r: u64)
        ensures
            r == old(self).next_corr,
            final(self).next_corr == old(self).next_corr.wrapping_add(1),
            final(self).pending@ == old(self).pending@,
    {
        let r = self.next_corr;
        self.next_corr = r.wrapping_add(1);
        r
    }

    /// Wait under a correlation number.
    pub fn register(&mut self, corr: u64, tx: T)
        ensures
            final(self).pending@ == old(self).pending@.insert(corr, tx),
            final(self).next_corr == old(self).next_corr,
    {
        self.pending.insert(corr, tx);
    }

    /// The reply is there: whom to hand it to, if anyone still waits.
    pub fn complete(&mut self, corr: u64) -> (r: Option<T>)
        ensures
            final(self).pending@ == old(self).pending@.remove(corr),
            final(self).next_corr == old(self).next_corr,
            r == (if old(self).pending@.contains_key(corr) {
                Some(old(self).pending@[corr])
            } else {
                None
            }),
    {
        let r = self.pending.remove(&corr);
        assert(self.pending@ =~= old(self).pending@.remove(corr));
        r
    }

    /// Stop waiting.
    pub fn cancel(&mut self, corr: u64)
        ensures
            final(self).pending@ == old(self).pending@.remove(corr),
            final(self).next_corr == old(self).next_corr,
    {
        let _gone = self.complete(corr);
    }
}

/// A request on its way out.
#[derive(Debug)]
pub struct Outgoing {
    pub corr: u64,
    pub subject: Vec<u8>,
    /// Where the reply is to go: this service's stream, under a subject that
    /// names this instance and this request.
    pub reply_to: Vec<u8>,
}

/// Start a request to method `method` of service `target`: wait for its reply
/// and tell what to publish.
pub fn begin_request<T>(
    mux: &mut ReplyMux<T>,
    tx: T,
    service: &str,
    stream_id: u32,
    instance: u64,
    target: &str,
    method: &[u8],
) -> (r: Outgoing)
    ensures
        r.corr == old(mux).next_corr,
        r.subject@ == method_subject(target@, method@),
        r.reply_to@ == reply_address(stream_id, reply_subject(service@, instance, r.corr)),
        final(mux).pending@ == old(mux).pending@.insert(r.corr, tx),
        final(mux).next_corr == old(mux).next_corr.wrapping_add(1),
{
    let corr: u64 = mux.next_correlation();
    mux.register(corr, tx);
    let subject = write_method_subject(target, method);
    let reply = write_reply_subject(service, instance, corr);
    Outgoing { corr, subject, reply_to: encode_reply_to(stream_id, reply.as_slice()) }
}

/// How waiting for a reply ended.
#[derive(Debug)]
pub enum ReplyEnd {
    Data(Vec<u8>),
    /// The other end is gone.
    Dropped,
    TimedOut,
}

/// Finish a request. One that ran out of time stops waiting.
pub fn finish_request<T>(mux: &mut ReplyMux<T>, corr: u64, end: ReplyEnd) -> (r: Result<
    Vec<u8>,
    ClientError,
>)
    ensures
        r == (match end {
            ReplyEnd::Data(data) => Ok::<Vec<u8>, ClientError>(data),
            ReplyEnd::Dropped => Err(ClientError::Timeout),
            ReplyEnd::TimedOut => Err(ClientError::Timeout),
        }),
        final(mux).next_corr == old(mux).next_corr,
        final(mux).pending@ == if end is TimedOut {
            old(mux).pending@.remove(corr)
        } else {
            old(mux).pending@
        },
{
    match end {
        ReplyEnd::Data(data) => Ok(data),
        ReplyEnd::Dropped => Err(ClientError::Timeout),
        ReplyEnd::TimedOut => {
            mux.cancel(corr);
            Err(ClientError::Timeout)
        },
    }
}

/// The streams of services that have been asked for before.
pub struct StreamCache {
    pub entries: Vec<(String, u32)>,
}

impl StreamCache {
    /// Entry number `i` is that of `name`.
    pub open spec fn entry_at(&self, name: Seq<char>, i: int) -> bool {
        0 <= i < self.entries@.len() && self.entries@[i].0@ == name
    }

    /// Each service stands there once.
    pub open spec fn wf(&self) -> bool {
        forall|i: int, j: int|
            #![trigger self.entries@[i], self.entries@[j]]
            0 <= i < j < self.entries@.len() ==> self.entries@[i].0@ != self.entries@[j].0@
    }

    /// The stream of a service, where it is known.
    pub open spec fn stream_of(&self, name: Seq<char>) -> Option<u32> {
        if exists|i: int| self.entry_at(name, i) {
            Some(self.entries@[choose|i: int| self.entry_at(name, i)].1)
        } else {
            None
        }
    }

    /// A cache that knows the service itself.
    pub fn new(name: &str, stream_id: u32) -> (r: StreamCache)
        ensures
            r.wf(),
            r.stream_of(name@) == Some(stream_id),
            forall|other: Seq<char>| other != name@ ==> #[trigger] r.stream_of(other) is None,
    {
        let mut entries: Vec<(String, u32)> = Vec::new();
        entries.push((name.to_owned(), stream_id));
        let r = StreamCache { entries };
        assert(r.entry_at(name@, 0));
        r
    }

    /// Look a service up.
    pub fn get(&self, name: &str) -> (r: Option<u32>)
        requires
            self.wf(),
        ensures
            r == self.stream_of(name@),
    {
        let key: String = name.to_owned();
        let mut i: usize = 0;
        while i < self.entries.len()
            invariant
                i <= self.entries@.len(),
                key@ == name@,
                self.wf(),
                forall|j: int| 0 <= j < i ==> (#[trigger] self.entries@[j]).0@ != name@,
            decreases self.entries@.len() - i,
        {
            if self.entries[i].0 == key {
                proof {
                    assert(self.entry_at(name@, i as int));
                    let k = choose|k: int| self.entry_at(name@, k);
                    assert(self.entries@[k].0@ == self.entries@[i as int].0@);
                }
                return Some(self.entries[i].1);
            }
            i = i + 1;
        }
        None
    }

    /// Remember the stream of a service, in place of what was known of it.
    pub fn insert(&mut self, name: &str, stream_id: u32)
        requires
            old(self).wf(),
        ensures
            final(self).wf(),
            final(self).stream_of(name@) == Some(stream_id),
            forall|other: Seq<char>|
                other != name@ ==> #[trigger] final(self).stream_of(other) == old(self).stream_of(
                    other,
                ),
    {
        let ghost c0 = *self;
        let key: String = name.to_owned();
        let mut at: usize = 0;
        while at < self.entries.len() && self.entries[at].0 != key
            invariant
                at <= self.entries@.len(),
                key@ == name@,
                *self == c0,
                forall|j: int| 0 <= j < at ==> (#[trigger] self.entries@[j]).0@ != name@,
            decreases self.entries@.len() - at,
        {
            at = at + 1;
        }
        if at < self.entries.len() {
            self.entries.set(at, (key, stream_id));
        } else {
            self.entries.push((key, stream_id));
        }
        proof {
            let n = at as int;
            assert(self.entries@[n].0@ == name@);
            assert(forall|j: int|
                0 <= j < self.entries@.len() && j != n ==> (#[trigger] self.entries@[j])
                    == c0.entries@[j]);
            assert forall|j: int| 0 <= j < c0.entries@.len() && j != n implies (
            #[trigger] c0.entries@[j]).0@ != name@ by {
                if n < c0.entries@.len() {
                    assert(c0.entries@[n].0@ == name@);
                }
            }
            assert(self.entry_at(name@, n));
            let k = choose|k: int| self.entry_at(name@, k);
            assert(k == n);
            assert forall|other: Seq<char>| other != name@ implies #[trigger] self.stream_of(other)
                == c0.stream_of(other) by {
                assert forall|i: int| self.entry_at(other, i) == c0.entry_at(other, i) by {}
                if exists|i: int| c0.entry_at(other, i) {
                    let a = choose|i: int| c0.entry_at(other, i);
                    assert(self.entry_at(other, a));
                    let b = choose|i: int| self.entry_at(other, i);
                    assert(c0.entry_at(other, b));
                    assert(c0.entries@[a].0@ == c0.entries@[b].0@);
                } else if exists|i: int| self.entry_at(other, i) {
                    let b = choose|i: int| self.entry_at(other, i);
                    assert(c0.entry_at(other, b));
                }
            }
        }
    }
}

} // verus!
