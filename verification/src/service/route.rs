//! What a service does with what it receives.

use crate::bytes::{begins, starts_with};
use crate::service::names::{answered, method_prefix, write_method_subject};
use crate::text::parse_u64;
use vstd::prelude::*;
use vstd::slice::{slice_subrange, slice_to_vec};

verus! {

/// A request as its handler sees it. Whether it is acknowledged follows from
/// what the handler returns.
#[derive(Debug)]
pub struct Request {
    pub subject: Vec<u8>,
    pub payload: Vec<u8>,
    pub has_reply: bool,
    pub seq: u64,
    pub consumer_id: u32,
}

impl Request {
    /// The whole subject.
    pub fn subject(&self) -> (r: &[u8])
        ensures
            r@ == self.subject@,
    {
        self.subject.as_slice()
    }

    /// The method: what follows the method prefix of the service. `None` for
    /// a subject that has not that form.
    pub fn method(&self, service_name: &str) -> (r: Option<&[u8]>)
        ensures
            match r {
                Some(m) => begins(self.subject@, method_prefix(service_name@)) && m@
                    == self.subject@.skip(method_prefix(service_name@).len() as int) && m@.len() > 0,
                None => !begins(self.subject@, method_prefix(service_name@)) || self.subject@
                    == method_prefix(service_name@),
            },
    {
        let none: Vec<u8> = Vec::new();
        let prefix = write_method_subject(service_name, none.as_slice());
        assert(prefix@ =~= method_prefix(service_name@));
        if self.subject.len() > prefix.len() && starts_with(
            self.subject.as_slice(),
            prefix.as_slice(),
        ) {
            let m = slice_subrange(self.subject.as_slice(), prefix.len(), self.subject.len());
            assert(m@ =~= self.subject@.skip(prefix@.len() as int));
            Some(m)
        } else {
            assert(begins(self.subject@, prefix@) && self.subject@.len() == prefix@.len() ==> {
                self.subject@ =~= prefix@
            }) by {
                if begins(self.subject@, prefix@) && self.subject@.len() == prefix@.len() {
                    assert(self.subject@.take(prefix@.len() as int) =~= self.subject@);
                }
            }
            None
        }
    }

    /// A copy of the payload.
    pub fn payload(&self) -> (r: Vec<u8>)
        ensures
            r@ == self.payload@,
    {
        slice_to_vec(self.payload.as_slice())
    }

    pub fn data(&self) -> (r: &[u8])
        ensures
            r@ == self.payload@,
    {
        self.payload.as_slice()
    }

    /// The sender waits for a reply.
    pub fn has_reply(&self) -> (r: bool)
        ensures
            r == self.has_reply,
    {
        self.has_reply
    }

    pub fn seq(&self) -> (r: u64)
        ensures
            r == self.seq,
    {
        self.seq
    }

    pub fn consumer_id(&self) -> (r: u32)
        ensures
            r == self.consumer_id,
    {
        self.consumer_id
    }
}

/// The request that a message on the reply consumer answers. The message is
/// acknowledged in any case: a reply is never worth a redelivery.
pub fn reply_for(prefix: &[u8], subject: &[u8]) -> (r: Option<u64>)
    ensures
        r == answered(prefix@, subject@),
{
    if starts_with(subject, prefix) {
        let tail = slice_subrange(subject, prefix.len(), subject.len());
        assert(tail@ =~= subject@.skip(prefix@.len() as int));
        parse_u64(tail)
    } else {
        None
    }
}

/// How a request is answered.
#[derive(Debug)]
pub enum ServiceAnswer {
    /// Acknowledge it, after publishing the reply where there is one.
    Ack(Option<Vec<u8>>),
    /// Hand it back for redelivery.
    Nack,
}

/// The answer that follows from what a handler returned; `None` for a request
/// without a handler. Exactly one ack or nack goes out. An empty reply, or one
/// that nobody waits for, is not published.
pub fn answer(has_reply: bool, handled: Option<Result<Vec<u8>, ()>>) -> (r: ServiceAnswer)
    ensures
        match handled {
            Some(Ok(data)) => r == ServiceAnswer::Ack(
                if has_reply && data@.len() != 0 {
                    Some(data)
                } else {
                    None
                },
            ),
            _ => r is Nack,
        },
{
    match handled {
        Some(Ok(data)) => {
            if has_reply && data.len() != 0 {
                ServiceAnswer::Ack(Some(data))
            } else {
                ServiceAnswer::Ack(None)
            }
        },
        _ => ServiceAnswer::Nack,
    }
}

} // verus!
