//! Builder for streams: fluent setters, and the checks that a request must
//! pass before it is sent.

use crate::error::{invalid, ClientError};
use crate::policy::{DiscardPolicy, JournalKind, RetentionPolicy};
use crate::text::{decimal, hex, push_decimal, push_hex};
use vstd::prelude::*;
use vstd::slice::slice_to_vec;

verus! {

/// Longest stream name, in bytes.
pub const MAX_NAME_LEN: usize = 255;

pub const EMPTY_NAME: &'static str = "stream name is empty";

pub const EMPTY_FILTER: &'static str = "stream filter is empty — the stream would capture nothing; use b\">\" to capture everything";

pub const NO_REPLICAS: &'static str = "replicas is 0 — a stream needs at least one";

/// A byte that may stand in a stream name: a letter, a digit, `_` or `-`.
pub open spec fn name_byte(b: u8) -> bool {
    ||| 0x30 <= b <= 0x39
    ||| 0x41 <= b <= 0x5A
    ||| 0x61 <= b <= 0x7A
    ||| b == 0x5F
    ||| b == 0x2D
}

/// Number `i` is the first byte that may not stand in a stream name.
pub open spec fn first_bad(name: Seq<u8>, i: int) -> bool {
    &&& 0 <= i < name.len()
    &&& !name_byte(name[i])
    &&& forall|j: int| 0 <= j < i ==> name_byte(#[trigger] name[j])
}

/// A stream in the making.
#[derive(Debug)]
pub struct StreamBuilder {
    pub name: Vec<u8>,
    pub filter: Vec<u8>,
    pub max_msgs: u64,
    pub max_bytes: u64,
    pub max_age_secs: u64,
    pub replicas: u8,
    pub journal_kind: JournalKind,
    pub retention: RetentionPolicy,
    pub discard: DiscardPolicy,
    pub idempotency_window_ms: u32,
}

/// A request to create a stream, with every field as it goes on the wire.
#[derive(Debug)]
pub struct CreateStream {
    pub name: Vec<u8>,
    pub filter: Vec<u8>,
    pub max_msgs: u64,
    pub max_bytes: u64,
    pub max_age_secs: u64,
    pub replicas: u8,
    pub journal_kind: u8,
    pub retention: u8,
    pub discard: u8,
    pub idempotency_window_ms: u32,
}

/// Position of the first byte that may not stand in a stream name.
pub fn find_bad(name: &[u8]) -> (r: Option<usize>)
    ensures
        match r {
            Some(i) => first_bad(name@, i as int),
            None => forall|j: int| 0 <= j < name@.len() ==> name_byte(#[trigger] name@[j]),
        },
{
    let mut i: usize = 0;
    while i < name.len()
        invariant
            i <= name@.len(),
            forall|j: int| 0 <= j < i ==> name_byte(#[trigger] name@[j]),
        decreases name@.len() - i,
    {
        let b: u8 = name[i];
        if !((b >= 0x30 && b <= 0x39) || (b >= 0x41 && b <= 0x5A) || (b >= 0x61 && b <= 0x7A) || b
            == 0x5F || b == 0x2D) {
            return Some(i);
        }
        i = i + 1;
    }
    None
}

impl StreamBuilder {
    /// `text` is why the settings are refused: the first rule that is broken,
    /// in order.
    pub open spec fn fault(&self, text: Seq<char>) -> bool {
        if self.name@.len() == 0 {
            text == EMPTY_NAME@
        } else if self.name@.len() > MAX_NAME_LEN {
            text == "stream name is "@ + decimal(self.name@.len()) + " bytes, max is 255"@
        } else if exists|i: int| first_bad(self.name@, i) {
            let i = choose|i: int| first_bad(self.name@, i);
            text == "stream name must match [a-zA-Z0-9_-], found byte 0x"@ + hex(
                self.name@[i] as nat,
                2,
            )
        } else if self.filter@.len() == 0 {
            text == EMPTY_FILTER@
        } else {
            self.replicas == 0 && text == NO_REPLICAS@
        }
    }

    /// No rule is broken.
    pub open spec fn sound(&self) -> bool {
        &&& 0 < self.name@.len() <= MAX_NAME_LEN
        &&& forall|i: int| 0 <= i < self.name@.len() ==> name_byte(#[trigger] self.name@[i])
        &&& self.filter@.len() != 0
        &&& self.replicas != 0
    }

    /// A stream named `name` that captures every subject: no limits, one
    /// replica, kept in memory, oldest messages discarded first.
    pub fn new(name: &[u8]) -> (r: StreamBuilder)
        ensures
            r.name@ == name@,
            r.filter@ == seq![0x3Eu8],
            r.max_msgs == 0,
            r.max_bytes == 0,
            r.max_age_secs == 0,
            r.replicas == 1,
            r.journal_kind is Memory,
            r.retention is Limits,
            r.discard is Old,
            r.idempotency_window_ms == 0,
    {
        let mut filter: Vec<u8> = Vec::new();
        filter.push(0x3E);
        assert(filter@ =~= seq![0x3Eu8]);
        StreamBuilder {
            name: slice_to_vec(name),
            filter,
            max_msgs: 0,
            max_bytes: 0,
            max_age_secs: 0,
            replicas: 1,
            journal_kind: JournalKind::Memory,
            retention: RetentionPolicy::Limits,
            discard: DiscardPolicy::Old,
            idempotency_window_ms: 0,
        }
    }

    /// Subject pattern that the stream captures.
    pub fn filter(self, filter: &[u8]) -> (r: StreamBuilder)
        ensures
            r.filter@ == filter@,
            r == (StreamBuilder { filter: r.filter, ..self }),
    {
        StreamBuilder { filter: slice_to_vec(filter), ..self }
    }

    /// Keep at most this many messages. Zero: no limit.
    pub fn max_msgs(self, v: u64) -> (r: StreamBuilder)
        ensures
            r == (StreamBuilder { max_msgs: v, ..self }),
    {
        StreamBuilder { max_msgs: v, ..self }
    }

    /// Keep at most this many bytes. Zero: no limit.
    pub fn max_bytes(self, v: u64) -> (r: StreamBuilder)
        ensures
            r == (StreamBuilder { max_bytes: v, ..self }),
    {
        StreamBuilder { max_bytes: v, ..self }
    }

    /// Message age limit. Zero: none.
    pub fn max_age_secs(self, v: u64) -> (r: StreamBuilder)
        ensures
            r == (StreamBuilder { max_age_secs: v, ..self }),
    {
        StreamBuilder { max_age_secs: v, ..self }
    }

    pub fn replicas(self, v: u8) -> (r: StreamBuilder)
        ensures
            r == (StreamBuilder { replicas: v, ..self }),
    {
        StreamBuilder { replicas: v, ..self }
    }

    pub fn journal_kind(self, v: JournalKind) -> (r: StreamBuilder)
        ensures
            r == (StreamBuilder { journal_kind: v, ..self }),
    {
        StreamBuilder { journal_kind: v, ..self }
    }

    pub fn retention(self, v: RetentionPolicy) -> (r: StreamBuilder)
        ensures
            r == (StreamBuilder { retention: v, ..self }),
    {
        StreamBuilder { retention: v, ..self }
    }

    pub fn discard(self, v: DiscardPolicy) -> (r: StreamBuilder)
        ensures
            r == (StreamBuilder { discard: v, ..self }),
    {
        StreamBuilder { discard: v, ..self }
    }

    /// Window in which a repeated message id is refused. Zero: none.
    pub fn idempotency_window_ms(self, v: u32) -> (r: StreamBuilder)
        ensures
            r == (StreamBuilder { idempotency_window_ms: v, ..self }),
    {
        StreamBuilder { idempotency_window_ms: v, ..self }
    }

    /// Check the settings.
    pub fn validate(&self) -> (r: Result<(), ClientError>)
        ensures
            match r {
                Ok(_) => self.sound(),
                Err(e) => !self.sound() && (e matches ClientError::InvalidConfig(m) && self.fault(
                    m@,
                )),
            },
            r is Ok <==> {
                &&& 0 < self.name@.len() <= 255
                &&& forall|i: int|
                    0 <= i < self.name@.len() ==> {
                        let b = #[trigger] self.name@[i];
                        ||| 0x30 <= b <= 0x39
                        ||| 0x41 <= b <= 0x5A
                        ||| 0x61 <= b <= 0x7A
                        ||| b == 0x5F
                        ||| b == 0x2D
                    }
                &&& self.filter@.len() > 0
                &&& self.replicas > 0
            },
    {
        if self.name.len() == 0 {
            return Err(invalid(EMPTY_NAME));
        }
        if self.name.len() > MAX_NAME_LEN {
            let mut s = "stream name is ".to_owned();
            push_decimal(&mut s, self.name.len() as u64);
            s.push_str(" bytes, max is 255");
            return Err(ClientError::InvalidConfig(s));
        }
        match find_bad(self.name.as_slice()) {
            Some(i) => {
                let mut s = "stream name must match [a-zA-Z0-9_-], found byte 0x".to_owned();
                push_hex(&mut s, self.name[i] as u64, 2);
                proof {
                    let k = choose|k: int| first_bad(self.name@, k);
                    assert(first_bad(self.name@, k) && first_bad(self.name@, i as int));
                    assert(k == i) by {
                        if k < i {
                            assert(name_byte(self.name@[k]));
                        } else if i < k {
                            assert(name_byte(self.name@[i as int]));
                        }
                    }
                }
                return Err(ClientError::InvalidConfig(s));
            },
            None => {},
        }
        assert forall|i: int| !first_bad(self.name@, i) by {
            if first_bad(self.name@, i) {
                assert(name_byte(self.name@[i]));
            }
        }
        if self.filter.len() == 0 {
            return Err(invalid(EMPTY_FILTER));
        }
        if self.replicas == 0 {
            return Err(invalid(NO_REPLICAS));
        }
        Ok(())
    }

    /// The request to send, where the settings are sound.
    pub fn request(self) -> (r: Result<CreateStream, ClientError>)
        ensures
            match r {
                Ok(req) => {
                    &&& self.sound()
                    &&& req.name@ == self.name@
                    &&& req.filter@ == self.filter@
                    &&& req.max_msgs == self.max_msgs
                    &&& req.max_bytes == self.max_bytes
                    &&& req.max_age_secs == self.max_age_secs
                    &&& req.replicas == self.replicas
                    &&& req.journal_kind == self.journal_kind.wire()
                    &&& req.retention == self.retention.wire()
                    &&& req.discard == self.discard.wire()
                    &&& req.idempotency_window_ms == self.idempotency_window_ms
                },
                Err(e) => !self.sound() && (e matches ClientError::InvalidConfig(m) && self.fault(
                    m@,
                )),
            },
    {
        match self.validate() {
            Ok(_) => {},
            Err(e) => {
                return Err(e);
            },
        }
        Ok(
            CreateStream {
                name: self.name,
                filter: self.filter,
                max_msgs: self.max_msgs,
                max_bytes: self.max_bytes,
                max_age_secs: self.max_age_secs,
                replicas: self.replicas,
                journal_kind: self.journal_kind.as_u8(),
                retention: self.retention.as_u8(),
                discard: self.discard.as_u8(),
                idempotency_window_ms: self.idempotency_window_ms,
            },
        )
    }
}

} // verus!
