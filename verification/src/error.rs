//! What a client operation can fail with.

use crate::text::{decimal, hex, push_decimal, push_hex};
use vstd::prelude::*;

verus! {

/// The broker's error codes that the client tells apart. Every other known
/// code is carried by number.
#[derive(Debug, Clone, Copy, PartialEq, Eq, Structural)]
pub enum ErrorCode {
    AuthRequired,
    AuthFailed,
    StreamNotFound,
    StreamAlreadyExists,
    ConsumerNotFound,
    ConsumerAlreadyExists,
    IdempotencyDuplicate,
    Other(u16),
}

/// A reply that could not be parsed.
#[derive(Debug)]
pub enum ProtoError {
    BufferTooShort { need: usize, have: usize },
    Malformed(String),
}

/// All errors a client operation can surface.
#[derive(Debug)]
pub enum ClientError {
    /// Connection or file failure, with the system's own words.
    Io(String),
    /// A reply could not be parsed.
    Proto(ProtoError),
    /// The broker refused a request.
    Broker { code: ErrorCode },
    /// The broker refused a request with a code this client does not know.
    BrokerUnknown(u16),
    /// No reply came in time.
    Timeout,
    /// Not connected.
    Disconnected,
    /// The writer is gone.
    ChannelClosed,
    /// The caller asked for something that cannot work.
    InvalidConfig(String),
    /// The write ring is full; retry.
    QueueFull,
    /// Every write ring is leased; retry.
    PoolExhausted,
    /// TLS setup or handshake failure.
    Tls(String),
    /// The message carries no address to reply to.
    NoReplyAddress,
}

/// `r` failed as a configuration error with this text.
pub open spec fn refused<T>(r: Result<T, ClientError>, text: Seq<char>) -> bool {
    r matches Err(e) && is_invalid(e, text)
}

/// A configuration error with this text.
pub open spec fn is_invalid(e: ClientError, text: Seq<char>) -> bool {
    e matches ClientError::InvalidConfig(m) && m@ == text
}

/// A configuration error.
pub fn invalid(text: &str) -> (r: ClientError)
    ensures
        is_invalid(r, text@),
{
    ClientError::InvalidConfig(text.to_owned())
}

impl ErrorCode {
    pub open spec fn words(&self) -> Seq<char> {
        match self {
            ErrorCode::AuthRequired => "AuthRequired"@,
            ErrorCode::AuthFailed => "AuthFailed"@,
            ErrorCode::StreamNotFound => "StreamNotFound"@,
            ErrorCode::StreamAlreadyExists => "StreamAlreadyExists"@,
            ErrorCode::ConsumerNotFound => "ConsumerNotFound"@,
            ErrorCode::ConsumerAlreadyExists => "ConsumerAlreadyExists"@,
            ErrorCode::IdempotencyDuplicate => "IdempotencyDuplicate"@,
            ErrorCode::Other(code) => "code 0x"@ + hex(*code as nat, 4),
        }
    }

    /// The code in words.
    pub fn name(&self) -> (r: String)
        ensures
            r@ == self.words(),
    {
        match self {
            ErrorCode::AuthRequired => "AuthRequired".to_owned(),
            ErrorCode::AuthFailed => "AuthFailed".to_owned(),
            ErrorCode::StreamNotFound => "StreamNotFound".to_owned(),
            ErrorCode::StreamAlreadyExists => "StreamAlreadyExists".to_owned(),
            ErrorCode::ConsumerNotFound => "ConsumerNotFound".to_owned(),
            ErrorCode::ConsumerAlreadyExists => "ConsumerAlreadyExists".to_owned(),
            ErrorCode::IdempotencyDuplicate => "IdempotencyDuplicate".to_owned(),
            ErrorCode::Other(code) => {
                let mut s = "code 0x".to_owned();
                push_hex(&mut s, *code as u64, 4);
                s
            },
        }
    }
}

impl ProtoError {
    pub open spec fn words(&self) -> Seq<char> {
        match self {
            ProtoError::BufferTooShort { need, have } => "BufferTooShort { need: "@ + decimal(
                *need as nat,
            ) + ", have: "@ + decimal(*have as nat) + " }"@,
            ProtoError::Malformed(m) => m@,
        }
    }

    /// The failure in words.
    pub fn message(&self) -> (r: String)
        ensures
            r@ == self.words(),
    {
        match self {
            ProtoError::BufferTooShort { need, have } => {
                let mut s = "BufferTooShort { need: ".to_owned();
                push_decimal(&mut s, *need as u64);
                s.push_str(", have: ");
                push_decimal(&mut s, *have as u64);
                s.push_str(" }");
                s
            },
            ProtoError::Malformed(m) => m.clone(),
        }
    }
}

impl ClientError {
    pub open spec fn words(&self) -> Seq<char> {
        match self {
            ClientError::Io(e) => "io: "@ + e@,
            ClientError::Proto(e) => "proto: "@ + e.words(),
            ClientError::Broker { code } => "broker error: "@ + code.words(),
            ClientError::BrokerUnknown(code) => "broker error: unknown code 0x"@ + hex(
                *code as nat,
                4,
            ),
            ClientError::Timeout => "timeout"@,
            ClientError::Disconnected => "disconnected"@,
            ClientError::ChannelClosed => "channel closed"@,
            ClientError::InvalidConfig(m) => "invalid config: "@ + m@,
            ClientError::QueueFull => "queue full"@,
            ClientError::PoolExhausted => "pool exhausted"@,
            ClientError::Tls(m) => "tls: "@ + m@,
            ClientError::NoReplyAddress => "no reply address"@,
        }
    }

    /// The error in words.
    pub fn message(&self) -> (r: String)
        ensures
            r@ == self.words(),
    {
        match self {
            ClientError::Io(e) => {
                let mut s = "io: ".to_owned();
                s.push_str(e.as_str());
                s
            },
            ClientError::Proto(e) => {
                let mut s = "proto: ".to_owned();
                s.push_str(e.message().as_str());
                s
            },
            ClientError::Broker { code } => {
                let mut s = "broker error: ".to_owned();
                s.push_str(code.name().as_str());
                s
            },
            ClientError::BrokerUnknown(code) => {
                let mut s = "broker error: unknown code 0x".to_owned();
                push_hex(&mut s, *code as u64, 4);
                s
            },
            ClientError::Timeout => "timeout".to_owned(),
            ClientError::Disconnected => "disconnected".to_owned(),
            ClientError::ChannelClosed => "channel closed".to_owned(),
            ClientError::InvalidConfig(m) => {
                let mut s = "invalid config: ".to_owned();
                s.push_str(m.as_str());
                s
            },
            ClientError::QueueFull => "queue full".to_owned(),
            ClientError::PoolExhausted => "pool exhausted".to_owned(),
            ClientError::Tls(m) => {
                let mut s = "tls: ".to_owned();
                s.push_str(m.as_str());
                s
            },
            ClientError::NoReplyAddress => "no reply address".to_owned(),
        }
    }

    /// The error for a wire code: typed where the protocol knows the code,
    /// the bare number where it does not.
    pub fn from_wire_code(code: u16, typed: Option<ErrorCode>) -> (r: ClientError)
        ensures
            r == (match typed {
                Some(c) => ClientError::Broker { code: c },
                None => ClientError::BrokerUnknown(code),
            }),
    {
        match typed {
            Some(c) => ClientError::Broker { code: c },
            None => ClientError::BrokerUnknown(code),
        }
    }
}

/// What a request is answered with: the body of the reply, or an error.
pub type RequestResult = Result<Vec<u8>, ClientError>;

// ── laws ───────────────────────────────────────────────────────────────────
/// What is said of each kind of failure.
pub proof fn failures_are_named(e: ClientError)
    ensures
        match e {
            ClientError::Io(t) => e.words() == "io: "@ + t@,
            ClientError::Proto(p) => e.words() == "proto: "@ + p.words(),
            ClientError::Broker { code } => e.words() == "broker error: "@ + code.words(),
            ClientError::BrokerUnknown(code) => e.words() == "broker error: unknown code 0x"@ + hex(
                code as nat,
                4,
            ),
            ClientError::Timeout => e.words() == "timeout"@,
            ClientError::Disconnected => e.words() == "disconnected"@,
            ClientError::ChannelClosed => e.words() == "channel closed"@,
            ClientError::InvalidConfig(t) => e.words() == "invalid config: "@ + t@,
            ClientError::QueueFull => e.words() == "queue full"@,
            ClientError::PoolExhausted => e.words() == "pool exhausted"@,
            ClientError::Tls(t) => e.words() == "tls: "@ + t@,
            ClientError::NoReplyAddress => e.words() == "no reply address"@,
        },
{
}

} // verus!
