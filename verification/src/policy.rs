//! Stream and consumer policies, with their wire values.

use vstd::prelude::*;

verus! {

/// Whether deliveries have to be acknowledged.
#[derive(Debug, Clone, Copy, PartialEq, Eq, Structural)]
pub enum AckPolicy {
    NoAck,
    Explicit,
}

/// Where a consumer starts reading. Only the policies that a client decides
/// on are told apart; another one is carried by its wire value.
#[derive(Debug, Clone, Copy, PartialEq, Eq, Structural)]
pub enum DeliverPolicy {
    All,
    ByStartSeq,
    Other(u8),
}

/// How the broker fans messages out.
#[derive(Debug, Clone, Copy, PartialEq, Eq, Structural)]
pub enum DeliverMode {
    /// Every consumer gets every message.
    Fanout,
    /// Consumers of a group share the work.
    Queue,
}

/// Where a stream keeps its journal.
#[derive(Debug, Clone, Copy, PartialEq, Eq, Structural)]
pub enum JournalKind {
    Memory,
    Disk,
    Tolerant,
}

/// When messages become eligible for removal.
#[derive(Debug, Clone, Copy, PartialEq, Eq, Structural)]
pub enum RetentionPolicy {
    Limits,
    Interest,
    WorkQueue,
}

/// What a publish does to a full stream.
#[derive(Debug, Clone, Copy, PartialEq, Eq, Structural)]
pub enum DiscardPolicy {
    Old,
    New,
}

impl AckPolicy {
    pub open spec fn wire(self) -> u8 {
        match self {
            AckPolicy::NoAck => 0,
            AckPolicy::Explicit => 1,
        }
    }

    /// The wire value.
    pub fn as_u8(self) -> (r: u8)
        ensures
            r == self.wire(),
    {
        match self {
            AckPolicy::NoAck => 0,
            AckPolicy::Explicit => 1,
        }
    }
}

impl DeliverPolicy {
    pub open spec fn wire(self, by_start_seq: u8) -> u8 {
        match self {
            DeliverPolicy::All => 0,
            DeliverPolicy::ByStartSeq => by_start_seq,
            DeliverPolicy::Other(code) => code,
        }
    }

    /// The wire value, given the protocol's value for `ByStartSeq`.
    pub fn as_u8(self, by_start_seq: u8) -> (r: u8)
        ensures
            r == self.wire(by_start_seq),
    {
        match self {
            DeliverPolicy::All => 0,
            DeliverPolicy::ByStartSeq => by_start_seq,
            DeliverPolicy::Other(code) => code,
        }
    }
}

impl DeliverMode {
    pub open spec fn wire(self) -> u8 {
        match self {
            DeliverMode::Fanout => 0,
            DeliverMode::Queue => 1,
        }
    }

    /// The wire value.
    pub fn as_u8(self) -> (r: u8)
        ensures
            r == self.wire(),
    {
        match self {
            DeliverMode::Fanout => 0,
            DeliverMode::Queue => 1,
        }
    }
}

impl JournalKind {
    pub open spec fn wire(self) -> u8 {
        match self {
            JournalKind::Memory => 0,
            JournalKind::Disk => 1,
            JournalKind::Tolerant => 2,
        }
    }

    /// The wire value.
    pub fn as_u8(self) -> (r: u8)
        ensures
            r == self.wire(),
    {
        match self {
            JournalKind::Memory => 0,
            JournalKind::Disk => 1,
            JournalKind::Tolerant => 2,
        }
    }
}

impl RetentionPolicy {
    pub open spec fn wire(self) -> u8 {
        match self {
            RetentionPolicy::Limits => 0,
            RetentionPolicy::Interest => 1,
            RetentionPolicy::WorkQueue => 2,
        }
    }

    /// The wire value.
    pub fn as_u8(self) -> (r: u8)
        ensures
            r == self.wire(),
    {
        match self {
            RetentionPolicy::Limits => 0,
            RetentionPolicy::Interest => 1,
            RetentionPolicy::WorkQueue => 2,
        }
    }
}

impl DiscardPolicy {
    pub open spec fn wire(self) -> u8 {
        match self {
            DiscardPolicy::Old => 0,
            DiscardPolicy::New => 1,
        }
    }

    /// The wire value.
    pub fn as_u8(self) -> (r: u8)
        ensures
            r == self.wire(),
    {
        match self {
            DiscardPolicy::Old => 0,
            DiscardPolicy::New => 1,
        }
    }
}

// ── laws ───────────────────────────────────────────────────────────────────
/// Different settings go out as different values.
pub proof fn settings_are_told_apart(
    a1: AckPolicy,
    a2: AckPolicy,
    m1: DeliverMode,
    m2: DeliverMode,
    j1: JournalKind,
    j2: JournalKind,
    r1: RetentionPolicy,
    r2: RetentionPolicy,
    d1: DiscardPolicy,
    d2: DiscardPolicy,
)
    ensures
        a1.wire() == a2.wire() <==> a1 == a2,
        m1.wire() == m2.wire() <==> m1 == m2,
        j1.wire() == j2.wire() <==> j1 == j2,
        r1.wire() == r2.wire() <==> r1 == r2,
        d1.wire() == d2.wire() <==> d1 == d2,
{
}

/// What each setting is on the wire.
pub proof fn wire_values(by_start_seq: u8, code: u8)
    ensures
        AckPolicy::NoAck.wire() == 0 && AckPolicy::Explicit.wire() == 1,
        DeliverPolicy::All.wire(by_start_seq) == 0,
        DeliverPolicy::ByStartSeq.wire(by_start_seq) == by_start_seq,
        DeliverPolicy::Other(code).wire(by_start_seq) == code,
        DeliverMode::Fanout.wire() == 0 && DeliverMode::Queue.wire() == 1,
        JournalKind::Memory.wire() == 0 && JournalKind::Disk.wire() == 1
            && JournalKind::Tolerant.wire() == 2,
        RetentionPolicy::Limits.wire() == 0 && RetentionPolicy::Interest.wire() == 1
            && RetentionPolicy::WorkQueue.wire() == 2,
        DiscardPolicy::Old.wire() == 0 && DiscardPolicy::New.wire() == 1,
{
}

} // verus!
