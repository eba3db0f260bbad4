//! Heartbeat watchdog: pings the broker and detects dead connections.

use crate::error::ClientError;
use crate::le::{le_bytes, le_value, push_u16};
use crate::transport::frame::WriteFrame;
use vstd::prelude::*;

verus! {

/// Action number of a ping.
pub const PING: u16 = 0x0601;

/// A header that carries an action and nothing else.
pub open spec fn bare_header(action: u16) -> Seq<u8> {
    le_bytes(action as nat, 2) + Seq::new(14, |i: int| 0u8)
}

/// No answer has come for longer than the timeout.
pub open spec fn dead(now_ns: u64, last_pong_ns: u64, timeout_ns: u64) -> bool {
    now_ns - last_pong_ns > timeout_ns
}

/// A frame that is a header with only its action set.
pub fn header_frame(action: u16) -> (r: Vec<u8>)
    ensures
        r@ == bare_header(action),
{
    let mut bytes: Vec<u8> = Vec::new();
    push_u16(&mut bytes, action);
    let ghost head = bytes@;
    let mut i: usize = 0;
    while i < 14
        invariant
            i <= 14,
            bytes@ == head + Seq::new(i as nat, |j: int| 0u8),
        decreases 14 - i,
    {
        bytes.push(0);
        i = i + 1;
        assert(bytes@ =~= head + Seq::new(i as nat, |j: int| 0u8));
    }
    assert(bytes@ =~= bare_header(action));
    bytes
}

/// One beat: `Disconnected` when the connection is dead, else the ping to
/// send.
pub fn beat(now_ns: u64, last_pong_ns: u64, timeout_ns: u64) -> (r: Result<WriteFrame, ClientError>)
    ensures
        match r {
            Ok(f) => !dead(now_ns, last_pong_ns, timeout_ns) && f is Inline && f.wf() && f@
                == bare_header(PING),
            Err(e) => dead(now_ns, last_pong_ns, timeout_ns) && e is Disconnected,
        },
        r is Err <==> now_ns - last_pong_ns > timeout_ns,
        r matches Ok(f) ==> {
            &&& f@.len() == 16
            &&& le_value(f@.subrange(0, 2)) == 0x0601
            &&& forall|i: int| 2 <= i < 16 ==> f@[i] == 0
        },
{
    let age: u64 = now_ns.saturating_sub(last_pong_ns);
    if age > timeout_ns {
        return Err(ClientError::Disconnected);
    }
    proof {
        crate::le::le_bytes_len(PING as nat, 2);
        crate::le::pow256_values();
        crate::le::le_round_trip(PING as nat, 2);
        assert(bare_header(PING).subrange(0, 2) =~= le_bytes(PING as nat, 2));
    }
    Ok(WriteFrame::pack(header_frame(PING)))
}

} // verus!
