//! Queue-group defaulting: one rule for every path that creates a consumer.
//!
//! An empty group in queue mode does not mean "no queue": it names one shared
//! queue that every group-less consumer of the stream would join. So an empty
//! group never leaves the client.

use crate::error::{invalid, refused, ClientError};
use vstd::prelude::*;

verus! {

/// What is said of a consumer with nothing to name its group after.
pub const NO_GROUP: &'static str = "consumer needs a queue group: none of group, consumer name or stream name was set. An empty group is rejected by the broker — it would otherwise share one anonymous queue with every other group-less consumer on the stream";

/// The first of three names that is not empty, if any.
pub open spec fn group_of(group: Seq<u8>, name: Seq<u8>, stream_name: Seq<u8>) -> Option<Seq<u8>> {
    if group.len() != 0 {
        Some(group)
    } else if name.len() != 0 {
        Some(name)
    } else if stream_name.len() != 0 {
        Some(stream_name)
    } else {
        None
    }
}

/// First non-empty of `group`, `name`, `stream_name`; an error when all three
/// are empty.
pub fn resolve_group<'a>(group: &'a [u8], name: &'a [u8], stream_name: &'a [u8]) -> (r: Result<
    &'a [u8],
    ClientError,
>)
    ensures
        match group_of(group@, name@, stream_name@) {
            Some(g) => r matches Ok(out) && out@ == g,
            None => refused(r, NO_GROUP@),
        },
        r matches Ok(out) ==> out@.len() != 0,
        group@.len() != 0 ==> (r matches Ok(out) && out@ == group@),
        group@.len() == 0 && name@.len() != 0 ==> (r matches Ok(out) && out@ == name@),
        group@.len() == 0 && name@.len() == 0 && stream_name@.len() != 0 ==> (r matches Ok(out)
            && out@ == stream_name@),
        group@.len() == 0 && name@.len() == 0 && stream_name@.len() == 0 ==> r is Err,
{
    if group.len() != 0 {
        return Ok(group);
    }
    if name.len() != 0 {
        return Ok(name);
    }
    if stream_name.len() != 0 {
        return Ok(stream_name);
    }
    Err(invalid(NO_GROUP))
}

} // verus!
