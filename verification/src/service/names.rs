//! Stream, consumer and subject names of a service.
//!
//! Methods live under `_svc.<name>.m.`, replies under
//! `_svc.<name>._r.<instance>.`. The two never meet: a worker's filter matches
//! no reply, so no sibling instance can be handed a reply that is not its own.
//! Names use dashes, subjects use dots.

use crate::bytes::begins;
use crate::text::{
    bytes_in, decimal, decimal_digits, decimal_injective, encode_ascii, encode_concat, numeral,
    numeral_round_trip, push_decimal,
};
use vstd::prelude::*;
use vstd::utf8::encode_utf8;

verus! {

/// Start of every method subject of a service.
pub open spec fn method_prefix(name: Seq<char>) -> Seq<u8> {
    encode_utf8("_svc."@ + name + ".m."@)
}

/// The subject of a method.
pub open spec fn method_subject(name: Seq<char>, method: Seq<u8>) -> Seq<u8> {
    method_prefix(name) + method
}

/// Start of every reply subject of one instance of a service.
pub open spec fn reply_prefix(name: Seq<char>, instance: u64) -> Seq<u8> {
    encode_utf8("_svc."@ + name + "._r."@ + decimal(instance as nat) + "."@)
}

/// The subject of the reply to one request.
pub open spec fn reply_subject(name: Seq<char>, instance: u64, corr: u64) -> Seq<u8> {
    reply_prefix(name, instance) + encode_utf8(decimal(corr as nat))
}

/// Start of the subjects of a service.
fn service_text(name: &str) -> (s: String)
    ensures
        s@ == "_svc."@ + name@,
{
    let mut s = "_svc.".to_owned();
    s.push_str(name);
    s
}

/// Write the subject of a method.
pub fn write_method_subject(name: &str, method: &[u8]) -> (r: Vec<u8>)
    ensures
        r@ == method_subject(name@, method@),
{
    let mut s = service_text(name);
    s.push_str(".m.");
    let mut out = bytes_in(s.as_str());
    out.extend_from_slice(method);
    assert(out@ =~= method_subject(name@, method@));
    out
}

/// Write the start of the reply subjects of one instance.
pub fn write_reply_prefix(name: &str, instance: u64) -> (r: Vec<u8>)
    ensures
        r@ == reply_prefix(name@, instance),
{
    let mut s = service_text(name);
    s.push_str("._r.");
    push_decimal(&mut s, instance);
    s.push_str(".");
    bytes_in(s.as_str())
}

/// Write the subject of the reply to one request.
pub fn write_reply_subject(name: &str, instance: u64, corr: u64) -> (r: Vec<u8>)
    ensures
        r@ == reply_subject(name@, instance, corr),
{
    let mut out = write_reply_prefix(name, instance);
    let mut s = "".to_owned();
    push_decimal(&mut s, corr);
    proof {
        reveal_strlit("");
        assert(""@ + decimal(corr as nat) =~= decimal(corr as nat));
    }
    let tail = bytes_in(s.as_str());
    out.extend_from_slice(tail.as_slice());
    assert(out@ =~= reply_subject(name@, instance, corr));
    out
}

/// What a service's stream captures: `_svc.<name>.>`.
pub fn stream_filter(name: &str) -> (r: Vec<u8>)
    ensures
        r@ == encode_utf8("_svc."@ + name@ + ".>"@),
{
    let mut s = service_text(name);
    s.push_str(".>");
    bytes_in(s.as_str())
}

/// What a worker takes: `_svc.<name>.m.>`.
pub fn worker_filter(name: &str) -> (r: Vec<u8>)
    ensures
        r@ == encode_utf8("_svc."@ + name@ + ".m.>"@),
{
    let mut s = service_text(name);
    s.push_str(".m.>");
    bytes_in(s.as_str())
}

/// What one instance takes as replies: `_svc.<name>._r.<instance>.>`.
pub fn reply_filter(name: &str, instance: u64) -> (r: Vec<u8>)
    ensures
        r@ == encode_utf8("_svc."@ + name@ + "._r."@ + decimal(instance as nat) + ".>"@),
{
    let mut s = service_text(name);
    s.push_str("._r.");
    push_decimal(&mut s, instance);
    s.push_str(".>");
    bytes_in(s.as_str())
}

/// A service's stream: `_svc-<name>`.
pub fn stream_name(name: &str) -> (r: Vec<u8>)
    ensures
        r@ == encode_utf8("_svc-"@ + name@),
{
    let mut s = "_svc-".to_owned();
    s.push_str(name);
    bytes_in(s.as_str())
}

/// The consumer that the workers share: `_svc-<name>-worker`.
pub fn worker_name(name: &str) -> (r: Vec<u8>)
    ensures
        r@ == encode_utf8("_svc-"@ + name@ + "-worker"@),
{
    let mut s = "_svc-".to_owned();
    s.push_str(name);
    s.push_str("-worker");
    bytes_in(s.as_str())
}

/// The consumer of one instance's replies: `_svc-<name>-reply-<instance>`.
pub fn reply_name(name: &str, instance: u64) -> (r: Vec<u8>)
    ensures
        r@ == encode_utf8("_svc-"@ + name@ + "-reply-"@ + decimal(instance as nat)),
{
    let mut s = "_svc-".to_owned();
    s.push_str(name);
    s.push_str("-reply-");
    push_decimal(&mut s, instance);
    bytes_in(s.as_str())
}

/// The request that a reply subject answers, for one instance.
pub open spec fn answered(prefix: Seq<u8>, subject: Seq<u8>) -> Option<u64> {
    if begins(subject, prefix) {
        numeral(subject.skip(prefix.len() as int))
    } else {
        None
    }
}

/// A reply reaches the request that it was sent for: its subject names that
/// request to the instance that made it.
pub proof fn reply_finds_its_request(name: Seq<char>, instance: u64, corr: u64)
    ensures
        answered(reply_prefix(name, instance), reply_subject(name, instance, corr)) == Some(corr),
{
    let p = reply_prefix(name, instance);
    let t = encode_utf8(decimal(corr as nat));
    let s = reply_subject(name, instance, corr);
    assert(s.take(p.len() as int) =~= p);
    assert(s.skip(p.len() as int) =~= t);
    numeral_round_trip(corr);
}

/// A reply is no method call: no method prefix fits a reply of the same
/// service.
pub proof fn replies_are_no_calls(name: Seq<char>, instance: u64, corr: u64)
    ensures
        !begins(reply_subject(name, instance, corr), method_prefix(name)),
{
    let head = encode_utf8("_svc."@ + name);
    encode_concat("_svc."@ + name, ".m."@);
    let m = encode_utf8(".m."@);
    reveal_strlit(".m.");
    reveal_strlit("._r.");
    crate::text::encode_ascii(".m."@);
    crate::text::encode_ascii("._r."@);
    let base = "_svc."@ + name;
    let rest = decimal(instance as nat) + "."@;
    encode_concat(base + "._r."@, decimal(instance as nat));
    encode_concat(base + "._r."@ + decimal(instance as nat), "."@);
    encode_concat(base, "._r."@);
    let s = reply_subject(name, instance, corr);
    let k = head.len() as int;
    let r = encode_utf8("._r."@);
    assert(s[k + 1] == r[1]);
    assert(method_prefix(name)[k + 1] == m[1]);
    if begins(s, method_prefix(name)) {
        let n = method_prefix(name).len() as int;
        assert(s.take(n)[k + 1] == s[k + 1]);
    }
}

/// A method is found in its subject: behind the prefix of the service.
pub proof fn method_reads_back(name: Seq<char>, method: Seq<u8>)
    ensures
        begins(method_subject(name, method), method_prefix(name)),
        method_subject(name, method).skip(method_prefix(name).len() as int) == method,
{
    let s = method_subject(name, method);
    assert(s.take(method_prefix(name).len() as int) =~= method_prefix(name));
    assert(s.skip(method_prefix(name).len() as int) =~= method);
}

/// A reply reaches no other instance of the service than the one that made the
/// request.
pub proof fn replies_reach_one_instance(name: Seq<char>, mine: u64, other: u64, corr: u64)
    requires
        mine != other,
    ensures
        answered(reply_prefix(name, other), reply_subject(name, mine, corr)) is None,
{
    let base = "_svc."@ + name + "._r."@;
    let da = decimal(mine as nat);
    let db = decimal(other as nat);
    let dc = decimal(corr as nat);
    reveal_strlit(".");
    let h = encode_utf8(base);
    let ta = da + "."@ + dc;
    let tb = db + "."@;
    encode_concat(base, da + "."@);
    encode_concat(base, tb);
    encode_concat(da + "."@, dc);
    assert("_svc."@ + name + "._r."@ + da + "."@ =~= base + (da + "."@));
    assert("_svc."@ + name + "._r."@ + db + "."@ =~= base + tb);
    assert forall|i: int| 0 <= i < ta.len() implies #[trigger] ta[i] < 128 by {
        if i < da.len() {
            decimal_digits(mine as nat, i);
        } else if i > da.len() {
            decimal_digits(corr as nat, i - da.len() - 1);
        }
    }
    assert forall|i: int| 0 <= i < tb.len() implies #[trigger] tb[i] < 128 by {
        if i < db.len() {
            decimal_digits(other as nat, i);
        }
    }
    encode_ascii(ta);
    encode_ascii(tb);
    let s = reply_subject(name, mine, corr);
    let p = reply_prefix(name, other);
    assert(s =~= h + encode_utf8(ta));
    assert(p =~= h + encode_utf8(tb));
    if begins(s, p) {
        assert(s.take(p.len() as int) == p);
        assert forall|i: int| 0 <= i < tb.len() implies #[trigger] tb[i] == ta[i] by {
            assert(s[h.len() + i] == encode_utf8(ta)[i]);
            assert(p[h.len() + i] == encode_utf8(tb)[i]);
            assert(s.take(p.len() as int)[h.len() + i] == p[h.len() + i]);
        }
        if db.len() < da.len() {
            assert(tb[db.len() as int] == ta[db.len() as int]);
            decimal_digits(mine as nat, db.len() as int);
        } else if da.len() < db.len() {
            assert(tb[da.len() as int] == ta[da.len() as int]);
            decimal_digits(other as nat, da.len() as int);
        } else {
            assert forall|i: int| 0 <= i < da.len() implies da[i] == db[i] by {
                assert(tb[i] == ta[i]);
            }
            assert(da =~= db);
            decimal_injective(mine as nat, other as nat);
        }
    }
}

} // verus!
