//! Request and subscription numbering.

use vstd::prelude::*;

verus! {

/// Numbers requests. Starts at one: zero stands for "no request".
#[derive(Debug)]
pub struct SeqAllocator {
    pub next: u64,
}

impl SeqAllocator {
    pub fn new() -> (r: SeqAllocator)
        ensures
            r.next == 1,
    {
        SeqAllocator { next: 1 }
    }

    /// The next number, wrapping after `u64::MAX`.
    pub fn next(&mut self) -> (r: u64)
        ensures
            r == old(self).next,
            final(self).next == old(self).next.wrapping_add(1),
    {
        let r = self.next;
        self.next = r.wrapping_add(1);
        r
    }
}

impl Default for SeqAllocator {
    fn default() -> (r: SeqAllocator)
        ensures
            r.next == 1,
    {
        SeqAllocator::new()
    }
}

/// Numbers the subscriptions of a connection. Never hands out zero, which the
/// broker refuses.
#[derive(Debug)]
pub struct SubIdAllocator {
    pub next: u32,
}

/// The subscription id that comes from a counter: itself, or one for zero.
pub open spec fn sub_id_at(counter: u32) -> u32 {
    if counter == 0 {
        1
    } else {
        counter
    }
}

impl SubIdAllocator {
    pub fn new() -> (r: SubIdAllocator)
        ensures
            r.next == 1,
    {
        SubIdAllocator { next: 1 }
    }

    /// The next id. Wrapping skips zero.
    pub fn next(&mut self) -> (r: u32)
        ensures
            r == sub_id_at(old(self).next),
            r != 0,
            final(self).next == r.wrapping_add(1),
    {
        let id = self.next;
        self.next = id.wrapping_add(1);
        if id == 0 {
            let id = self.next;
            self.next = id.wrapping_add(1);
            id
        } else {
            id
        }
    }
}

impl Default for SubIdAllocator {
    fn default() -> (r: SubIdAllocator)
        ensures
            r.next == 1,
    {
        SubIdAllocator::new()
    }
}

/// The counter after `n` requests.
pub open spec fn counter_after(start: u64, n: nat) -> u64
    decreases n,
{
    if n == 0 {
        start
    } else {
        counter_after(start, (n - 1) as nat).wrapping_add(1)
    }
}

proof fn counter_value(start: u64, n: nat)
    ensures
        counter_after(start, n) as int == (start + n) % 0x1_0000_0000_0000_0000,
    decreases n,
{
    if n > 0 {
        counter_value(start, (n - 1) as nat);
    }
}

proof fn remainders_differ(a: int, b: int, m: int)
    requires
        0 < b - a < m,
    ensures
        a % m != b % m,
{
    if a % m == b % m {
        assert(b - a == m * (b / m - a / m)) by (nonlinear_arith)
            requires
                m > 0,
                a % m == b % m,
        ;
        let q = b / m - a / m;
        assert(m * q <= 0 || m * q >= m) by (nonlinear_arith)
            requires
                m > 0,
        ;
    }
}

/// Two requests closer together than the whole number range get different
/// numbers.
pub proof fn numbers_are_distinct(start: u64, i: nat, j: nat)
    requires
        i < j,
        j - i < 0x1_0000_0000_0000_0000,
    ensures
        counter_after(start, i) != counter_after(start, j),
{
    counter_value(start, i);
    counter_value(start, j);
    remainders_differ(start + i, start + j, 0x1_0000_0000_0000_0000);
}

/// The counter of subscription ids after `n` of them.
pub open spec fn sub_counter_after(start: u32, n: nat) -> u32
    decreases n,
{
    if n == 0 {
        start
    } else {
        sub_id_at(sub_counter_after(start, (n - 1) as nat)).wrapping_add(1)
    }
}

proof fn sub_id_value(start: u32, n: nat)
    ensures
        sub_id_at(sub_counter_after(start, n)) as int == (sub_id_at(start) - 1 + n) % 0xffff_ffff
            + 1,
    decreases n,
{
    if n > 0 {
        sub_id_value(start, (n - 1) as nat);
    }
}

/// Two subscriptions opened on one connection have different ids, unless every
/// id was handed out between them.
pub proof fn sub_ids_are_distinct(start: u32, i: nat, j: nat)
    requires
        i < j,
        j - i < 0xffff_ffff,
    ensures
        sub_id_at(sub_counter_after(start, i)) != sub_id_at(sub_counter_after(start, j)),
{
    sub_id_value(start, i);
    sub_id_value(start, j);
    remainders_differ(sub_id_at(start) - 1 + i, sub_id_at(start) - 1 + j, 0xffff_ffff);
}

} // verus!
