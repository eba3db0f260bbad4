//! Cron jobs: registration, and what happens when one fires.
//!
//! Several clients can register the same job; the broker picks one per fire.
//! After a reconnect every registered job is registered again.

use crate::error::ClientError;
use crate::state::matcher::same_bytes;
use crate::text::{text_of, utf8_lossy};
use vstd::prelude::*;
use vstd::slice::slice_to_vec;

verus! {

/// What a handler is told about one fire.
#[derive(Debug)]
pub struct CronContext {
    pub name: String,
    /// When the broker meant to fire, in milliseconds since the epoch.
    pub fire_time_ms: u64,
    /// Counts fires, from one.
    pub fire_count: u64,
}

/// A registration as it goes to the broker.
#[derive(Debug)]
pub struct CronBody {
    pub name: String,
    pub every: String,
    pub tz: Option<String>,
    pub timeout_ms: u32,
    pub overlap: bool,
}

/// A registration, with its text as sequences.
pub struct CronBodyView {
    pub name: Seq<char>,
    pub every: Seq<char>,
    pub tz: Option<Seq<char>>,
    pub timeout_ms: u32,
    pub overlap: bool,
}

impl View for CronBody {
    type V = CronBodyView;

    open spec fn view(&self) -> CronBodyView {
        CronBodyView {
            name: self.name@,
            every: self.every@,
            tz: match self.tz {
                Some(t) => Some(t@),
                None => None,
            },
            timeout_ms: self.timeout_ms,
            overlap: self.overlap,
        }
    }
}

impl CronBody {
    /// A copy, for sending it again.
    pub fn copy(&self) -> (r: CronBody)
        ensures
            r@ == self@,
    {
        CronBody {
            name: self.name.clone(),
            every: self.every.clone(),
            tz: match &self.tz {
                Some(t) => Some(t.clone()),
                None => None,
            },
            timeout_ms: self.timeout_ms,
            overlap: self.overlap,
        }
    }
}

/// A registration in the making.
#[derive(Debug)]
pub struct CronBuilder {
    pub name: Vec<u8>,
    pub every: Option<String>,
    pub tz: Option<String>,
    pub timeout_ms: u32,
    pub overlap: bool,
}

impl CronBuilder {
    /// A job without a schedule yet: UTC, thirty seconds for the handler, no
    /// overlapping fires.
    pub fn new(name: &[u8]) -> (r: CronBuilder)
        ensures
            r.name@ == name@,
            r.every is None,
            r.tz is None,
            r.timeout_ms == 30_000,
            !r.overlap,
    {
        CronBuilder {
            name: slice_to_vec(name),
            every: None,
            tz: None,
            timeout_ms: 30_000,
            overlap: false,
        }
    }

    /// The schedule. Required.
    pub fn every(self, expr: &[u8]) -> (r: CronBuilder)
        ensures
            r.every matches Some(e) && e@ == text_of(expr@),
            r == (CronBuilder { every: r.every, ..self }),
    {
        CronBuilder { every: Some(utf8_lossy(expr)), ..self }
    }

    /// The time zone.
    pub fn tz(self, timezone: &[u8]) -> (r: CronBuilder)
        ensures
            r.tz matches Some(t) && t@ == text_of(timezone@),
            r == (CronBuilder { tz: r.tz, ..self }),
    {
        CronBuilder { tz: Some(utf8_lossy(timezone)), ..self }
    }

    /// Time that the handler gets.
    pub fn timeout_ms(self, ms: u32) -> (r: CronBuilder)
        ensures
            r == (CronBuilder { timeout_ms: ms, ..self }),
    {
        CronBuilder { timeout_ms: ms, ..self }
    }

    /// Allow a fire while the one before still runs.
    pub fn overlap(self, allow: bool) -> (r: CronBuilder)
        ensures
            r == (CronBuilder { overlap: allow, ..self }),
    {
        CronBuilder { overlap: allow, ..self }
    }

    /// The registration to send. Without a schedule there is none.
    pub fn body(self) -> (r: Result<CronBody, ClientError>)
        ensures
            match self.every {
                Some(every) => r matches Ok(b) && b@ == (CronBodyView {
                    name: text_of(self.name@),
                    every: every@,
                    tz: match self.tz {
                        Some(t) => Some(t@),
                        None => None,
                    },
                    timeout_ms: self.timeout_ms,
                    overlap: self.overlap,
                }),
                None => r matches Err(e) && e is Disconnected,
            },
    {
        let every: String = match self.every {
            Some(e) => e,
            None => {
                return Err(ClientError::Disconnected);
            },
        };
        Ok(
            CronBody {
                name: utf8_lossy(self.name.as_slice()),
                every,
                tz: self.tz,
                timeout_ms: self.timeout_ms,
                overlap: self.overlap,
            },
        )
    }
}

/// One registered job.
pub struct CronEntry<H> {
    pub name: Vec<u8>,
    pub config: CronBody,
    pub handler: H,
}

/// The registered jobs, each name once.
pub struct CronState<H> {
    pub entries: Vec<CronEntry<H>>,
}

/// What a fire leads to.
pub enum Fire {
    /// No handler for it: tell the broker that it failed.
    Unknown,
    /// Run handler number `index`, then tell the broker how it went.
    Run { index: usize, ctx: CronContext },
}

impl<H> CronState<H> {
    /// Number `i` is the job of this name.
    pub open spec fn job_at(&self, name: Seq<u8>, i: int) -> bool {
        0 <= i < self.entries@.len() && self.entries@[i].name@ == name
    }

    pub open spec fn has_job(&self, name: Seq<u8>) -> bool {
        exists|i: int| self.job_at(name, i)
    }

    pub open spec fn wf(&self) -> bool {
        forall|i: int, j: int|
            #![trigger self.entries@[i], self.entries@[j]]
            0 <= i < j < self.entries@.len() ==> self.entries@[i].name@ != self.entries@[j].name@
    }

    pub fn new() -> (r: CronState<H>)
        ensures
            r.wf(),
            r.entries@.len() == 0,
    {
        CronState { entries: Vec::new() }
    }

    /// Look up a job by name.
    pub fn get_handler(&self, name: &[u8]) -> (r: Option<usize>)
        ensures
            match r {
                Some(i) => self.job_at(name@, i as int),
                None => !self.has_job(name@),
            },
            r matches Some(i) ==> i < self.entries@.len() && self.entries@[i as int].name@ == name@,
            r is None ==> forall|i: int|
                0 <= i < self.entries@.len() ==> (#[trigger] self.entries@[i]).name@ != name@,
    {
        let mut i: usize = 0;
        while i < self.entries.len()
            invariant
                i <= self.entries@.len(),
                forall|j: int| 0 <= j < i ==> (#[trigger] self.entries@[j]).name@ != name@,
            decreases self.entries@.len() - i,
        {
            if same_bytes(self.entries[i].name.as_slice(), name) {
                return Some(i);
            }
            i = i + 1;
        }
        None
    }

    /// Register a job. One of the same name is replaced.
    pub fn register(&mut self, name: &[u8], config: CronBody, handler: H)
        requires
            old(self).wf(),
        ensures
            final(self).wf(),
            ({
                let e = if old(self).has_job(name@) {
                    final(self).entries@[choose|i: int| old(self).job_at(name@, i)]
                } else {
                    final(self).entries@.last()
                };
                &&& e.name@ == name@
                &&& e.config == config
                &&& e.handler == handler
                &&& final(self).entries@ == if old(self).has_job(name@) {
                    old(self).entries@.update(choose|i: int| old(self).job_at(name@, i), e)
                } else {
                    old(self).entries@.push(e)
                }
            }),
            exists|i: int|
                0 <= i < final(self).entries@.len() && (#[trigger] final(self).entries@[i]).name@
                    == name@ && final(self).entries@[i].config == config
                    && final(self).entries@[i].handler == handler,
            forall|i: int|
                0 <= i < old(self).entries@.len() && (#[trigger] old(self).entries@[i]).name@ != name@
                    ==> final(self).entries@[i] == old(self).entries@[i],
    {
        let ghost s0 = *self;
        let e = CronEntry { name: slice_to_vec(name), config, handler };
        let ghost eg = e;
        match self.get_handler(name) {
            Some(i) => {
                self.entries.set(i, e);
                proof {
                    let k = choose|k: int| s0.job_at(name@, k);
                    assert(s0.job_at(name@, i as int) && s0.job_at(name@, k));
                    assert(s0.entries@[k].name@ == s0.entries@[i as int].name@);
                    assert(k == i);
                }
            },
            None => {
                self.entries.push(e);
                proof {
                    assert forall|j: int| 0 <= j < s0.entries@.len() implies (
                    #[trigger] s0.entries@[j]).name@ != name@ by {
                        assert(!s0.job_at(name@, j));
                    }
                }
            },
        }
    }

    /// Forget a job.
    pub fn remove(&mut self, name: &[u8])
        requires
            old(self).wf(),
        ensures
            final(self).wf(),
            !final(self).has_job(name@),
            final(self).entries@ == if old(self).has_job(name@) {
                old(self).entries@.remove(choose|i: int| old(self).job_at(name@, i))
            } else {
                old(self).entries@
            },
            forall|i: int|
                0 <= i < final(self).entries@.len() ==> (#[trigger] final(self).entries@[i]).name@
                    != name@,
            forall|i: int|
                0 <= i < old(self).entries@.len() && (#[trigger] old(self).entries@[i]).name@ != name@
                    ==> final(self).entries@.contains(old(self).entries@[i]),
    {
        let ghost s0 = *self;
        match self.get_handler(name) {
            Some(i) => {
                let _gone = self.entries.remove(i);
                proof {
                    let k = choose|k: int| s0.job_at(name@, k);
                    assert(s0.job_at(name@, i as int) && s0.job_at(name@, k));
                    assert(s0.entries@[k].name@ == s0.entries@[i as int].name@);
                    assert(k == i);
                    assert forall|j: int|
                        0 <= j < s0.entries@.len() && (#[trigger] s0.entries@[j]).name@
                            != name@ implies self.entries@.contains(s0.entries@[j]) by {
                        let o = if j < i {
                            j
                        } else {
                            j - 1
                        };
                        assert(self.entries@[o] == s0.entries@[j]);
                    }
                    assert forall|j: int| !self.job_at(name@, j) by {
                        if self.job_at(name@, j) {
                            let o = if j < i {
                                j
                            } else {
                                j + 1
                            };
                            assert(self.entries@[j] == s0.entries@[o]);
                            assert(s0.entries@[o].name@ == s0.entries@[i as int].name@);
                        }
                    }
                }
            },
            None => {},
        }
    }

    /// Every registration, in order, to be sent again after a reconnect.
    pub fn all_configs(&self) -> (r: Vec<CronBody>)
        ensures
            r@.len() == self.entries@.len(),
            forall|i: int| 0 <= i < r@.len() ==> (#[trigger] r@[i])@ == self.entries@[i].config@,
    {
        let mut out: Vec<CronBody> = Vec::new();
        let mut i: usize = 0;
        while i < self.entries.len()
            invariant
                i <= self.entries@.len(),
                out@.len() == i,
                forall|j: int| 0 <= j < i ==> (#[trigger] out@[j])@ == self.entries@[j].config@,
            decreases self.entries@.len() - i,
        {
            out.push(self.entries[i].config.copy());
            i = i + 1;
        }
        out
    }

    /// A job fires.
    pub fn fire(&self, name: &[u8], fire_time_ms: u64, fire_count: u64) -> (r: Fire)
        ensures
            match r {
                Fire::Unknown => !self.has_job(name@),
                Fire::Run { index, ctx } => {
                    &&& self.job_at(name@, index as int)
                    &&& ctx.name@ == text_of(name@)
                    &&& ctx.fire_time_ms == fire_time_ms
                    &&& ctx.fire_count == fire_count
                },
            },
            r matches Fire::Run { index, ctx } ==> index < self.entries@.len()
                && self.entries@[index as int].name@ == name@,
            r is Unknown ==> forall|i: int|
                0 <= i < self.entries@.len() ==> (#[trigger] self.entries@[i]).name@ != name@,
    {
        match self.get_handler(name) {
            Some(index) => Fire::Run {
                index,
                ctx: CronContext { name: utf8_lossy(name), fire_time_ms, fire_count },
            },
            None => Fire::Unknown,
        }
    }
}

} // verus!
