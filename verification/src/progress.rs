//! Progress reporting: the event protocol of a job and the rate limiter
//! behind the channel.
//!
//! A job emits exactly one start event, then zero or more item events, then
//! exactly one terminal event. Item events are rate-limited: a completion
//! always advances the counter, but an observable event is only due when the
//! steady tick has elapsed since the last one; the final count stays
//! accurate even though intermediate events are sparse. The clock readings
//! and the channel transport belong to the embedding application.

use vstd::prelude::*;
use crate::common::JsSafeHash;

verus! {

/// One event of a job's progress stream.
#[derive(Debug, Clone)]
pub enum WorkProgressEvent<T> {
    /// The job started, with the computed total item count.
    WorkStart { count: u32 },
    /// One item finished.
    FileDone(T),
    /// The job finished, with an optional summary payload.
    WorkFinished(Option<T>),
    /// The job failed as a whole.
    Error { error: String },
}

/// Item payload of an unpack job.
#[derive(Debug, Clone)]
pub struct UnpackProgressData {
    pub path: String,
    pub hash: JsSafeHash,
    pub finish_count: u32,
}

/// Item or summary payload of a pack job.
#[derive(Debug, Clone)]
pub struct PackProgressData {
    pub path: String,
    pub finish_count: u32,
    pub tree: Option<PackedFileTree>,
}

/// Summary of a pack job: the produced archives and their files.
#[derive(Debug, Clone)]
pub struct PackedFileTree {
    pub paks: Vec<PackedPak>,
}

impl PackedFileTree {
    pub fn new(paks: Vec<PackedPak>) -> (r: Self)
        ensures
            r.paks == paks,
    {
        PackedFileTree { paks }
    }
}

/// One produced archive and the files written into it.
#[derive(Debug, Clone)]
pub struct PackedPak {
    pub path: String,
    pub files: Vec<PackedFile>,
}

impl PackedPak {
    pub fn new(path: String, files: Vec<PackedFile>) -> (r: Self)
        ensures
            r.path == path,
            r.files == files,
    {
        PackedPak { path, files }
    }
}

/// One file written into a produced archive.
#[derive(Debug, Clone)]
pub struct PackedFile {
    pub path: String,
    pub hash: JsSafeHash,
    pub size: u64,
}

impl PackedFile {
    pub fn new(path: String, hash: JsSafeHash, size: u64) -> (r: Self)
        ensures
            r.path == path,
            r.hash == hash,
            r.size == size,
    {
        PackedFile { path, hash, size }
    }
}

/// The rate limiter's counter and clock state. Times are milliseconds from
/// an arbitrary fixed origin, read by the embedding application.
#[derive(Debug, Clone)]
pub struct ProgressThrottle {
    /// Completions seen so far (wrapping).
    pub finish_count: u32,
    /// Minimum interval between observable item events.
    pub steady_tick_ms: u64,
    /// When the last observable item event was emitted.
    pub last_tick_ms: Option<u64>,
}

impl ProgressThrottle {
    /// Whether a completion at `now_ms` is due an observable event: always
    /// for the first one, otherwise only when the steady tick has elapsed.
    pub open spec fn spec_due(&self, now_ms: u64) -> bool {
        match self.last_tick_ms {
            Option::Some(last) => now_ms >= last && now_ms - last >= self.steady_tick_ms,
            Option::None => true,
        }
    }

    /// A fresh throttle: no completions, first event due at once.
    pub fn new(steady_tick_ms: u64) -> (r: ProgressThrottle)
        ensures
            r.finish_count == 0,
            r.steady_tick_ms == steady_tick_ms,
            r.last_tick_ms is None,
    {
        ProgressThrottle { finish_count: 0, steady_tick_ms, last_tick_ms: None }
    }

    /// Note one completed item at time `now_ms`. The counter always
    /// advances exactly once (wrapping); the returned flag says whether an
    /// observable event is due, and only then does the tick move.
    pub fn file_done(&mut self, now_ms: u64) -> (r: (u32, bool))
        ensures
            final(self).finish_count == (if old(self).finish_count == u32::MAX {
                0u32
            } else {
                (old(self).finish_count + 1) as u32
            }),
            final(self).steady_tick_ms == old(self).steady_tick_ms,
            r.0 == final(self).finish_count,
            r.1 == old(self).spec_due(now_ms),
            r.1 ==> final(self).last_tick_ms == Option::Some(now_ms),
            !r.1 ==> final(self).last_tick_ms == old(self).last_tick_ms,
    {
        self.finish_count = if self.finish_count == u32::MAX {
            0
        } else {
            self.finish_count + 1
        };
        let due = match self.last_tick_ms {
            Some(last) => now_ms >= last && now_ms - last >= self.steady_tick_ms,
            None => true,
        };
        if due {
            self.last_tick_ms = Some(now_ms);
        }
        (self.finish_count, due)
    }
}

/// The item events of `dones` framed by exactly one start event before and
/// exactly one finished event after, the protocol every job follows.
pub fn job_event_trace<T>(count: u32, dones: Vec<T>, summary: Option<T>) -> (r: Vec<
    WorkProgressEvent<T>,
>)
    ensures
        r@.len() == dones@.len() + 2,
        r@[0] matches WorkProgressEvent::WorkStart { count: c } && c == count,
        forall|i: int|
            0 <= i < dones@.len() ==> ((#[trigger] r@[i + 1]) matches WorkProgressEvent::FileDone(
                d,
            ) && d == dones@[i]),
        r@.last() matches WorkProgressEvent::WorkFinished(s) && s == summary,
{
    let mut r: Vec<WorkProgressEvent<T>> = Vec::new();
    r.push(WorkProgressEvent::WorkStart { count });
    let mut dones = dones;
    let ghost all = dones@;
    let total = dones.len();
    let mut taken: usize = 0;
    proof {
        assert(all.skip(0) =~= all);
    }
    while dones.len() > 0
        invariant
            total == all.len(),
            taken + dones@.len() == all.len(),
            dones@ == all.skip(taken as int),
            r@.len() == taken + 1,
            r@[0] matches WorkProgressEvent::WorkStart { count: c } && c == count,
            forall|i: int|
                0 <= i < taken ==> ((#[trigger] r@[i + 1])
                    matches WorkProgressEvent::FileDone(d) && d == all[i]),
        decreases dones@.len(),
    {
        proof {
            assert(all.skip(taken as int)[0] == all[taken as int]);
            assert(all.skip(taken as int).skip(1) =~= all.skip(taken as int + 1));
        }
        let d = dones.remove(0);
        r.push(WorkProgressEvent::FileDone(d));
        taken = taken + 1;
    }
    r.push(WorkProgressEvent::WorkFinished(summary));
    r
}

} // verus!
