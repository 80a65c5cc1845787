use vstd::prelude::*;
use vstd::string::*;
use crate::listing::{collision_flags, collides_earlier, key_of, same_key};
use crate::model::{Action, MirrorOptions, Outcome, Planned, RepoDescriptor, Status};
use crate::worker::spec_action;

verus! {

/// Options that make a run impossible; found before any network or tool use.
#[derive(Clone, Copy, PartialEq, Eq, Structural, Debug)]
pub enum ConfigError {
    /// The worker count is zero.
    InvalidWorkerCount,
    /// HTTPS sync against a provider that requires authentication, without a token.
    MissingCredential,
}

/// Checks the options before a run: at least one worker, and a token where
/// HTTPS sync needs one.
pub fn validate_options(opts: &MirrorOptions, provider_requires_auth: bool) -> (r: Result<(), ConfigError>)
    ensures
        opts.worker_count == 0 ==> r == Err::<(), ConfigError>(ConfigError::InvalidWorkerCount),
        opts.worker_count > 0 && opts.use_http && provider_requires_auth && opts.private_token is None
            ==> r == Err::<(), ConfigError>(ConfigError::MissingCredential),
        r is Ok <==> opts.worker_count > 0 && !(opts.use_http && provider_requires_auth && opts.private_token is None),
{
    if opts.worker_count == 0 {
        Err(ConfigError::InvalidWorkerCount)
    } else if opts.use_http && provider_requires_auth && opts.private_token.is_none() {
        Err(ConfigError::MissingCredential)
    } else {
        Ok(())
    }
}

/// Phase of one run.
#[derive(Clone, Copy, PartialEq, Eq, Structural, Debug)]
pub enum RunPhase {
    Listing,
    Dispatching,
    Reporting,
    Done,
    /// The listing failed; nothing was dispatched.
    Failed,
}

#[derive(Clone, Copy, PartialEq, Eq, Structural, Debug)]
pub enum RunEvent {
    ListingSucceeded,
    ListingFailed,
    AllCollected,
    ReportsWritten,
}

pub open spec fn spec_next_phase(p: RunPhase, e: RunEvent) -> RunPhase {
    match (p, e) {
        (RunPhase::Listing, RunEvent::ListingSucceeded) => RunPhase::Dispatching,
        (RunPhase::Listing, RunEvent::ListingFailed) => RunPhase::Failed,
        (RunPhase::Dispatching, RunEvent::AllCollected) => RunPhase::Reporting,
        (RunPhase::Reporting, RunEvent::ReportsWritten) => RunPhase::Done,
        _ => p,
    }
}

/// The phase after `e`; an event that does not belong to the phase changes nothing.
pub fn next_phase(p: RunPhase, e: RunEvent) -> (r: RunPhase)
    ensures
        r == spec_next_phase(p, e),
{
    match (p, e) {
        (RunPhase::Listing, RunEvent::ListingSucceeded) => RunPhase::Dispatching,
        (RunPhase::Listing, RunEvent::ListingFailed) => RunPhase::Failed,
        (RunPhase::Dispatching, RunEvent::AllCollected) => RunPhase::Reporting,
        (RunPhase::Reporting, RunEvent::ReportsWritten) => RunPhase::Done,
        _ => p,
    }
}

/// Some outcome failed.
pub open spec fn any_failed(outs: Seq<Outcome>) -> bool {
    exists|i: int| 0 <= i < outs.len() && #[trigger] outs[i].status == Status::Failed
}

pub open spec fn spec_exit_code(listing_ok: bool, outs: Seq<Outcome>) -> i32 {
    if !listing_ok {
        2
    } else if any_failed(outs) {
        1
    } else {
        0
    }
}

/// Process exit status of a run: zero exactly when the listing succeeded and
/// no outcome failed.
pub fn exit_code(listing_ok: bool, outs: &Vec<Outcome>) -> (r: i32)
    ensures
        r == spec_exit_code(listing_ok, outs@),
        r == 0 <==> listing_ok && !any_failed(outs@),
{
    if !listing_ok {
        return 2;
    }
    let mut i: usize = 0;
    while i < outs.len()
        invariant
            listing_ok,
            i <= outs@.len(),
            forall|k: int| 0 <= k < i ==> #[trigger] outs@[k].status != Status::Failed,
        decreases outs@.len() - i,
    {
        if outs[i].status == Status::Failed {
            assert(any_failed(outs@));
            return 1;
        }
        i = i + 1;
    }
    0
}

pub open spec fn spec_with_reporting(code: i32, reports_written: bool) -> i32 {
    if code != 0 {
        code
    } else if !reports_written {
        3
    } else {
        0
    }
}

/// The exit status once the reports have been written or have failed to be:
/// a failed write makes a successful run fail, without changing any outcome.
pub fn with_reporting(code: i32, reports_written: bool) -> (r: i32)
    ensures
        r == spec_with_reporting(code, reports_written),
        r == 0 <==> code == 0 && reports_written,
{
    if code != 0 {
        code
    } else if !reports_written {
        3
    } else {
        0
    }
}

/// Message of the outcome of an entry whose mirror directory another entry
/// of the same listing already takes.
pub open spec fn collision_message() -> Seq<char> {
    "another repository of the listing maps to the same mirror directory"@
}

/// The fixed list of a run's repositories, handed out one at a time, with a
/// slot for each one's outcome. Entries whose mirror directory an earlier
/// entry already takes are never handed out: their slot holds a failed clone
/// from the start, with nothing run (a skipped one in a dry run).
pub struct JobBoard {
    jobs: Vec<RepoDescriptor>,
    slots: Vec<Option<Outcome>>,
    next: usize,
    dry_run: bool,
}

impl JobBoard {
    pub closed spec fn jobs(&self) -> Seq<RepoDescriptor> {
        self.jobs@
    }

    pub closed spec fn slots(&self) -> Seq<Option<Outcome>> {
        self.slots@
    }

    /// Whether the run is a dry run.
    pub closed spec fn dry_run(&self) -> bool {
        self.dry_run
    }

    /// Number of entries considered for dispatch so far.
    pub closed spec fn next(&self) -> nat {
        self.next as nat
    }

    /// Entry `i` collides with an earlier one and is never handed out.
    pub open spec fn blocked(&self, i: int) -> bool {
        collides_earlier(self.jobs(), i)
    }

    /// Entry `i` was handed out to a worker.
    pub open spec fn dispatched(&self, i: int) -> bool {
        0 <= i < self.next() && !self.blocked(i)
    }

    pub open spec fn wf(&self) -> bool {
        &&& self.slots().len() == self.jobs().len()
        &&& self.next() <= self.jobs().len()
        &&& forall|i: int| 0 <= i < self.jobs().len() && #[trigger] self.blocked(i) ==> {
            &&& self.slots()[i] matches Some(o)
            &&& o.status == Status::Failed
            &&& o.action == spec_action(Planned::Clone, self.dry_run(), false, Status::Failed)
            &&& o.descriptor.same_text(self.jobs()[i])
            &&& o.error matches Some(e) && e@ == collision_message()
        }
        &&& forall|i: int| 0 <= i < self.jobs().len() && !self.blocked(i) && #[trigger] self.slots()[i] is Some
            ==> self.dispatched(i) && key_of(self.slots()[i]->Some_0.descriptor) == key_of(self.jobs()[i])
    }

    pub fn new(descs: Vec<RepoDescriptor>, dry_run: bool) -> (r: JobBoard)
        ensures
            r.wf(),
            r.jobs() == descs@,
            r.dry_run() == dry_run,
            r.next() == 0,
            forall|i: int| 0 <= i < descs@.len() && !r.blocked(i) ==> #[trigger] r.slots()[i] is None,
    {
        proof {
            reveal_strlit("another repository of the listing maps to the same mirror directory");
        }
        let flags = collision_flags(&descs);
        let mut slots: Vec<Option<Outcome>> = Vec::new();
        let mut i: usize = 0;
        while i < descs.len()
            invariant
                flags@.len() == descs@.len(),
                forall|k: int| 0 <= k < descs@.len() ==> #[trigger] flags@[k] == collides_earlier(descs@, k),
                i <= descs@.len(),
                slots@.len() == i,
                forall|k: int| 0 <= k < i && #[trigger] collides_earlier(descs@, k) ==> {
                    &&& slots@[k] matches Some(o)
                    &&& o.status == Status::Failed
                    &&& o.action == spec_action(Planned::Clone, dry_run, false, Status::Failed)
                    &&& o.descriptor.same_text(descs@[k])
                    &&& o.error matches Some(e) && e@ == collision_message()
                },
                forall|k: int| 0 <= k < i && !collides_earlier(descs@, k) ==> #[trigger] slots@[k] is None,
            decreases descs@.len() - i,
        {
            if flags[i] {
                let o = Outcome {
                    descriptor: descs[i].duplicate(),
                    action: if dry_run { Action::Skipped(Planned::Clone) } else { Action::Cloned },
                    status: Status::Failed,
                    error: Some(String::from_str("another repository of the listing maps to the same mirror directory")),
                    duration_ms: 0,
                };
                slots.push(Some(o));
            } else {
                slots.push(None);
            }
            i = i + 1;
        }
        JobBoard { jobs: descs, slots, next: 0, dry_run }
    }

    pub fn len(&self) -> (r: usize)
        ensures
            r == self.jobs().len(),
    {
        self.jobs.len()
    }

    pub fn job(&self, i: usize) -> (r: &RepoDescriptor)
        requires
            i < self.jobs().len(),
        ensures
            *r == self.jobs()[i as int],
    {
        &self.jobs[i]
    }

    /// Hands out the next entry that is not blocked, if any is left. Each
    /// entry is handed out at most once, in list order.
    pub fn take_job(&mut self) -> (r: Option<usize>)
        requires
            old(self).wf(),
        ensures
            final(self).wf(),
            final(self).jobs() == old(self).jobs(),
            final(self).slots() == old(self).slots(),
            final(self).dry_run() == old(self).dry_run(),
            match r {
                Some(i) => {
                    &&& old(self).next() <= i < old(self).jobs().len()
                    &&& !final(self).blocked(i as int)
                    &&& final(self).next() == i + 1
                    &&& forall|k: int| old(self).next() <= k < i ==> #[trigger] final(self).blocked(k)
                },
                None => {
                    &&& final(self).next() == old(self).jobs().len()
                    &&& forall|k: int| old(self).next() <= k < old(self).jobs().len() ==> #[trigger] final(self).blocked(k)
                },
            },
    {
        let ghost n0 = self.next as int;
        while self.next < self.jobs.len()
            invariant
                n0 == old(self).next(),
                self.wf(),
                self.jobs() == old(self).jobs(),
                self.slots() == old(self).slots(),
                self.dry_run() == old(self).dry_run(),
                n0 <= self.next(),
                forall|k: int| n0 <= k < self.next() ==> #[trigger] self.blocked(k),
            decreases self.jobs@.len() - self.next,
        {
            let i = self.next;
            let free = self.slots[i].is_none();
            proof {
                if self.blocked(i as int) {
                    assert(self.slots()[i as int] is Some);
                }
                if self.slots()[i as int] is Some && !self.blocked(i as int) {
                    assert(self.dispatched(i as int));
                }
            }
            let ghost before = *self;
            self.next = self.next + 1;
            proof {
                assert(self.jobs() == before.jobs());
                assert(self.slots() == before.slots());
                assert forall|k: int| 0 <= k < self.jobs().len() && !self.blocked(k) && #[trigger] self.slots()[k] is Some
                    implies self.dispatched(k) && key_of(self.slots()[k]->Some_0.descriptor) == key_of(self.jobs()[k]) by {
                    assert(before.blocked(k) == self.blocked(k));
                    assert(before.dispatched(k));
                }
                assert forall|k: int| 0 <= k < self.jobs().len() && #[trigger] self.blocked(k) implies {
                    &&& self.slots()[k] matches Some(o)
                    &&& o.status == Status::Failed
                    &&& o.action == spec_action(Planned::Clone, self.dry_run(), false, Status::Failed)
                    &&& o.descriptor.same_text(self.jobs()[k])
                    &&& o.error matches Some(e) && e@ == collision_message()
                } by {
                    assert(before.blocked(k));
                }
            }
            if free {
                assert(!self.blocked(i as int));
                assert forall|k: int| n0 <= k < i implies #[trigger] self.blocked(k) by {
                    assert(before.blocked(k));
                }
                return Some(i);
            }
            assert(self.blocked(i as int));
            assert forall|k: int| n0 <= k < self.next() implies #[trigger] self.blocked(k) by {
                if k < i {
                    assert(before.blocked(k));
                }
            }
        }
        None
    }

    /// Records the outcome of a handed-out entry. Accepted only once per
    /// entry, and only for an outcome of that entry's repository.
    pub fn record(&mut self, i: usize, o: Outcome) -> (accepted: bool)
        requires
            old(self).wf(),
        ensures
            final(self).wf(),
            final(self).jobs() == old(self).jobs(),
            final(self).next() == old(self).next(),
            final(self).dry_run() == old(self).dry_run(),
            accepted <==> ({
                &&& i < old(self).jobs().len()
                &&& old(self).dispatched(i as int)
                &&& old(self).slots()[i as int] is None
                &&& key_of(o.descriptor) == key_of(old(self).jobs()[i as int])
            }),
            accepted ==> final(self).slots() == old(self).slots().update(i as int, Some(o)),
            !accepted ==> final(self).slots() == old(self).slots(),
    {
        if i >= self.jobs.len() || i >= self.next || self.slots[i].is_some() {
            return false;
        }
        if !same_key(&o.descriptor, &self.jobs[i]) {
            return false;
        }
        proof {
            if self.blocked(i as int) {
                assert(self.slots()[i as int] is Some);
            }
        }
        let ghost before = *self;
        self.slots.set(i, Some(o));
        proof {
            assert(self.jobs() == before.jobs());
            assert(self.slots() == before.slots().update(i as int, Some(o)));
            assert forall|k: int| 0 <= k < self.jobs().len() && !self.blocked(k) && #[trigger] self.slots()[k] is Some
                implies self.dispatched(k) && key_of(self.slots()[k]->Some_0.descriptor) == key_of(self.jobs()[k]) by {
                assert(before.blocked(k) == self.blocked(k));
                if k != i {
                    assert(before.slots()[k] is Some);
                }
            }
            assert forall|k: int| 0 <= k < self.jobs().len() && #[trigger] self.blocked(k) implies {
                &&& self.slots()[k] matches Some(o)
                &&& o.status == Status::Failed
                &&& o.action == spec_action(Planned::Clone, self.dry_run(), false, Status::Failed)
                &&& o.descriptor.same_text(self.jobs()[k])
                &&& o.error matches Some(e) && e@ == collision_message()
            } by {
                assert(before.blocked(k));
            }
        }
        true
    }

    /// Every entry has its outcome.
    pub open spec fn complete(&self) -> bool {
        forall|i: int| 0 <= i < self.slots().len() ==> #[trigger] self.slots()[i] is Some
    }

    pub fn is_complete(&self) -> (r: bool)
        ensures
            r == self.complete(),
    {
        let mut i: usize = 0;
        while i < self.slots.len()
            invariant
                i <= self.slots@.len(),
                forall|k: int| 0 <= k < i ==> #[trigger] self.slots()[k] is Some,
            decreases self.slots@.len() - i,
        {
            if self.slots[i].is_none() {
                return false;
            }
            i = i + 1;
        }
        true
    }

    /// The outcomes, one per entry in list order, once every entry has one.
    pub fn into_outcomes(self) -> (r: Option<Vec<Outcome>>)
        requires
            self.wf(),
        ensures
            r is Some <==> self.complete(),
            r matches Some(v) ==> {
                &&& v@.len() == self.jobs().len()
                &&& forall|i: int| 0 <= i < v@.len() ==> Some(#[trigger] v@[i]) == self.slots()[i]
                &&& forall|i: int| 0 <= i < v@.len() ==> key_of(#[trigger] v@[i].descriptor) == key_of(self.jobs()[i])
            },
    {
        if !self.is_complete() {
            return None;
        }
        let ghost all = self.slots@;
        let ghost jobs = self.jobs@;
        let n = self.slots.len();
        let mut slots = self.slots;
        let mut out: Vec<Outcome> = Vec::new();
        let mut i: usize = 0;
        while i < n
            invariant
                n == all.len(),
                i <= n,
                slots@ == all.skip(i as int),
                out@.len() == i,
                forall|k: int| 0 <= k < n ==> #[trigger] all[k] is Some,
                forall|k: int| 0 <= k < i ==> Some(#[trigger] out@[k]) == all[k],
            decreases n - i,
        {
            let slot = slots.remove(0);
            assert(slot == all[i as int]);
            match slot {
                Some(o) => out.push(o),
                None => {
                    assert(false);
                },
            }
            assert(slots@ =~= all.skip(i + 1));
            i = i + 1;
        }
        proof {
            assert forall|i: int| 0 <= i < out@.len() implies key_of(#[trigger] out@[i].descriptor) == key_of(jobs[i]) by {
                if self.blocked(i) {
                    assert(out@[i].descriptor.same_text(jobs[i]));
                }
            }
        }
        Some(out)
    }
}

/// An entry of a listing whose identity an earlier entry already has is
/// never handed to a worker: its outcome is a reported failure from the
/// start, so no mirror is overwritten.
pub proof fn lemma_duplicate_reported(b: JobBoard, i: int, j: int)
    requires
        b.wf(),
        0 <= i < j < b.jobs().len(),
        key_of(b.jobs()[i]) == key_of(b.jobs()[j]),
    ensures
        b.blocked(j),
        !b.dispatched(j),
        b.slots()[j] matches Some(o) && o.status == Status::Failed && o.error is Some
            && o.action == spec_action(Planned::Clone, b.dry_run(), false, Status::Failed),
{
    assert(crate::listing::folded_key(b.jobs()[i]) == crate::listing::folded_key(b.jobs()[j]));
}

} // verus!
