//! The download-and-package orchestrator: drives a batch of episodes from
//! locator resolution through bounded concurrent fetching to one archive
//! per episode, isolating per-episode failures and aggregating their
//! failure messages.
//!
//! The orchestrator is a state machine. The surrounding (unverified)
//! runtime asks it what to do next (`next_resolve`, `next_fetch`), performs
//! the network or file work, and reports each outcome back (`on_resolved`,
//! `on_fetch_done`, `on_persisted`). Everything the machine decides — the
//! concurrency cap, the index-addressed payload buffer, the fail-fast group
//! policy, the report — is verified here.

use vstd::prelude::*;
use crate::archive::{archive_entries_of, archive_model, write_archive};
use crate::text::{
    download_failed_message, download_failed_tag, resolve_failed_message, resolve_failed_tag,
    write_failed_message, write_failed_tag,
};

verus! {

/// One resource fetch of a group: not yet started, handed out to the
/// runtime, finished with its payload, or failed.
pub enum FetchSlot {
    Pending,
    InFlight,
    Done(Vec<u8>),
    Failed,
}

/// The bounded download group of one episode: an index-addressed output
/// area the size of the locator list, so that the payload order matches
/// the locator order no matter in which order fetches complete.
pub struct DownloadGroup {
    pub locators: Vec<String>,
    pub slots: Vec<FetchSlot>,
    pub failed: bool,
    pub inflight: usize,
    pub completed: usize,
}

/// Where one episode stands in its pipeline.
pub enum EpisodeState {
    Unresolved,
    Resolving,
    Downloading(DownloadGroup),
    Persisting,
    Finished(bool),
}

/// One episode of the batch: its archive filename and its pipeline state.
pub struct EpisodeTask {
    pub filename: String,
    pub state: EpisodeState,
}

/// How many elements of a sequence satisfy a predicate.
pub open spec fn seq_count<A>(s: Seq<A>, pred: spec_fn(A) -> bool) -> nat
    decreases s.len(),
{
    if s.len() == 0 {
        0
    } else {
        seq_count(s.drop_last(), pred) + if pred(s.last()) {
            1nat
        } else {
            0nat
        }
    }
}

pub proof fn lemma_seq_count_le_len<A>(s: Seq<A>, pred: spec_fn(A) -> bool)
    ensures
        seq_count(s, pred) <= s.len(),
    decreases s.len(),
{
    if s.len() > 0 {
        lemma_seq_count_le_len(s.drop_last(), pred);
    }
}

/// Replacing one element changes the count by the difference the element
/// makes.
pub proof fn lemma_seq_count_update<A>(s: Seq<A>, pred: spec_fn(A) -> bool, i: int, v: A)
    requires
        0 <= i < s.len(),
    ensures
        seq_count(s.update(i, v), pred) + (if pred(s[i]) { 1nat } else { 0nat })
            == seq_count(s, pred) + (if pred(v) { 1nat } else { 0nat }),
    decreases s.len(),
{
    let su = s.update(i, v);
    if i == s.len() - 1 {
        assert(su.drop_last() =~= s.drop_last());
        assert(su.last() == v);
    } else {
        assert(su.drop_last() =~= s.drop_last().update(i, v));
        assert(su.last() == s.last());
        lemma_seq_count_update(s.drop_last(), pred, i, v);
    }
}

/// A full count means every element satisfies the predicate; an empty
/// count means none does.
pub proof fn lemma_seq_count_extremes<A>(s: Seq<A>, pred: spec_fn(A) -> bool)
    ensures
        seq_count(s, pred) == s.len() ==> forall|i: int| 0 <= i < s.len() ==> pred(#[trigger] s[i]),
        seq_count(s, pred) == 0 ==> forall|i: int| 0 <= i < s.len() ==> !pred(#[trigger] s[i]),
    decreases s.len(),
{
    if s.len() > 0 {
        lemma_seq_count_extremes(s.drop_last(), pred);
        lemma_seq_count_le_len(s.drop_last(), pred);
        assert forall|i: int| 0 <= i < s.len() implies s.drop_last().push(s.last())[i] == s[i] by {}
        assert(s.drop_last().push(s.last()) =~= s);
    }
}

/// One element decides: where it satisfies the predicate the count is
/// positive, where it does not the count falls short of the length.
pub proof fn lemma_seq_count_bounds<A>(s: Seq<A>, pred: spec_fn(A) -> bool, i: int)
    requires
        0 <= i < s.len(),
    ensures
        pred(s[i]) ==> seq_count(s, pred) >= 1,
        !pred(s[i]) ==> seq_count(s, pred) < s.len(),
    decreases s.len(),
{
    lemma_seq_count_le_len(s.drop_last(), pred);
    if i < s.len() - 1 {
        lemma_seq_count_bounds(s.drop_last(), pred, i);
    }
}

/// A count over elements that all fail the predicate is zero; over
/// elements that all satisfy it, the length.
pub proof fn lemma_seq_count_uniform<A>(s: Seq<A>, pred: spec_fn(A) -> bool)
    ensures
        (forall|i: int| 0 <= i < s.len() ==> !pred(#[trigger] s[i])) ==> seq_count(s, pred) == 0,
        (forall|i: int| 0 <= i < s.len() ==> pred(#[trigger] s[i])) ==> seq_count(s, pred)
            == s.len(),
    decreases s.len(),
{
    if s.len() > 0 {
        lemma_seq_count_uniform(s.drop_last(), pred);
    }
}

pub open spec fn slot_inflight(s: FetchSlot) -> bool {
    s is InFlight
}

pub open spec fn slot_settled(s: FetchSlot) -> bool {
    s is Done || s is Failed
}

pub open spec fn slot_failed(s: FetchSlot) -> bool {
    s is Failed
}

/// A download group is well formed: one slot per locator, accurate
/// counters, and the failure flag set exactly when some fetch failed.
pub open spec fn group_wf(g: DownloadGroup) -> bool {
    &&& g.slots@.len() == g.locators@.len()
    &&& g.slots@.len() > 0
    &&& g.inflight == seq_count(g.slots@, |s: FetchSlot| slot_inflight(s))
    &&& g.completed == seq_count(g.slots@, |s: FetchSlot| slot_settled(s))
    &&& g.failed <==> seq_count(g.slots@, |s: FetchSlot| slot_failed(s)) > 0
}

/// How many fetches of one episode are in flight.
pub open spec fn task_inflight(t: EpisodeTask) -> nat {
    match t.state {
        EpisodeState::Downloading(g) => g.inflight as nat,
        _ => 0,
    }
}

/// How many fetches of the whole batch are in flight.
pub open spec fn total_inflight(ts: Seq<EpisodeTask>) -> nat
    decreases ts.len(),
{
    if ts.len() == 0 {
        0
    } else {
        total_inflight(ts.drop_last()) + task_inflight(ts.last())
    }
}

pub proof fn lemma_total_inflight_update(ts: Seq<EpisodeTask>, i: int, t: EpisodeTask)
    requires
        0 <= i < ts.len(),
    ensures
        total_inflight(ts.update(i, t)) + task_inflight(ts[i]) == total_inflight(ts)
            + task_inflight(t),
    decreases ts.len(),
{
    let tu = ts.update(i, t);
    if i == ts.len() - 1 {
        assert(tu.drop_last() =~= ts.drop_last());
        assert(tu.last() == t);
    } else {
        assert(tu.drop_last() =~= ts.drop_last().update(i, t));
        assert(tu.last() == ts.last());
        lemma_total_inflight_update(ts.drop_last(), i, t);
    }
}

/// The batch-wide in-flight total is at least any one episode's share.
pub proof fn lemma_total_inflight_ge_task(ts: Seq<EpisodeTask>, i: int)
    requires
        0 <= i < ts.len(),
    ensures
        total_inflight(ts) >= task_inflight(ts[i]),
    decreases ts.len(),
{
    if i < ts.len() - 1 {
        lemma_total_inflight_ge_task(ts.drop_last(), i);
    }
}

/// An episode stays in the downloading state only while its group is
/// genuinely unsettled: a failed group still has fetches in flight, an
/// unfailed one still has resources to come. The moment neither holds the
/// machine settles the episode, so a well-formed task never lingers.
pub open spec fn task_wf(t: EpisodeTask) -> bool {
    match t.state {
        EpisodeState::Downloading(g) => {
            &&& group_wf(g)
            &&& (g.failed ==> g.inflight > 0)
            &&& (!g.failed ==> g.completed < g.slots@.len())
        },
        _ => true,
    }
}

/// An episode that ended in failure (its message is in the report).
pub open spec fn task_failed(t: EpisodeTask) -> bool {
    t.state is Finished && !t.state->Finished_0
}

/// A fetch of some episode that could be started: its group is active,
/// not failed, and the slot has not been handed out yet.
pub open spec fn startable_at(ts: Seq<EpisodeTask>, e: int, i: int) -> bool {
    &&& 0 <= e < ts.len()
    &&& ts[e].state is Downloading
    &&& !ts[e].state->Downloading_0.failed
    &&& 0 <= i < ts[e].state->Downloading_0.slots@.len()
    &&& ts[e].state->Downloading_0.slots@[i] is Pending
}

pub open spec fn has_startable(ts: Seq<EpisodeTask>) -> bool {
    exists|e: int, i: int| startable_at(ts, e, i)
}

impl FetchSlot {
    fn is_pending(&self) -> (r: bool)
        ensures
            r == (self is Pending),
    {
        match self {
            FetchSlot::Pending => true,
            _ => false,
        }
    }
}

/// The slot a finished fetch settles into: the payload where one arrived,
/// the failure marker where none did.
pub open spec fn settled_slot_of(payload: Option<Vec<u8>>) -> FetchSlot {
    match payload {
        Some(p) => FetchSlot::Done(p),
        None => FetchSlot::Failed,
    }
}

/// The payload bytes recorded in a group, in slot order. Meaningful when
/// every slot is settled successfully.
pub open spec fn done_payloads(s: Seq<FetchSlot>) -> Seq<Seq<u8>> {
    Seq::new(s.len(), |i: int| s[i]->Done_0@)
}

/// A group has exactly these fields.
pub open spec fn group_is(
    g: DownloadGroup,
    locators: Vec<String>,
    slots: Seq<FetchSlot>,
    failed: bool,
    inflight: int,
    completed: int,
) -> bool {
    &&& g.locators == locators
    &&& g.slots@ == slots
    &&& g.failed == failed
    &&& g.inflight == inflight
    &&& g.completed == completed
}

fn clone_payload(p: &Vec<u8>) -> (r: Vec<u8>)
    ensures
        r@ == p@,
{
    let n = p.len();
    let mut r: Vec<u8> = Vec::new();
    let mut i: usize = 0;
    while i < n
        invariant
            i <= n,
            n == p@.len(),
            r@ == p@.subrange(0, i as int),
        decreases n - i,
    {
        r.push(p[i]);
        proof {
            assert(p@.subrange(0, i + 1 as int) =~= p@.subrange(0, i as int).push(p@[i as int]));
        }
        i += 1;
    }
    proof {
        assert(p@.subrange(0, n as int) =~= p@);
    }
    r
}

/// Read a fully downloaded group's payloads out in slot order.
fn extract_payloads(slots: &Vec<FetchSlot>) -> (r: Vec<Vec<u8>>)
    requires
        forall|i: int| 0 <= i < slots@.len() ==> (#[trigger] slots@[i]) is Done,
    ensures
        r.deep_view() == done_payloads(slots@),
{
    let n = slots.len();
    let mut r: Vec<Vec<u8>> = Vec::new();
    let mut i: usize = 0;
    while i < n
        invariant
            i <= n,
            n == slots@.len(),
            r@.len() == i,
            forall|i2: int| 0 <= i2 < slots@.len() ==> (#[trigger] slots@[i2]) is Done,
            forall|j: int| 0 <= j < i ==> (#[trigger] r@[j])@ == slots@[j]->Done_0@,
        decreases n - i,
    {
        match &slots[i] {
            FetchSlot::Done(p) => {
                let q = clone_payload(p);
                r.push(q);
            },
            _ => {
                proof {
                    assert(false);
                }
            },
        }
        i += 1;
    }
    proof {
        assert(r.deep_view() =~~= done_payloads(slots@));
    }
    r
}

impl EpisodeState {
    fn is_resolving(&self) -> (r: bool)
        ensures
            r == (self is Resolving),
    {
        match self {
            EpisodeState::Resolving => true,
            _ => false,
        }
    }

    fn is_unresolved(&self) -> (r: bool)
        ensures
            r == (self is Unresolved),
    {
        match self {
            EpisodeState::Unresolved => true,
            _ => false,
        }
    }
}

/// Two batches agree on every episode but one.
pub open spec fn tasks_eq_except(a: Seq<EpisodeTask>, b: Seq<EpisodeTask>, ep: int) -> bool {
    &&& a.len() == b.len()
    &&& forall|j: int| 0 <= j < a.len() && j != ep ==> a[j] == b[j]
}

/// A download group that has just been set up: one pending slot per
/// locator, nothing in flight, nothing completed, nothing failed.
pub open spec fn fresh_group(g: DownloadGroup, ls: Seq<String>) -> bool {
    &&& g.locators@ == ls
    &&& g.slots@.len() == ls.len()
    &&& forall|i: int| 0 <= i < g.slots@.len() ==> (#[trigger] g.slots@[i]) is Pending
    &&& !g.failed
    &&& g.inflight == 0
    &&& g.completed == 0
}

/// The batch orchestrator.
pub struct Orchestrator {
    pub limit: usize,
    pub in_flight: usize,
    pub tasks: Vec<EpisodeTask>,
    pub report: Vec<String>,
}

impl Orchestrator {
    /// The machine's invariant: the concurrency counter is exact and never
    /// exceeds the cap, every group is well formed, and the report holds
    /// one line per failed episode.
    pub open spec fn wf(self) -> bool {
        &&& self.limit >= 1
        &&& self.in_flight == total_inflight(self.tasks@)
        &&& self.in_flight <= self.limit
        &&& forall|i: int| 0 <= i < self.tasks@.len() ==> task_wf(#[trigger] self.tasks@[i])
        &&& self.report@.len() == seq_count(self.tasks@, |t: EpisodeTask| task_failed(t))
    }

    /// All episodes have run to completion or to their first failure.
    pub open spec fn spec_done(self) -> bool {
        forall|i: int| 0 <= i < self.tasks@.len() ==> (#[trigger] self.tasks@[i]).state is Finished
    }

    /// A new batch over the given episode archive filenames, with the
    /// given cap on simultaneously in-flight fetches.
    pub fn new(filenames: Vec<String>, limit: usize) -> (r: Orchestrator)
        requires
            limit >= 1,
        ensures
            r.wf(),
            r.limit == limit,
            r.in_flight == 0,
            r.report@.len() == 0,
            r.tasks@.len() == filenames@.len(),
            forall|i: int| 0 <= i < filenames@.len() ==> (#[trigger] r.tasks@[i]).filename
                == filenames@[i] && r.tasks@[i].state is Unresolved,
    {
        let mut tasks: Vec<EpisodeTask> = Vec::new();
        let n = filenames.len();
        let mut i: usize = 0;
        while i < n
            invariant
                n == filenames@.len(),
                i <= n,
                tasks@.len() == i,
                forall|j: int| 0 <= j < i ==> (#[trigger] tasks@[j]).filename == filenames@[j]
                    && tasks@[j].state is Unresolved,
                total_inflight(tasks@) == 0,
                seq_count(tasks@, |t: EpisodeTask| task_failed(t)) == 0,
            decreases n - i,
        {
            let ghost before = tasks@;
            let t = EpisodeTask {
                filename: filenames[i].clone(),
                state: EpisodeState::Unresolved,
            };
            proof {
                assert(before.push(t).drop_last() =~= before);
            }
            tasks.push(t);
            i += 1;
        }
        Orchestrator { limit, in_flight: 0, tasks, report: Vec::new() }
    }

    /// Hand out the next episode whose locator list should be resolved.
    /// Resolution is issued for one episode at a time, in catalog order;
    /// `None` while one is outstanding or when none is left. A failure of
    /// any other episode never withholds a remaining one.
    pub fn next_resolve(&mut self) -> (r: Option<usize>)
        requires
            old(self).wf(),
        ensures
            final(self).wf(),
            final(self).limit == old(self).limit,
            final(self).in_flight == old(self).in_flight,
            final(self).report == old(self).report,
            match r {
                Some(ep) => {
                    &&& (ep as int) < old(self).tasks@.len()
                    &&& old(self).tasks@[ep as int].state is Unresolved
                    &&& forall|j: int| 0 <= j < ep ==> !((#[trigger] old(
                        self,
                    ).tasks@[j]).state is Unresolved)
                    &&& final(self).tasks@ == old(self).tasks@.update(
                        ep as int,
                        (EpisodeTask {
                            filename: old(self).tasks@[ep as int].filename,
                            state: EpisodeState::Resolving,
                        }),
                    )
                },
                None => {
                    &&& final(self).tasks@ == old(self).tasks@
                    &&& (exists|j: int|
                        0 <= j < old(self).tasks@.len() && (#[trigger] old(
                            self,
                        ).tasks@[j]).state is Resolving) || (forall|j: int|
                        0 <= j < old(self).tasks@.len() ==> !((#[trigger] old(
                            self,
                        ).tasks@[j]).state is Unresolved))
                },
            },
    {
        let n = self.tasks.len();
        let mut i: usize = 0;
        while i < n
            invariant
                i <= n,
                n == self.tasks@.len(),
                *self == *old(self),
                old(self).wf(),
                forall|j: int| 0 <= j < i ==> !((#[trigger] self.tasks@[j]).state is Resolving),
            decreases n - i,
        {
            if self.tasks[i].state.is_resolving() {
                return None;
            }
            i += 1;
        }
        let mut ep: usize = 0;
        while ep < n
            invariant
                ep <= n,
                n == self.tasks@.len(),
                *self == *old(self),
                old(self).wf(),
                forall|j: int| 0 <= j < ep ==> !((#[trigger] self.tasks@[j]).state is Unresolved),
            decreases n - ep,
        {
            if self.tasks[ep].state.is_unresolved() {
                let ghost before = self.tasks@;
                self.tasks[ep].state = EpisodeState::Resolving;
                proof {
                    let t2 = self.tasks@[ep as int];
                    lemma_total_inflight_update(before, ep as int, t2);
                    lemma_seq_count_update(
                        before,
                        |t: EpisodeTask| task_failed(t),
                        ep as int,
                        t2,
                    );
                    assert(self.tasks@ =~= before.update(
                        ep as int,
                        (EpisodeTask {
                            filename: before[ep as int].filename,
                            state: EpisodeState::Resolving,
                        }),
                    ));
                }
                return Some(ep);
            }
            ep += 1;
        }
        None
    }

    /// Record the outcome of one episode's locator resolution. A failure
    /// settles the episode as failed with its message appended to the
    /// report. An empty locator list has no fetch that could fail: the
    /// episode's (empty) archive is handed back at once for persisting.
    /// Otherwise the episode's download group is set up with one pending
    /// slot per locator.
    pub fn on_resolved(&mut self, ep: usize, locators: Option<Vec<String>>) -> (r: Option<
        (String, Vec<u8>),
    >)
        requires
            old(self).wf(),
            (ep as int) < old(self).tasks@.len(),
            old(self).tasks@[ep as int].state is Resolving,
        ensures
            final(self).wf(),
            final(self).limit == old(self).limit,
            final(self).in_flight == old(self).in_flight,
            tasks_eq_except(final(self).tasks@, old(self).tasks@, ep as int),
            final(self).tasks@[ep as int].filename == old(self).tasks@[ep as int].filename,
            match locators {
                None => {
                    &&& r is None
                    &&& final(self).tasks@[ep as int].state is Finished
                    &&& !final(self).tasks@[ep as int].state->Finished_0
                    &&& final(self).report@.len() == old(self).report@.len() + 1
                    &&& final(self).report@.last()@ == old(self).tasks@[ep as int].filename@
                        + resolve_failed_tag()
                    &&& forall|j: int| 0 <= j < old(self).report@.len()
                        ==> final(self).report@[j] == old(self).report@[j]
                },
                Some(ls) => {
                    if ls@.len() == 0 {
                        &&& final(self).tasks@[ep as int].state is Persisting
                        &&& final(self).report == old(self).report
                        &&& match r {
                            Some(pair) => pair.0 == old(self).tasks@[ep as int].filename
                                && archive_entries_of(pair.1@) == Some(
                                archive_model(Seq::<Seq<u8>>::empty()),
                            ),
                            None => false,
                        }
                    } else {
                        &&& r is None
                        &&& final(self).report == old(self).report
                        &&& final(self).tasks@[ep as int].state is Downloading
                        &&& fresh_group(final(self).tasks@[ep as int].state->Downloading_0, ls@)
                    }
                },
            },
    {
        let ghost before = self.tasks@;
        match locators {
            None => {
                let msg = resolve_failed_message(&self.tasks[ep].filename);
                self.report.push(msg);
                self.tasks[ep].state = EpisodeState::Finished(false);
                proof {
                    let t2 = self.tasks@[ep as int];
                    lemma_total_inflight_update(before, ep as int, t2);
                    lemma_seq_count_update(
                        before,
                        |t: EpisodeTask| task_failed(t),
                        ep as int,
                        t2,
                    );
                }
                None
            },
            Some(ls) => {
                if ls.len() == 0 {
                    let empty_payloads: Vec<Vec<u8>> = Vec::new();
                    proof {
                        assert(empty_payloads.deep_view() =~= Seq::<Seq<u8>>::empty());
                    }
                    let bytes = match write_archive(&empty_payloads) {
                        Some(b) => b,
                        None => vstd::pervasive::unreached(),
                    };
                    let fname = self.tasks[ep].filename.clone();
                    self.tasks[ep].state = EpisodeState::Persisting;
                    proof {
                        let t2 = self.tasks@[ep as int];
                        lemma_total_inflight_update(before, ep as int, t2);
                        lemma_seq_count_update(
                            before,
                            |t: EpisodeTask| task_failed(t),
                            ep as int,
                            t2,
                        );
                    }
                    Some((fname, bytes))
                } else {
                    let m = ls.len();
                    let mut slots: Vec<FetchSlot> = Vec::new();
                    let mut i: usize = 0;
                    while i < m
                        invariant
                            i <= m,
                            slots@.len() == i,
                            forall|j: int| 0 <= j < i ==> (#[trigger] slots@[j]) is Pending,
                            seq_count(slots@, |s: FetchSlot| slot_inflight(s)) == 0,
                            seq_count(slots@, |s: FetchSlot| slot_settled(s)) == 0,
                            seq_count(slots@, |s: FetchSlot| slot_failed(s)) == 0,
                        decreases m - i,
                    {
                        let ghost sbefore = slots@;
                        slots.push(FetchSlot::Pending);
                        proof {
                            assert(sbefore.push(FetchSlot::Pending).drop_last() =~= sbefore);
                        }
                        i += 1;
                    }
                    let g = DownloadGroup {
                        locators: ls,
                        slots,
                        failed: false,
                        inflight: 0,
                        completed: 0,
                    };
                    self.tasks[ep].state = EpisodeState::Downloading(g);
                    proof {
                        let t2 = self.tasks@[ep as int];
                        lemma_total_inflight_update(before, ep as int, t2);
                        lemma_seq_count_update(
                            before,
                            |t: EpisodeTask| task_failed(t),
                            ep as int,
                            t2,
                        );
                    }
                    None
                }
            },
        }
    }

    /// Find a fetch that could be started, favouring the earliest episode
    /// and the lowest index.
    fn find_startable(&self) -> (r: Option<(usize, usize)>)
        requires
            self.wf(),
        ensures
            match r {
                Some((e, i)) => startable_at(self.tasks@, e as int, i as int),
                None => !has_startable(self.tasks@),
            },
    {
        let n = self.tasks.len();
        let mut e: usize = 0;
        while e < n
            invariant
                e <= n,
                n == self.tasks@.len(),
                forall|e2: int, i2: int| e2 < e ==> !startable_at(self.tasks@, e2, i2),
            decreases n - e,
        {
            match &self.tasks[e].state {
                EpisodeState::Downloading(g) => {
                    if !g.failed {
                        let m = g.slots.len();
                        let mut i: usize = 0;
                        while i < m
                            invariant
                                i <= m,
                                m == g.slots@.len(),
                                forall|i2: int| 0 <= i2 < i ==> !((#[trigger] g.slots@[i2]) is Pending),
                                e < self.tasks@.len(),
                                self.tasks@[e as int].state is Downloading,
                                g == self.tasks@[e as int].state->Downloading_0,
                                !g.failed,
                            decreases m - i,
                        {
                            if g.slots[i].is_pending() {
                                return Some((e, i));
                            }
                            i += 1;
                        }
                        proof {
                            assert forall|i2: int| !startable_at(self.tasks@, e as int, i2) by {}
                        }
                    } else {
                        proof {
                            assert forall|i2: int| !startable_at(self.tasks@, e as int, i2) by {}
                        }
                    }
                },
                _ => {
                    proof {
                        assert forall|i2: int| !startable_at(self.tasks@, e as int, i2) by {}
                    }
                },
            }
            e += 1;
        }
        proof {
            assert forall|e2: int, i2: int| !startable_at(self.tasks@, e2, i2) by {}
        }
        None
    }

    /// Hand out one fetch to start, if the shared concurrency budget has a
    /// free unit and some episode still has a pending resource: the
    /// episode, the slot index the payload must be delivered under, and
    /// the locator to fetch. The unit is held until the outcome comes back
    /// through `on_fetch_done`.
    pub fn next_fetch(&mut self) -> (r: Option<(usize, usize, String)>)
        requires
            old(self).wf(),
        ensures
            final(self).wf(),
            final(self).limit == old(self).limit,
            final(self).report == old(self).report,
            final(self).tasks@.len() == old(self).tasks@.len(),
            match r {
                Some((ep, idx, url)) => {
                    &&& startable_at(old(self).tasks@, ep as int, idx as int)
                    &&& old(self).in_flight < old(self).limit
                    &&& final(self).in_flight == old(self).in_flight + 1
                    &&& url@ == old(self).tasks@[ep as int].state->Downloading_0.locators@[
                        idx as int
                    ]@
                    &&& tasks_eq_except(final(self).tasks@, old(self).tasks@, ep as int)
                    &&& final(self).tasks@[ep as int].filename == old(self).tasks@[
                        ep as int
                    ].filename
                    &&& final(self).tasks@[ep as int].state is Downloading
                    &&& ({
                        let g = old(self).tasks@[ep as int].state->Downloading_0;
                        let g2 = final(self).tasks@[ep as int].state->Downloading_0;
                        &&& g2.locators == g.locators
                        &&& g2.slots@ == g.slots@.update(idx as int, FetchSlot::InFlight)
                        &&& g2.failed == g.failed
                        &&& g2.inflight == g.inflight + 1
                        &&& g2.completed == g.completed
                    })
                },
                None => {
                    &&& final(self).tasks@ == old(self).tasks@
                    &&& final(self).in_flight == old(self).in_flight
                    &&& old(self).in_flight == old(self).limit || !has_startable(
                        old(self).tasks@,
                    )
                },
            },
    {
        if self.in_flight >= self.limit {
            return None;
        }
        let found = self.find_startable();
        match found {
            None => None,
            Some((ep, idx)) => {
                let ghost before = self.tasks@;
                let ghost gold = before[ep as int].state->Downloading_0;
                proof {
                    lemma_total_inflight_ge_task(before, ep as int);
                }
                let url = match &self.tasks[ep].state {
                    EpisodeState::Downloading(g) => g.locators[idx].clone(),
                    _ => vstd::pervasive::unreached(),
                };
                match &mut self.tasks[ep].state {
                    EpisodeState::Downloading(g) => {
                        proof {
                            lemma_seq_count_le_len(g.slots@, |s: FetchSlot| slot_inflight(s));
                        }
                        g.slots[idx] = FetchSlot::InFlight;
                        g.inflight = g.inflight + 1;
                        proof {
                            lemma_seq_count_update(
                                gold.slots@,
                                |s: FetchSlot| slot_inflight(s),
                                idx as int,
                                FetchSlot::InFlight,
                            );
                            lemma_seq_count_update(
                                gold.slots@,
                                |s: FetchSlot| slot_settled(s),
                                idx as int,
                                FetchSlot::InFlight,
                            );
                            lemma_seq_count_update(
                                gold.slots@,
                                |s: FetchSlot| slot_failed(s),
                                idx as int,
                                FetchSlot::InFlight,
                            );
                        }
                    },
                    _ => {
                        proof {
                            assert(false);
                        }
                    },
                }
                self.in_flight = self.in_flight + 1;
                proof {
                    let t2 = self.tasks@[ep as int];
                    lemma_total_inflight_update(before, ep as int, t2);
                    lemma_seq_count_update(
                        before,
                        |t: EpisodeTask| task_failed(t),
                        ep as int,
                        t2,
                    );
                }
                Some((ep, idx, url))
            },
        }
    }

    /// Take back one fetch outcome, delivered under the slot index it was
    /// handed out with, and release its concurrency unit. The payload is
    /// recorded at its own index, so the group's output keeps locator
    /// order no matter the completion order. A failed fetch fails the
    /// whole group (its remaining pending fetches are abandoned, in-flight
    /// siblings are still taken back); once the group is accounted for the
    /// episode settles: a failed group adds its download-failure line to
    /// the report, a complete one is packaged and handed back as the
    /// archive bytes to persist under the episode's filename.
    pub fn on_fetch_done(&mut self, ep: usize, idx: usize, payload: Option<Vec<u8>>) -> (r: Option<
        (String, Vec<u8>),
    >)
        requires
            old(self).wf(),
            (ep as int) < old(self).tasks@.len(),
            old(self).tasks@[ep as int].state is Downloading,
            (idx as int) < old(self).tasks@[ep as int].state->Downloading_0.slots@.len(),
            old(self).tasks@[ep as int].state->Downloading_0.slots@[idx as int] is InFlight,
        ensures
            final(self).wf(),
            final(self).limit == old(self).limit,
            final(self).in_flight == old(self).in_flight - 1,
            tasks_eq_except(final(self).tasks@, old(self).tasks@, ep as int),
            final(self).tasks@[ep as int].filename == old(self).tasks@[ep as int].filename,
            ({
                let g = old(self).tasks@[ep as int].state->Downloading_0;
                let s2 = g.slots@.update(idx as int, settled_slot_of(payload));
                let fail2 = g.failed || payload is None;
                let fname = old(self).tasks@[ep as int].filename;
                if fail2 {
                    &&& r is None
                    &&& if g.inflight == 1 {
                        // the last outstanding fetch: the episode settles as failed
                        &&& final(self).tasks@[ep as int].state is Finished
                        &&& !final(self).tasks@[ep as int].state->Finished_0
                        &&& final(self).report@.len() == old(self).report@.len() + 1
                        &&& final(self).report@.last()@ == fname@ + download_failed_tag()
                        &&& forall|j: int| 0 <= j < old(self).report@.len()
                            ==> final(self).report@[j] == old(self).report@[j]
                    } else {
                        &&& final(self).tasks@[ep as int].state is Downloading
                        &&& group_is(
                            final(self).tasks@[ep as int].state->Downloading_0,
                            g.locators,
                            s2,
                            true,
                            g.inflight - 1,
                            g.completed + 1,
                        )
                        &&& final(self).report == old(self).report
                    }
                } else if g.completed + 1 == s2.len() {
                    // every resource arrived: the archive is assembled in
                    // locator order, position i holding the payload that
                    // was delivered for index i; the bytes are owed
                    // whenever every payload fits the archive format's
                    // plain entry size
                    &&& ((forall|i: int| 0 <= i < s2.len() ==> (#[trigger] done_payloads(
                        s2,
                    )[i]).len() <= 0xFFFF_FFFF) ==> r is Some)
                    &&& match r {
                        Some(pair) => {
                            &&& final(self).tasks@[ep as int].state is Persisting
                            &&& pair.0 == fname
                            &&& archive_entries_of(pair.1@) == Some(
                                archive_model(done_payloads(s2)),
                            )
                            &&& done_payloads(s2)[idx as int] == payload->Some_0@
                            &&& final(self).report == old(self).report
                        },
                        None => {
                            &&& final(self).tasks@[ep as int].state is Finished
                            &&& !final(self).tasks@[ep as int].state->Finished_0
                            &&& final(self).report@.len() == old(self).report@.len() + 1
                            &&& final(self).report@.last()@ == fname@ + write_failed_tag()
                            &&& forall|j: int| 0 <= j < old(self).report@.len()
                                ==> final(self).report@[j] == old(self).report@[j]
                        },
                    }
                } else {
                    &&& r is None
                    &&& final(self).tasks@[ep as int].state is Downloading
                    &&& group_is(
                        final(self).tasks@[ep as int].state->Downloading_0,
                        g.locators,
                        s2,
                        false,
                        g.inflight - 1,
                        g.completed + 1,
                    )
                    &&& final(self).report == old(self).report
                }
            }),
    {
        let ghost before = self.tasks@;
        let ghost gold = before[ep as int].state->Downloading_0;
        let failed_fetch = payload.is_none();
        proof {
            lemma_total_inflight_ge_task(before, ep as int);
            lemma_seq_count_bounds(gold.slots@, |s: FetchSlot| slot_inflight(s), idx as int);
            lemma_seq_count_bounds(gold.slots@, |s: FetchSlot| slot_settled(s), idx as int);
        }
        match &mut self.tasks[ep].state {
            EpisodeState::Downloading(g) => {
                let slot = match payload {
                    Some(p) => FetchSlot::Done(p),
                    None => FetchSlot::Failed,
                };
                g.slots[idx] = slot;
                if failed_fetch {
                    g.failed = true;
                }
                let slen = g.slots.len();
                proof {
                    assert(g.slots@.len() == gold.slots@.len());
                    assert(g.completed < slen);
                }
                g.inflight = g.inflight - 1;
                g.completed = g.completed + 1;
                proof {
                    lemma_seq_count_update(
                        gold.slots@,
                        |s: FetchSlot| slot_inflight(s),
                        idx as int,
                        settled_slot_of(payload),
                    );
                    lemma_seq_count_update(
                        gold.slots@,
                        |s: FetchSlot| slot_settled(s),
                        idx as int,
                        settled_slot_of(payload),
                    );
                    lemma_seq_count_update(
                        gold.slots@,
                        |s: FetchSlot| slot_failed(s),
                        idx as int,
                        settled_slot_of(payload),
                    );
                }
            },
            _ => {
                proof {
                    assert(false);
                }
            },
        }
        self.in_flight = self.in_flight - 1;
        let ghost mid = self.tasks@;
        proof {
            lemma_total_inflight_update(before, ep as int, mid[ep as int]);
            lemma_seq_count_update(
                before,
                |t: EpisodeTask| task_failed(t),
                ep as int,
                mid[ep as int],
            );
        }
        let (is_failed, infl, comp, len) = match &self.tasks[ep].state {
            EpisodeState::Downloading(g) => (g.failed, g.inflight, g.completed, g.slots.len()),
            _ => vstd::pervasive::unreached(),
        };
        if is_failed {
            if infl == 0 {
                let msg = download_failed_message(&self.tasks[ep].filename);
                self.report.push(msg);
                self.tasks[ep].state = EpisodeState::Finished(false);
                proof {
                    lemma_total_inflight_update(mid, ep as int, self.tasks@[ep as int]);
                    lemma_seq_count_update(
                        mid,
                        |t: EpisodeTask| task_failed(t),
                        ep as int,
                        self.tasks@[ep as int],
                    );
                }
            }
            return None;
        }
        if comp == len {
            let ghost s2 = mid[ep as int].state->Downloading_0.slots@;
            proof {
                lemma_seq_count_extremes(s2, |s: FetchSlot| slot_settled(s));
                lemma_seq_count_extremes(s2, |s: FetchSlot| slot_failed(s));
                lemma_seq_count_uniform(s2, |s: FetchSlot| slot_inflight(s));
                assert forall|i: int| 0 <= i < s2.len() implies (#[trigger] s2[i]) is Done by {}
            }
            let payloads = match &self.tasks[ep].state {
                EpisodeState::Downloading(g) => extract_payloads(&g.slots),
                _ => vstd::pervasive::unreached(),
            };
            match write_archive(&payloads) {
                Some(bytes) => {
                    let fname = self.tasks[ep].filename.clone();
                    self.tasks[ep].state = EpisodeState::Persisting;
                    proof {
                        lemma_total_inflight_update(mid, ep as int, self.tasks@[ep as int]);
                        lemma_seq_count_update(
                            mid,
                            |t: EpisodeTask| task_failed(t),
                            ep as int,
                            self.tasks@[ep as int],
                        );
                    }
                    return Some((fname, bytes));
                },
                None => {
                    proof {
                        if forall|i: int| 0 <= i < s2.len() ==> (#[trigger] done_payloads(
                            s2,
                        )[i]).len() <= 0xFFFF_FFFF {
                            assert(payloads.deep_view().len() == payloads@.len());
                            assert(payloads.deep_view() == done_payloads(s2));
                            assert(done_payloads(s2).len() == s2.len());
                            assert forall|i: int| 0 <= i < payloads@.len() implies (
                            #[trigger] payloads@[i])@.len() <= 0xFFFF_FFFF by {
                                assert(payloads.deep_view()[i] == payloads@[i].deep_view());
                                assert(payloads@[i].deep_view() =~= payloads@[i]@);
                                assert(0 <= i < s2.len());
                                assert(done_payloads(s2)[i].len() <= 0xFFFF_FFFF);
                            }
                            assert(false);
                        }
                    }
                    let msg = write_failed_message(&self.tasks[ep].filename);
                    self.report.push(msg);
                    self.tasks[ep].state = EpisodeState::Finished(false);
                    proof {
                        lemma_total_inflight_update(mid, ep as int, self.tasks@[ep as int]);
                        lemma_seq_count_update(
                            mid,
                            |t: EpisodeTask| task_failed(t),
                            ep as int,
                            self.tasks@[ep as int],
                        );
                    }
                    return None;
                },
            }
        }
        None
    }

    /// Record whether the archive bytes handed out for an episode reached
    /// disk; a failure adds the episode's archive-write line to the
    /// report.
    pub fn on_persisted(&mut self, ep: usize, ok: bool)
        requires
            old(self).wf(),
            (ep as int) < old(self).tasks@.len(),
            old(self).tasks@[ep as int].state is Persisting,
        ensures
            final(self).wf(),
            final(self).limit == old(self).limit,
            final(self).in_flight == old(self).in_flight,
            tasks_eq_except(final(self).tasks@, old(self).tasks@, ep as int),
            final(self).tasks@[ep as int].filename == old(self).tasks@[ep as int].filename,
            final(self).tasks@[ep as int].state is Finished,
            final(self).tasks@[ep as int].state->Finished_0 == ok,
            if ok {
                final(self).report == old(self).report
            } else {
                &&& final(self).report@.len() == old(self).report@.len() + 1
                &&& final(self).report@.last()@ == old(self).tasks@[ep as int].filename@
                    + write_failed_tag()
                &&& forall|j: int| 0 <= j < old(self).report@.len()
                    ==> final(self).report@[j] == old(self).report@[j]
            },
    {
        let ghost before = self.tasks@;
        if !ok {
            let msg = write_failed_message(&self.tasks[ep].filename);
            self.report.push(msg);
        }
        self.tasks[ep].state = EpisodeState::Finished(ok);
        proof {
            lemma_total_inflight_update(before, ep as int, self.tasks@[ep as int]);
            lemma_seq_count_update(
                before,
                |t: EpisodeTask| task_failed(t),
                ep as int,
                self.tasks@[ep as int],
            );
        }
    }

    /// The observability signal of one episode's download group: how many
    /// of its fetches have settled, out of how many. It only ever grows
    /// while the group runs, and has no effect on control flow. `None`
    /// when the episode is not downloading.
    pub fn progress(&self, ep: usize) -> (r: Option<(usize, usize)>)
        ensures
            match r {
                Some((done, total)) => {
                    &&& (ep as int) < self.tasks@.len()
                    &&& self.tasks@[ep as int].state is Downloading
                    &&& done == self.tasks@[ep as int].state->Downloading_0.completed
                    &&& total == self.tasks@[ep as int].state->Downloading_0.slots@.len()
                },
                None => (ep as int) >= self.tasks@.len() || !(self.tasks@[
                    ep as int
                ].state is Downloading),
            },
    {
        if ep >= self.tasks.len() {
            return None;
        }
        match &self.tasks[ep].state {
            EpisodeState::Downloading(g) => Some((g.completed, g.slots.len())),
            _ => None,
        }
    }

    /// Whether an episode's locator resolution is outstanding (what
    /// `on_resolved` expects).
    pub fn awaits_resolution(&self, ep: usize) -> (r: bool)
        ensures
            r == ((ep as int) < self.tasks@.len() && self.tasks@[ep as int].state is Resolving),
    {
        if ep >= self.tasks.len() {
            return false;
        }
        self.tasks[ep].state.is_resolving()
    }

    /// Whether a fetch is outstanding under this episode and slot index
    /// (what `on_fetch_done` expects).
    pub fn awaits_fetch(&self, ep: usize, idx: usize) -> (r: bool)
        ensures
            r == ((ep as int) < self.tasks@.len() && self.tasks@[ep as int].state is Downloading
                && (idx as int) < self.tasks@[ep as int].state->Downloading_0.slots@.len()
                && self.tasks@[ep as int].state->Downloading_0.slots@[idx as int] is InFlight),
    {
        if ep >= self.tasks.len() {
            return false;
        }
        match &self.tasks[ep].state {
            EpisodeState::Downloading(g) => {
                if idx >= g.slots.len() {
                    return false;
                }
                match &g.slots[idx] {
                    FetchSlot::InFlight => true,
                    _ => false,
                }
            },
            _ => false,
        }
    }

    /// Whether an episode's archive bytes are out for persisting (what
    /// `on_persisted` expects).
    pub fn awaits_persist(&self, ep: usize) -> (r: bool)
        ensures
            r == ((ep as int) < self.tasks@.len() && self.tasks@[ep as int].state is Persisting),
    {
        if ep >= self.tasks.len() {
            return false;
        }
        match &self.tasks[ep].state {
            EpisodeState::Persisting => true,
            _ => false,
        }
    }

    /// Whether every episode has run to completion or to its first
    /// failure.
    pub fn is_done(&self) -> (r: bool)
        ensures
            r == self.spec_done(),
    {
        let n = self.tasks.len();
        let mut i: usize = 0;
        while i < n
            invariant
                i <= n,
                n == self.tasks@.len(),
                forall|j: int| 0 <= j < i ==> (#[trigger] self.tasks@[j]).state is Finished,
            decreases n - i,
        {
            let finished = match &self.tasks[i].state {
                EpisodeState::Finished(_) => true,
                _ => false,
            };
            if !finished {
                return false;
            }
            i += 1;
        }
        true
    }

    /// The batch report: one failure line per failed episode, in the
    /// order the failures were recorded; empty means every episode
    /// archived successfully.
    pub fn into_report(self) -> (r: Vec<String>)
        ensures
            r == self.report,
    {
        self.report
    }
}

/// Every episode is processed exactly once: a machine that has no
/// resolution to issue, no fetch to start or take back, and no archive
/// out for persisting has finished every episode of the batch — no
/// failure anywhere terminates it early.
pub proof fn lemma_no_work_left_means_done(o: Orchestrator)
    requires
        o.wf(),
        forall|j: int| 0 <= j < o.tasks@.len() ==> !((#[trigger] o.tasks@[j]).state is Unresolved),
        forall|j: int| 0 <= j < o.tasks@.len() ==> !((#[trigger] o.tasks@[j]).state is Resolving),
        forall|j: int| 0 <= j < o.tasks@.len() ==> !((#[trigger] o.tasks@[j]).state is Persisting),
        o.in_flight == 0,
        !has_startable(o.tasks@),
    ensures
        o.spec_done(),
{
    assert forall|j: int| 0 <= j < o.tasks@.len() implies (#[trigger] o.tasks@[j]).state
        is Finished by {
        let st = o.tasks@[j].state;
        if st is Downloading {
            let g = st->Downloading_0;
            lemma_total_inflight_ge_task(o.tasks@, j);
            assert(g.inflight == 0);
            if !g.failed {
                lemma_seq_count_extremes(g.slots@, |s: FetchSlot| slot_inflight(s));
                assert(seq_count(g.slots@, |s: FetchSlot| slot_settled(s)) < g.slots@.len());
                if forall|i: int| 0 <= i < g.slots@.len() ==> slot_settled(#[trigger] g.slots@[i]) {
                    lemma_seq_count_uniform(g.slots@, |s: FetchSlot| slot_settled(s));
                    assert(false);
                }
                let i = choose|i: int|
                    0 <= i < g.slots@.len() && !slot_settled(#[trigger] g.slots@[i]);
                assert(g.slots@[i] is Pending);
                assert(startable_at(o.tasks@, j, i));
                assert(false);
            }
        }
    }
}

/// The shared concurrency budget is never exceeded: the fetches handed
/// out and not yet taken back never outnumber the cap the batch was set
/// up with.
pub proof fn lemma_inflight_bounded(o: Orchestrator)
    requires
        o.wf(),
    ensures
        o.in_flight <= o.limit,
        total_inflight(o.tasks@) <= o.limit,
{
}

/// When the batch is done its report holds exactly one line per failed
/// episode.
pub proof fn lemma_report_counts_failures(o: Orchestrator)
    requires
        o.wf(),
        o.spec_done(),
    ensures
        o.report@.len() == seq_count(o.tasks@, |t: EpisodeTask| task_failed(t)),
{
}

/// Order preservation, end to end: the archive bytes produced for a fully
/// downloaded group hold, at entry position i, the name for position i
/// and byte for byte the payload that was delivered for slot i.
pub proof fn lemma_group_archive_order(s: Seq<FetchSlot>, b: Seq<u8>)
    requires
        forall|i: int| 0 <= i < s.len() ==> (#[trigger] s[i]) is Done,
        archive_entries_of(b) == Some(archive_model(done_payloads(s))),
    ensures
        archive_entries_of(b)->Some_0.len() == s.len(),
        forall|i: int| 0 <= i < s.len()
            ==> (#[trigger] archive_entries_of(b)->Some_0[i]).0
                == crate::text::entry_name_spec(i as nat)
                && archive_entries_of(b)->Some_0[i].1 == s[i]->Done_0@,
{
    crate::archive::lemma_archive_round_trip(done_payloads(s), b);
}

} // verus!
