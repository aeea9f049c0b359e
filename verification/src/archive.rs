//! The archive job: packaging a selection of photos into one archive.
//!
//! A job is made for one selection. The photos are fetched elsewhere, all at
//! once, and arrive here in whatever order the fetches complete. Each arrival
//! becomes an archive entry named after the photo's capture time, and yields a
//! progress report. One failed fetch fails the whole job, and what was
//! written is discarded.

use crate::calendar::label_with;
use crate::calendar::labelled;
use crate::packaging::add_entry;
use crate::packaging::archive_entries;
use crate::packaging::archive_open;
use crate::packaging::takes_all;
use crate::packaging::takes_entry;
use crate::packaging::zip_encoding;
use crate::packaging::zip_finish;
use crate::packaging::zip_new;
use crate::packaging::ArchiveWriter;
use crate::photo_index::dated;
use crate::photo_index::lists;
use crate::photo_index::views;
use crate::photo_index::PhotoRecord;
use vstd::prelude::*;

verus! {

/// How many photos of the selection are in the archive.
#[derive(Debug, Clone, Copy, PartialEq, Eq, Structural)]
pub struct Progress {
    pub completed: usize,
    pub total: usize,
}

/// Why a job failed. `position` counts the photos of the selection from zero.
#[derive(Debug, Clone, Copy, PartialEq, Eq, Structural)]
pub enum ArchiveError {
    /// The photo could not be fetched.
    FetchFailed { position: usize },
    /// The selection has no photo at this position, or its photo arrived
    /// before.
    Unexpected { position: usize },
    /// The capture time of the photo has no calendar date to name the entry.
    Unnamed { position: usize },
    /// The job was finished before every photo had arrived.
    Incomplete { completed: usize, total: usize },
    /// The job had failed before.
    Aborted,
    /// The archive could not be written.
    Packaging,
}

/// The name of the archive entry of a photo: its capture time as a UTC date
/// and time, followed by `.jpg`.
pub open spec fn entry_name(timestamp: i64) -> Option<Seq<char>> {
    labelled(timestamp, ".jpg"@)
}

/// How many flags are set.
pub open spec fn count_true(flags: Seq<bool>) -> nat
    decreases flags.len(),
{
    if flags.len() == 0 {
        0
    } else {
        count_true(flags.drop_last()) + if flags.last() {
            1nat
        } else {
            0nat
        }
    }
}

proof fn lemma_count_bound(flags: Seq<bool>)
    ensures
        count_true(flags) <= flags.len(),
    decreases flags.len(),
{
    if flags.len() > 0 {
        lemma_count_bound(flags.drop_last());
    }
}

proof fn lemma_count_set(flags: Seq<bool>, at: int)
    requires
        0 <= at < flags.len(),
        !flags[at],
    ensures
        count_true(flags.update(at, true)) == count_true(flags) + 1,
    decreases flags.len(),
{
    let rest = flags.drop_last();
    let after = flags.update(at, true);
    if at == flags.len() - 1 {
        assert(after.drop_last() =~= rest);
    } else {
        lemma_count_set(rest, at);
        assert(after.drop_last() =~= rest.update(at, true));
    }
}

proof fn lemma_count_none(n: nat)
    ensures
        count_true(Seq::new(n, |i: int| false)) == 0,
    decreases n,
{
    if n > 0 {
        lemma_count_none((n - 1) as nat);
        assert(Seq::new(n, |i: int| false).drop_last() =~= Seq::new((n - 1) as nat, |i: int| false));
    }
}

/// What is known of a job.
pub struct JobView {
    /// The photos to package: capture time and reference.
    pub selection: Seq<(i64, Seq<char>)>,
    /// For each photo of the selection, whether it is in the archive.
    pub done: Seq<bool>,
    /// The archive entries written so far: name and data.
    pub entries: Seq<(Seq<char>, Seq<u8>)>,
    /// Whether the job has failed.
    pub failed: bool,
}

impl JobView {
    /// The job for a selection, before any photo has arrived.
    pub open spec fn fresh(selection: Seq<(i64, Seq<char>)>) -> JobView {
        JobView {
            selection,
            done: Seq::new(selection.len(), |i: int| false),
            entries: Seq::empty(),
            failed: false,
        }
    }

    pub open spec fn total(self) -> nat {
        self.selection.len()
    }

    pub open spec fn completed(self) -> nat {
        self.entries.len()
    }

    /// Whether the photo at the position is still to arrive.
    pub open spec fn pending(self, position: int) -> bool {
        0 <= position < self.selection.len() && position < self.done.len() && !self.done[position]
    }

    /// Whether the job takes the photo at the position: the name of its entry,
    /// or why not.
    pub open spec fn admits(self, position: usize) -> Result<Seq<char>, ArchiveError> {
        if self.failed {
            Err(ArchiveError::Aborted)
        } else if !self.pending(position as int) {
            Err(ArchiveError::Unexpected { position })
        } else {
            match entry_name(self.selection[position as int].0) {
                Some(name) => Ok(name),
                None => Err(ArchiveError::Unnamed { position }),
            }
        }
    }

    /// The job after the photo at the position was written under the name.
    pub open spec fn with_entry(self, position: int, name: Seq<char>, data: Seq<u8>) -> JobView {
        JobView {
            done: self.done.update(position, true),
            entries: self.entries.push((name, data)),
            ..self
        }
    }

    /// The job after it failed: nothing of the archive is kept.
    pub open spec fn abandoned(self) -> JobView {
        JobView { entries: Seq::empty(), failed: true, ..self }
    }

    /// The report after the last arrival.
    pub open spec fn progress(self) -> Progress {
        Progress { completed: self.completed() as usize, total: self.total() as usize }
    }

    /// What finishing the job gives: the bytes of the archive, or why there is
    /// none.
    pub open spec fn closing(self) -> Result<Seq<u8>, ArchiveError> {
        if self.failed {
            Err(ArchiveError::Aborted)
        } else if self.completed() != self.total() {
            Err(
                ArchiveError::Incomplete {
                    completed: self.completed() as usize,
                    total: self.total() as usize,
                },
            )
        } else {
            match zip_encoding(self.entries) {
                Some(bytes) => Ok(bytes),
                None => Err(ArchiveError::Packaging),
            }
        }
    }
}

/// One query's packaging work.
pub struct ArchiveJob {
    selection: Vec<PhotoRecord>,
    done: Vec<bool>,
    completed: usize,
    writer: Option<ArchiveWriter>,
}

impl View for ArchiveJob {
    type V = JobView;

    closed spec fn view(&self) -> JobView {
        JobView {
            selection: views(self.selection@),
            done: self.done@,
            entries: match self.writer {
                Some(w) => archive_entries(w),
                None => Seq::empty(),
            },
            failed: self.writer is None,
        }
    }
}

impl ArchiveJob {
    #[verifier::type_invariant]
    spec fn sound(self) -> bool {
        self.writer matches Some(w) ==> {
            &&& self.done@.len() == self.selection@.len()
            &&& self.completed == count_true(self.done@)
            &&& archive_entries(w).len() == self.completed
            &&& archive_open(w)
        }
    }

    /// Starts the job for a selection and makes the first report, `0 / total`.
    pub fn start(selection: Vec<PhotoRecord>) -> (started: (ArchiveJob, Progress))
        ensures
            started.0@ == JobView::fresh(views(selection@)),
            started.1 == (Progress { completed: 0, total: selection@.len() as usize }),
    {
        let mut done: Vec<bool> = Vec::new();
        let mut i: usize = 0;
        while i < selection.len()
            invariant
                i <= selection@.len(),
                done@ == Seq::new(i as nat, |k: int| false),
            decreases selection@.len() - i,
        {
            done.push(false);
            assert(done@ =~= Seq::new((i + 1) as nat, |k: int| false));
            i = i + 1;
        }
        proof {
            lemma_count_none(selection@.len());
        }
        let total: usize = selection.len();
        let job = ArchiveJob { selection, done, completed: 0, writer: Some(zip_new()) };
        (job, Progress { completed: 0, total })
    }

    /// The number of photos in the selection.
    pub fn total(&self) -> (n: usize)
        ensures
            n == self@.total(),
    {
        self.selection.len()
    }

    /// The number of photos in the archive.
    pub fn completed(&self) -> (n: usize)
        ensures
            n == self@.completed(),
            n <= self@.total(),
    {
        proof {
            use_type_invariant(self);
            lemma_count_bound(self.done@);
        }
        match &self.writer {
            Some(_) => self.completed,
            None => 0,
        }
    }

    /// Whether the job has failed.
    pub fn is_failed(&self) -> (failed: bool)
        ensures
            failed == self@.failed,
    {
        self.writer.is_none()
    }

    /// The photo at a position of the selection.
    pub fn record(&self, position: usize) -> (r: Option<&PhotoRecord>)
        ensures
            r is Some <==> position < self@.total(),
            r matches Some(record) ==> record@ == self@.selection[position as int],
    {
        if position < self.selection.len() {
            Some(&self.selection[position])
        } else {
            None
        }
    }

    /// Decides whether the photo at the position is taken, and under which
    /// entry name.
    pub fn name_entry(&self, position: usize) -> (r: Result<String, ArchiveError>)
        ensures
            r matches Ok(name) ==> self@.admits(position) == Ok::<Seq<char>, ArchiveError>(name@),
            r matches Err(e) ==> self@.admits(position) == Err::<Seq<char>, ArchiveError>(e),
    {
        proof {
            use_type_invariant(self);
        }
        if self.writer.is_none() {
            return Err(ArchiveError::Aborted);
        }
        if position >= self.selection.len() || self.done[position] {
            return Err(ArchiveError::Unexpected { position });
        }
        match label_with(self.selection[position].timestamp, ".jpg") {
            Some(name) => Ok(name),
            None => Err(ArchiveError::Unnamed { position }),
        }
    }

    /// Fails the job and discards what was written.
    pub fn abandon(&mut self)
        ensures
            final(self)@ == old(self)@.abandoned(),
    {
        let mut slot: Option<ArchiveWriter> = None;
        core::mem::swap(&mut self.writer, &mut slot);
    }

    /// Takes note that the photo at the position could not be fetched: the job
    /// fails.
    pub fn fetch_failed(&mut self, position: usize) -> (e: ArchiveError)
        ensures
            final(self)@ == old(self)@.abandoned(),
            e == (ArchiveError::FetchFailed { position }),
    {
        self.abandon();
        ArchiveError::FetchFailed { position }
    }

    /// Takes the bytes of the photo at the position into the archive and
    /// reports the progress made. The photo is refused if the job does not
    /// wait for it; whether the archive takes the entry is for the zip writer
    /// to say. Any error fails the job.
    pub fn fetched(&mut self, position: usize, data: &[u8]) -> (r: Result<Progress, ArchiveError>)
        ensures
            match old(self)@.after((position, Some(data@))) {
                Ok(next) => {
                    &&& r == Ok::<Progress, ArchiveError>(next.progress())
                    &&& final(self)@ == next
                    &&& next.completed() == old(self)@.completed() + 1
                    &&& next.completed() <= next.total()
                },
                Err(e) => {
                    &&& r == Err::<Progress, ArchiveError>(e)
                    &&& final(self)@ == old(self)@.abandoned()
                },
            },
    {
        proof {
            use_type_invariant(&*self);
        }
        let name: String = match self.name_entry(position) {
            Ok(name) => name,
            Err(e) => {
                self.abandon();
                return Err(e);
            },
        };
        let mut slot: Option<ArchiveWriter> = None;
        core::mem::swap(&mut self.writer, &mut slot);
        let mut writer: ArchiveWriter = slot.unwrap();
        if !add_entry(&mut writer, name.as_str(), data) {
            return Err(ArchiveError::Packaging);
        }
        let ghost flags = self.done@;
        proof {
            lemma_count_set(flags, position as int);
            lemma_count_bound(flags.update(position as int, true));
        }
        let total: usize = self.selection.len();
        let completed: usize = self.completed + 1;
        let mut done: Vec<bool> = Vec::new();
        core::mem::swap(&mut self.done, &mut done);
        done.set(position, true);
        core::mem::swap(&mut self.done, &mut done);
        self.completed = completed;
        let mut slot: Option<ArchiveWriter> = Some(writer);
        core::mem::swap(&mut self.writer, &mut slot);
        Ok(Progress { completed, total })
    }

    /// Closes the archive and hands out its bytes. There is no archive if the
    /// job has failed or photos are missing; whether the archive closes is for
    /// the zip writer to say.
    pub fn finish(self) -> (r: Result<Vec<u8>, ArchiveError>)
        ensures
            match self@.closing() {
                Ok(bytes) => r matches Ok(archive) && archive@ == bytes,
                Err(e) => r == Err::<Vec<u8>, ArchiveError>(e),
            },
    {
        proof {
            use_type_invariant(&self);
        }
        let total: usize = self.selection.len();
        let completed: usize = self.completed;
        match self.writer {
            None => Err(ArchiveError::Aborted),
            Some(writer) => {
                if completed != total {
                    Err(ArchiveError::Incomplete { completed, total })
                } else {
                    match zip_finish(writer) {
                        Ok(bytes) => Ok(bytes),
                        Err(_) => Err(ArchiveError::Packaging),
                    }
                }
            },
        }
    }
}

/// The end of one fetch.
#[derive(Debug)]
pub enum Arrival {
    /// The bytes of the photo at the position.
    Fetched { position: usize, data: Vec<u8> },
    /// The photo at the position could not be fetched.
    Failed { position: usize },
}

impl View for Arrival {
    type V = (usize, Option<Seq<u8>>);

    /// The position, and the data if the fetch succeeded.
    open spec fn view(&self) -> (usize, Option<Seq<u8>>) {
        match self {
            Arrival::Fetched { position, data } => (*position, Some(data@)),
            Arrival::Failed { position } => (*position, None),
        }
    }
}

/// The arrivals of a sequence as pairs of position and data.
pub open spec fn arrival_views(arrivals: Seq<Arrival>) -> Seq<(usize, Option<Seq<u8>>)> {
    arrivals.map_values(|a: Arrival| a@)
}

impl JobView {
    /// The job after one arrival, or the error that the arrival ends in: a
    /// failed fetch, a photo that the job does not wait for, or an entry that
    /// the zip writer does not take.
    pub open spec fn after(self, arrival: (usize, Option<Seq<u8>>)) -> Result<JobView, ArchiveError> {
        match arrival.1 {
            None => Err(ArchiveError::FetchFailed { position: arrival.0 }),
            Some(data) => match self.admits(arrival.0) {
                Ok(name) => if takes_entry(self.entries, name, data) {
                    Ok(self.with_entry(arrival.0 as int, name, data))
                } else {
                    Err(ArchiveError::Packaging)
                },
                Err(e) => Err(e),
            },
        }
    }

    /// The job after a sequence of arrivals, or the first error among them.
    pub open spec fn after_all(self, arrivals: Seq<(usize, Option<Seq<u8>>)>) -> Result<
        JobView,
        ArchiveError,
    >
        decreases arrivals.len(),
    {
        if arrivals.len() == 0 {
            Ok(self)
        } else {
            match self.after_all(arrivals.drop_last()) {
                Ok(job) => job.after(arrivals.last()),
                Err(e) => Err(e),
            }
        }
    }
}

/// What a run on a selection and its arrivals gives: the bytes of the archive,
/// or the error; the first that an arrival ends in, else what finishing the
/// job gives.
pub open spec fn planned(
    selection: Seq<(i64, Seq<char>)>,
    arrivals: Seq<(usize, Option<Seq<u8>>)>,
) -> Result<Seq<u8>, ArchiveError> {
    match JobView::fresh(selection).after_all(arrivals) {
        Err(e) => Err(e),
        Ok(job) => job.closing(),
    }
}

/// How many of the arrivals a job takes before the first error.
pub open spec fn taken(job: JobView, arrivals: Seq<(usize, Option<Seq<u8>>)>) -> nat
    decreases arrivals.len(),
{
    if arrivals.len() == 0 {
        0
    } else if job.after_all(arrivals) is Ok {
        arrivals.len()
    } else {
        taken(job, arrivals.drop_last())
    }
}

/// The reports of a job up to `upto` photos: `0 / total`, `1 / total`, and so
/// on.
pub open spec fn reports(upto: nat, total: usize) -> Seq<Progress> {
    Seq::new(upto + 1, |i: int| Progress { completed: i as usize, total })
}

/// An error among the first arrivals is the error of them all.
proof fn lemma_error_sticks(job: JobView, arrivals: Seq<(usize, Option<Seq<u8>>)>, k: int)
    requires
        0 <= k <= arrivals.len(),
        job.after_all(arrivals.subrange(0, k)) is Err,
    ensures
        job.after_all(arrivals) == job.after_all(arrivals.subrange(0, k)),
    decreases arrivals.len() - k,
{
    if k < arrivals.len() {
        assert(arrivals.subrange(0, k + 1).drop_last() =~= arrivals.subrange(0, k));
        lemma_error_sticks(job, arrivals, k + 1);
    } else {
        assert(arrivals.subrange(0, k) =~= arrivals);
    }
}

/// The first `k` arrivals are taken and the next one, if there is one, ends in
/// an error: then `k` arrivals are taken.
proof fn lemma_taken(job: JobView, arrivals: Seq<(usize, Option<Seq<u8>>)>, k: int)
    requires
        0 <= k <= arrivals.len(),
        job.after_all(arrivals.subrange(0, k)) is Ok,
        k < arrivals.len() ==> job.after_all(arrivals.subrange(0, k + 1)) is Err,
    ensures
        taken(job, arrivals) == k,
    decreases arrivals.len() - k,
{
    if k == arrivals.len() {
        assert(arrivals.subrange(0, k) =~= arrivals);
    } else {
        lemma_error_sticks(job, arrivals, k + 1);
        let rest = arrivals.drop_last();
        assert(rest.subrange(0, k) =~= arrivals.subrange(0, k));
        if k < rest.len() {
            assert(rest.subrange(0, k + 1) =~= arrivals.subrange(0, k + 1));
        }
        lemma_taken(job, rest, k);
    }
}

/// What a run hands back.
#[derive(Debug)]
pub struct Outcome {
    /// The bytes of the archive, or why there is none.
    pub archive: Result<Vec<u8>, ArchiveError>,
    /// The reports made, the first of them before any arrival.
    pub progress: Vec<Progress>,
}

/// Packages a selection from the arrivals of its fetches, taken in the order
/// given.
///
/// The archive holds one entry for each arrival, in that order. There is no
/// archive if a fetch failed, if an arrival is not one the job waits for, if
/// photos are missing when the arrivals end, or if the zip writer does not
/// take an entry or does not close. One report is made before the first
/// arrival and one for each arrival taken.
pub fn run(selection: Vec<PhotoRecord>, arrivals: &Vec<Arrival>) -> (out: Outcome)
    ensures
        match planned(views(selection@), arrival_views(arrivals@)) {
            Ok(bytes) => out.archive matches Ok(archive) && archive@ == bytes,
            Err(e) => out.archive == Err::<Vec<u8>, ArchiveError>(e),
        },
        out.progress@ == reports(
            taken(JobView::fresh(views(selection@)), arrival_views(arrivals@)),
            selection@.len() as usize,
        ),
{
    let ghost chosen = views(selection@);
    let ghost events = arrival_views(arrivals@);
    let ghost fresh = JobView::fresh(chosen);
    let total: usize = selection.len();
    let (mut job, first) = ArchiveJob::start(selection);
    let mut progress: Vec<Progress> = Vec::new();
    progress.push(first);
    assert(progress@ =~= reports(0, total));
    assert(events.subrange(0, 0) =~= Seq::<(usize, Option<Seq<u8>>)>::empty());
    let mut i: usize = 0;
    while i < arrivals.len()
        invariant
            i <= arrivals@.len(),
            events == arrival_views(arrivals@),
            chosen == views(selection@),
            fresh == JobView::fresh(chosen),
            total == chosen.len(),
            fresh.after_all(events.subrange(0, i as int)) == Ok::<JobView, ArchiveError>(job@),
            job@.selection == chosen,
            job@.completed() == i,
            progress@ == reports(i as nat, total),
        decreases arrivals@.len() - i,
    {
        proof {
            assert(events.subrange(0, i + 1).drop_last() =~= events.subrange(0, i as int));
            assert(events.subrange(0, i + 1).last() == arrivals@[i as int]@);
        }
        let step: Result<Progress, ArchiveError> = match &arrivals[i] {
            Arrival::Failed { position } => Err(job.fetch_failed(*position)),
            Arrival::Fetched { position, data } => job.fetched(*position, data.as_slice()),
        };
        match step {
            Ok(report) => {
                progress.push(report);
                assert(progress@ =~= reports((i + 1) as nat, total));
            },
            Err(e) => {
                proof {
                    lemma_error_sticks(fresh, events, i + 1);
                    lemma_taken(fresh, events, i as int);
                }
                return Outcome { archive: Err(e), progress };
            },
        }
        i = i + 1;
    }
    proof {
        assert(events.subrange(0, i as int) =~= events);
        lemma_taken(fresh, events, i as int);
    }
    match job.finish() {
        Ok(bytes) => Outcome { archive: Ok(bytes), progress },
        Err(e) => Outcome { archive: Err(e), progress },
    }
}

/// Every photo of the selection arrives, once.
pub open spec fn each_arrives_once(arrivals: Seq<(usize, Option<Seq<u8>>)>, total: nat) -> bool {
    &&& arrivals.len() == total
    &&& forall|i: int| 0 <= i < arrivals.len() ==> (#[trigger] arrivals[i]).0 < total && arrivals[i].1 is Some
    &&& forall|i: int, j: int|
        0 <= i < j < arrivals.len() ==> (#[trigger] arrivals[i]).0 != (#[trigger] arrivals[j]).0
}

/// The entry that an arrival becomes.
pub open spec fn entry_of(selection: Seq<(i64, Seq<char>)>, arrival: (usize, Option<Seq<u8>>)) -> (
    Seq<char>,
    Seq<u8>,
) {
    (entry_name(selection[arrival.0 as int].0)->0, arrival.1->0)
}

/// The entries that the arrivals become, in the order of arrival.
pub open spec fn entries_of(
    selection: Seq<(i64, Seq<char>)>,
    arrivals: Seq<(usize, Option<Seq<u8>>)>,
) -> Seq<(Seq<char>, Seq<u8>)> {
    Seq::new(arrivals.len(), |i: int| entry_of(selection, arrivals[i]))
}

/// A writer that takes the entries takes the first `k` of them, and then the
/// next.
proof fn lemma_takes_prefix(entries: Seq<(Seq<char>, Seq<u8>)>, k: int)
    requires
        takes_all(entries),
        0 <= k <= entries.len(),
    ensures
        takes_all(entries.subrange(0, k)),
        k < entries.len() ==> takes_entry(entries.subrange(0, k), entries[k].0, entries[k].1),
    decreases entries.len() - k,
{
    if k == entries.len() {
        assert(entries.subrange(0, k) =~= entries);
    } else if k == entries.len() - 1 {
        assert(entries.subrange(0, k) =~= entries.drop_last());
    } else {
        let rest = entries.drop_last();
        lemma_takes_prefix(rest, k);
        assert(rest.subrange(0, k) =~= entries.subrange(0, k));
    }
}

/// While photos arrive once each and the writer takes their entries, the job
/// goes on: it has one entry for each arrival so far, and waits for the photos
/// that have not arrived.
proof fn lemma_arrivals_so_far(
    selection: Seq<(i64, Seq<char>)>,
    arrivals: Seq<(usize, Option<Seq<u8>>)>,
    k: int,
)
    requires
        forall|p: int| 0 <= p < selection.len() ==> entry_name((#[trigger] selection[p]).0) is Some,
        each_arrives_once(arrivals, selection.len()),
        takes_all(entries_of(selection, arrivals)),
        0 <= k <= arrivals.len(),
    ensures
        JobView::fresh(selection).after_all(arrivals.subrange(0, k)) matches Ok(job) && {
            &&& job.selection == selection
            &&& !job.failed
            &&& job.done.len() == selection.len()
            &&& job.entries == entries_of(selection, arrivals).subrange(0, k)
            &&& forall|p: int|
                0 <= p < selection.len() ==> (#[trigger] job.done[p] <==> exists|i: int|
                    0 <= i < k && (#[trigger] arrivals[i]).0 == p)
        },
    decreases k,
{
    let fresh = JobView::fresh(selection);
    let all = entries_of(selection, arrivals);
    if k > 0 {
        lemma_arrivals_so_far(selection, arrivals, k - 1);
        lemma_takes_prefix(all, k - 1);
        let before = fresh.after_all(arrivals.subrange(0, k - 1))->Ok_0;
        let arrival = arrivals[k - 1];
        assert(arrivals.subrange(0, k).drop_last() =~= arrivals.subrange(0, k - 1));
        assert(arrivals.subrange(0, k).last() == arrival);
        let p = arrival.0 as int;
        assert(!before.done[p]) by {
            if before.done[p] {
                let i = choose|i: int| 0 <= i < k - 1 && (#[trigger] arrivals[i]).0 == p;
                assert(arrivals[i].0 != arrivals[k - 1].0);
            }
        }
        assert(all[k - 1] == entry_of(selection, arrival));
        let job = before.with_entry(p, entry_name(selection[p].0)->0, arrival.1->0);
        assert(before.after(arrival) == Ok::<JobView, ArchiveError>(job));
        assert(job.entries =~= all.subrange(0, k));
        assert forall|q: int| 0 <= q < selection.len() implies (#[trigger] job.done[q] <==> exists|
            i: int,
        | 0 <= i < k && (#[trigger] arrivals[i]).0 == q) by {
            if q == p {
                assert(arrivals[k - 1].0 == q);
            } else if before.done[q] {
                let i = choose|i: int| 0 <= i < k - 1 && (#[trigger] arrivals[i]).0 == q;
                assert(0 <= i < k && arrivals[i].0 == q);
            } else if exists|i: int| 0 <= i < k && (#[trigger] arrivals[i]).0 == q {
                let i = choose|i: int| 0 <= i < k && (#[trigger] arrivals[i]).0 == q;
                assert(i < k - 1);
            }
        }
    } else {
        assert(arrivals.subrange(0, 0) =~= Seq::<(usize, Option<Seq<u8>>)>::empty());
        assert(fresh.entries =~= all.subrange(0, 0));
    }
}

/// Where every photo of the selection arrives, once, and the zip writer takes
/// the entries and closes, the run gives the archive of one entry for each
/// photo, named after its capture time and in the order of arrival, and makes
/// a report for each of them: the last one is `N / N`.
pub proof fn lemma_all_fetched(
    selection: Seq<(i64, Seq<char>)>,
    arrivals: Seq<(usize, Option<Seq<u8>>)>,
)
    requires
        forall|p: int| 0 <= p < selection.len() ==> entry_name((#[trigger] selection[p]).0) is Some,
        each_arrives_once(arrivals, selection.len()),
        takes_all(entries_of(selection, arrivals)),
        zip_encoding(entries_of(selection, arrivals)) is Some,
    ensures
        planned(selection, arrivals) == zip_encoded(entries_of(selection, arrivals)),
        entries_of(selection, arrivals).len() == selection.len(),
        taken(JobView::fresh(selection), arrivals) == selection.len(),
{
    lemma_arrivals_so_far(selection, arrivals, arrivals.len() as int);
    assert(arrivals.subrange(0, arrivals.len() as int) =~= arrivals);
    let all = entries_of(selection, arrivals);
    assert(all.subrange(0, arrivals.len() as int) =~= all);
    lemma_taken(JobView::fresh(selection), arrivals, arrivals.len() as int);
}

/// The bytes of the archive of the entries, as the result of a run.
pub open spec fn zip_encoded(entries: Seq<(Seq<char>, Seq<u8>)>) -> Result<Seq<u8>, ArchiveError> {
    match zip_encoding(entries) {
        Some(bytes) => Ok(bytes),
        None => Err(ArchiveError::Packaging),
    }
}

/// Every photo that is selected from an index has a name for its entry.
pub proof fn lemma_selection_is_named(
    selection: Seq<(i64, Seq<char>)>,
    photos: Map<i64, Seq<char>>,
)
    requires
        dated(photos),
        lists(selection, photos),
    ensures
        forall|p: int| 0 <= p < selection.len() ==> entry_name((#[trigger] selection[p]).0) is Some,
{
    assert forall|p: int| 0 <= p < selection.len() implies entry_name(
        (#[trigger] selection[p]).0,
    ) is Some by {
        assert(photos.contains_pair(selection[p].0, selection[p].1));
    }
}

/// Where one fetch fails there is no archive, whatever the zip writer does.
pub proof fn lemma_failure_fails(
    selection: Seq<(i64, Seq<char>)>,
    arrivals: Seq<(usize, Option<Seq<u8>>)>,
    k: int,
)
    requires
        0 <= k < arrivals.len(),
        arrivals[k].1 is None,
    ensures
        planned(selection, arrivals) is Err,
{
    let fresh = JobView::fresh(selection);
    assert(arrivals.subrange(0, k + 1).drop_last() =~= arrivals.subrange(0, k));
    assert(arrivals.subrange(0, k + 1).last() == arrivals[k]);
    lemma_error_sticks(fresh, arrivals, k + 1);
}

/// The reports of a job count up by one from `0 / total`, and the last one is
/// `upto / total`.
pub proof fn lemma_reports(upto: nat, total: usize)
    requires
        upto <= total,
    ensures
        reports(upto, total).len() == upto + 1,
        reports(upto, total).first() == (Progress { completed: 0, total }),
        reports(upto, total).last() == (Progress { completed: upto as usize, total }),
        forall|i: int|
            0 <= i < upto ==> (#[trigger] reports(upto, total)[i]).completed + 1 == reports(
                upto,
                total,
            )[i + 1].completed,
        forall|i: int| 0 <= i <= upto ==> (#[trigger] reports(upto, total)[i]).total == total,
{
}

} // verus!
