//! The job dispatcher's bookkeeping: a fixed table of worker slots, a FIFO
//! queue of jobs waiting for an idle worker, and a result table indexed by
//! submission order. The threads and channels that carry jobs and results
//! live outside the library; every scheduling decision is taken here.

use vstd::prelude::*;

verus! {

/// What the dispatcher decides when a job is submitted.
pub enum SubmitOutcome<T> {
    /// An idle worker takes the job at once.
    Assigned { worker: usize, id: usize, data: T },
    /// Every worker is busy; the job waits in the queue.
    Queued { id: usize },
}

/// The dispatcher's whole state. A job's id is its submission index; the
/// result table has one slot per submitted job, filled when the job
/// completes, and every unfilled slot's job is either queued or on a
/// worker.
pub struct Dispatcher<T, U> {
    /// Per worker: the id of the job it runs, or nothing when idle.
    pub workers: Vec<Option<usize>>,
    /// Jobs waiting for a worker, oldest first.
    pub queue: Vec<(usize, T)>,
    /// One slot per submitted job, indexed by id.
    pub results: Vec<Option<U>>,
    /// Whether no more submissions are coming.
    pub finishing: bool,
}

impl<T, U> Dispatcher<T, U> {
    /// The queue holds ids of submitted, unfinished jobs, in submission
    /// order.
    pub open spec fn queue_wf(self) -> bool {
        &&& forall|i: int|
            0 <= i < self.queue@.len() ==> (#[trigger] self.queue@[i]).0 < self.results@.len()
                && self.results@[self.queue@[i].0 as int] is None
        &&& forall|i: int, j: int|
            0 <= i < j < self.queue@.len() ==> (#[trigger] self.queue@[i]).0 < (
            #[trigger] self.queue@[j]).0
    }

    /// Busy workers run submitted, unfinished jobs, no two the same one.
    pub open spec fn workers_wf(self) -> bool {
        &&& forall|w: int|
            0 <= w < self.workers@.len() && self.workers@[w] is Some ==> (
            #[trigger] self.workers@[w])->0 < self.results@.len()
                && self.results@[self.workers@[w]->0 as int] is None
        &&& forall|w1: int, w2: int|
            0 <= w1 < w2 < self.workers@.len() && self.workers@[w1] is Some && self.workers@[w2]
                is Some ==> (#[trigger] self.workers@[w1])->0 != (#[trigger] self.workers@[w2])->0
    }

    /// No job is both queued and on a worker.
    pub open spec fn disjoint_wf(self) -> bool {
        forall|i: int, w: int|
            0 <= i < self.queue@.len() && 0 <= w < self.workers@.len() && self.workers@[w] is Some
                ==> (#[trigger] self.queue@[i]).0 != (#[trigger] self.workers@[w])->0
    }

    /// Every submitted job without a result is queued or on a worker.
    pub open spec fn complete_wf(self) -> bool {
        forall|id: int|
            0 <= id < self.results@.len() && self.results@[id] is None ==> (exists|i: int|
                0 <= i < self.queue@.len() && (#[trigger] self.queue@[i]).0 == id) || (exists|
                w: int,
            |
                0 <= w < self.workers@.len() && self.workers@[w] is Some && (
                #[trigger] self.workers@[w])->0 == id)
    }

    /// Jobs wait in the queue only while every worker is busy.
    pub open spec fn busy_wf(self) -> bool {
        self.queue@.len() > 0 ==> forall|w: int|
            0 <= w < self.workers@.len() ==> (#[trigger] self.workers@[w]) is Some
    }

    /// The dispatcher's invariant: every constructor and step keeps it.
    pub open spec fn inv(self) -> bool {
        &&& self.queue_wf()
        &&& self.workers_wf()
        &&& self.disjoint_wf()
        &&& self.complete_wf()
        &&& self.busy_wf()
    }

    /// A dispatcher with `n_workers` idle workers and nothing submitted.
    pub fn new(n_workers: usize) -> (d: Self)
        ensures
            d.inv(),
            d.workers@.len() == n_workers,
            forall|w: int| 0 <= w < n_workers ==> (#[trigger] d.workers@[w]) is None,
            d.queue@.len() == 0,
            d.results@.len() == 0,
            !d.finishing,
    {
        let mut workers: Vec<Option<usize>> = Vec::new();
        let mut i: usize = 0;
        while i < n_workers
            invariant
                0 <= i <= n_workers,
                workers@.len() == i,
                forall|w: int| 0 <= w < i ==> (#[trigger] workers@[w]) is None,
            decreases n_workers - i,
        {
            workers.push(None);
            i = i + 1;
        }
        Dispatcher { workers, queue: Vec::new(), results: Vec::new(), finishing: false }
    }

    /// The number of jobs submitted so far.
    pub fn n_jobs(&self) -> (r: usize)
        ensures
            r == self.results@.len(),
    {
        self.results.len()
    }

    /// Takes one submission. The job's id is its submission index. If some
    /// worker is idle the job is assigned to the first such worker at once;
    /// otherwise it joins the queue. Either way the result table grows by
    /// one empty slot at the job's id.
    pub fn submit(&mut self, data: T) -> (r: SubmitOutcome<T>)
        requires
            old(self).inv(),
            !old(self).finishing,
            old(self).results@.len() < usize::MAX,
        ensures
            final(self).inv(),
            final(self).finishing == old(self).finishing,
            final(self).results@ == old(self).results@.push(None),
            final(self).workers@.len() == old(self).workers@.len(),
            match r {
                SubmitOutcome::Assigned { worker, id, data: d } => {
                    &&& id == old(self).results@.len()
                    &&& worker < old(self).workers@.len()
                    &&& old(self).workers@[worker as int] is None
                    &&& final(self).workers@ == old(self).workers@.update(
                        worker as int,
                        Some(id),
                    )
                    &&& final(self).queue@ == old(self).queue@
                    &&& d == data
                },
                SubmitOutcome::Queued { id } => {
                    &&& id == old(self).results@.len()
                    &&& final(self).workers@ == old(self).workers@
                    &&& final(self).queue@ == old(self).queue@.push((id, data))
                },
            },
    {
        let id = self.results.len();
        self.results.push(None);
        let n = self.workers.len();
        let mut w: usize = 0;
        while w < n
            invariant
                0 <= w <= n == self.workers@.len(),
                forall|j: int| 0 <= j < w ==> (#[trigger] self.workers@[j]) is Some,
                old(self).inv(),
                id == old(self).results@.len(),
                self.results@ == old(self).results@.push(None),
                self.queue@ == old(self).queue@,
                self.workers@ == old(self).workers@,
                self.finishing == old(self).finishing,
            decreases n - w,
        {
            if self.workers[w].is_none() {
                self.workers[w] = Some(id);
                proof {
                    let new = *self;
                    let prev = *old(self);
                    assert(new.results@ == prev.results@.push(None));
                    assert forall|i: int|
                        0 <= i < new.queue@.len() implies (#[trigger] new.queue@[i]).0
                        < new.results@.len() && new.results@[new.queue@[i].0 as int] is None by {
                        assert(prev.queue@[i].0 < prev.results@.len());
                    }
                    assert forall|ww: int|
                        0 <= ww < new.workers@.len() && new.workers@[ww] is Some implies (
                    #[trigger] new.workers@[ww])->0 < new.results@.len()
                        && new.results@[new.workers@[ww]->0 as int] is None by {
                        if ww != w {
                            assert(new.workers@[ww] == prev.workers@[ww]);
                        }
                    }
                    assert(new.queue@.len() == 0) by {
                        if prev.queue@.len() > 0 {
                            assert(prev.workers@[w as int] is Some);
                        }
                    }
                    assert forall|w1: int, w2: int|
                        0 <= w1 < w2 < new.workers@.len() && new.workers@[w1] is Some
                        && new.workers@[w2] is Some implies (#[trigger] new.workers@[w1])->0 != (
                    #[trigger] new.workers@[w2])->0 by {
                        if w1 == w as int {
                            assert(prev.workers@[w2] is Some && prev.workers@[w2]->0
                                < prev.results@.len());
                        } else if w2 == w as int {
                            assert(prev.workers@[w1] is Some && prev.workers@[w1]->0
                                < prev.results@.len());
                        }
                    }
                    assert forall|jid: int|
                        0 <= jid < new.results@.len() && new.results@[jid] is None implies (exists|
                            i: int,
                        |
                            0 <= i < new.queue@.len() && (#[trigger] new.queue@[i]).0 == jid) || (
                        exists|ww: int|
                            0 <= ww < new.workers@.len() && new.workers@[ww] is Some && (
                            #[trigger] new.workers@[ww])->0 == jid) by {
                        if jid == id {
                            assert(new.workers@[w as int] is Some && new.workers@[w as int]->0
                                == jid);
                        } else {
                            assert(prev.results@[jid] is None);
                            let ww = choose|ww: int|
                                0 <= ww < prev.workers@.len() && prev.workers@[ww] is Some && (
                                #[trigger] prev.workers@[ww])->0 == jid;
                            assert(ww != w as int);
                            assert(new.workers@[ww] is Some && new.workers@[ww]->0 == jid);
                        }
                    }
                    assert(new.inv());
                }
                return SubmitOutcome::Assigned { worker: w, id, data };
            }
            w = w + 1;
        }
        self.queue.push((id, data));
        proof {
            let new = *self;
            let prev = *old(self);
            assert forall|i: int|
                0 <= i < new.queue@.len() implies (#[trigger] new.queue@[i]).0 < new.results@.len()
                && new.results@[new.queue@[i].0 as int] is None by {
                if i < prev.queue@.len() {
                    assert(prev.queue@[i].0 < prev.results@.len());
                } else {
                    assert(new.queue@[i] == (id, data));
                }
            }
            assert forall|i: int, j: int|
                0 <= i < j < new.queue@.len() implies (#[trigger] new.queue@[i]).0 < (
            #[trigger] new.queue@[j]).0 by {
                if j < prev.queue@.len() {
                } else {
                    assert(new.queue@[j].0 == id);
                    if i < prev.queue@.len() {
                        assert(prev.queue@[i].0 < prev.results@.len());
                    }
                }
            }
            assert forall|ww: int|
                0 <= ww < new.workers@.len() && new.workers@[ww] is Some implies (
            #[trigger] new.workers@[ww])->0 < new.results@.len()
                && new.results@[new.workers@[ww]->0 as int] is None by {
                assert(prev.workers@[ww] is Some && prev.workers@[ww]->0 < prev.results@.len());
            }
            assert forall|i: int, ww: int|
                0 <= i < new.queue@.len() && 0 <= ww < new.workers@.len() && new.workers@[ww]
                    is Some implies (#[trigger] new.queue@[i]).0 != (
            #[trigger] new.workers@[ww])->0 by {
                assert(prev.workers@[ww]->0 < prev.results@.len());
                if i < prev.queue@.len() {
                } else {
                    assert(new.queue@[i].0 == id);
                }
            }
            assert forall|jid: int|
                0 <= jid < new.results@.len() && new.results@[jid] is None implies (exists|i: int|
                    0 <= i < new.queue@.len() && (#[trigger] new.queue@[i]).0 == jid) || (exists|
                    ww: int,
                |
                    0 <= ww < new.workers@.len() && new.workers@[ww] is Some && (
                    #[trigger] new.workers@[ww])->0 == jid) by {
                if jid == id {
                    assert(new.queue@[new.queue@.len() - 1].0 == jid);
                } else {
                    assert(prev.results@[jid] is None);
                    if exists|i: int|
                        0 <= i < prev.queue@.len() && (#[trigger] prev.queue@[i]).0 == jid {
                        let i = choose|i: int|
                            0 <= i < prev.queue@.len() && (#[trigger] prev.queue@[i]).0 == jid;
                        assert(new.queue@[i].0 == jid);
                    } else {
                        let ww = choose|ww: int|
                            0 <= ww < prev.workers@.len() && prev.workers@[ww] is Some && (
                            #[trigger] prev.workers@[ww])->0 == jid;
                        assert(new.workers@[ww] is Some && new.workers@[ww]->0 == jid);
                    }
                }
            }
            assert(new.inv());
        }
        SubmitOutcome::Queued { id }
    }

    /// Notes that no more submissions are coming.
    pub fn finish(&mut self)
        requires
            old(self).inv(),
        ensures
            final(self).inv(),
            *final(self) == (Dispatcher { finishing: true, ..*old(self) }),
    {
        self.finishing = true;
    }

    /// Records the result a worker produced, at the slot of the job's own
    /// id no matter when it completes. If a job is waiting, the oldest one
    /// moves from the queue straight onto the now-free worker and is handed
    /// back to run; otherwise the worker goes idle.
    pub fn record_result(&mut self, worker: usize, result: U) -> (r: Option<(usize, T)>)
        requires
            old(self).inv(),
            worker < old(self).workers@.len(),
            old(self).workers@[worker as int] is Some,
        ensures
            final(self).inv(),
            final(self).finishing == old(self).finishing,
            final(self).workers@.len() == old(self).workers@.len(),
            final(self).results@ == old(self).results@.update(
                old(self).workers@[worker as int]->0 as int,
                Some(result),
            ),
            if old(self).queue@.len() > 0 {
                &&& r == Some((old(self).queue@[0].0, old(self).queue@[0].1))
                &&& final(self).queue@ == old(self).queue@.skip(1)
                &&& final(self).workers@ == old(self).workers@.update(
                    worker as int,
                    Some(old(self).queue@[0].0),
                )
            } else {
                &&& r is None
                &&& final(self).queue@ == old(self).queue@
                &&& final(self).workers@ == old(self).workers@.update(
                    worker as int,
                    None::<usize>,
                )
            },
    {
        let ghost prev = *old(self);
        let id = self.workers[worker].unwrap();
        self.results[id] = Some(result);
        if self.queue.len() > 0 {
            let (next_id, data) = self.queue.remove(0);
            self.workers[worker] = Some(next_id);
            proof {
                let new = *self;
                assert(new.queue@ =~= prev.queue@.skip(1));
                assert(prev.queue@[0].0 != id);
                assert forall|i: int|
                    0 <= i < new.queue@.len() implies (#[trigger] new.queue@[i]).0
                    < new.results@.len() && new.results@[new.queue@[i].0 as int] is None by {
                    assert(new.queue@[i] == prev.queue@[i + 1]);
                    assert(prev.queue@[i + 1].0 != id);
                }
                assert forall|ww: int|
                    0 <= ww < new.workers@.len() && new.workers@[ww] is Some implies (
                #[trigger] new.workers@[ww])->0 < new.results@.len()
                    && new.results@[new.workers@[ww]->0 as int] is None by {
                    if ww == w_int(worker) {
                        assert(new.workers@[ww]->0 == prev.queue@[0].0);
                    } else {
                        assert(new.workers@[ww] == prev.workers@[ww]);
                        assert(prev.workers@[ww]->0 != id) by {
                            if prev.workers@[ww]->0 == id {
                                assert(ww != w_int(worker) ==> prev.workers@[ww]->0
                                    != prev.workers@[w_int(worker)]->0);
                            }
                        }
                    }
                }
                assert forall|w1: int, w2: int|
                    0 <= w1 < w2 < new.workers@.len() && new.workers@[w1] is Some
                    && new.workers@[w2] is Some implies (#[trigger] new.workers@[w1])->0 != (
                #[trigger] new.workers@[w2])->0 by {
                    if w1 == w_int(worker) {
                        assert(prev.queue@[0].0 != prev.workers@[w2]->0);
                    } else if w2 == w_int(worker) {
                        assert(prev.queue@[0].0 != prev.workers@[w1]->0);
                    }
                }
                assert forall|i: int, ww: int|
                    0 <= i < new.queue@.len() && 0 <= ww < new.workers@.len() && new.workers@[ww]
                        is Some implies (#[trigger] new.queue@[i]).0 != (
                #[trigger] new.workers@[ww])->0 by {
                    assert(new.queue@[i] == prev.queue@[i + 1]);
                    if ww == w_int(worker) {
                        assert(prev.queue@[i + 1].0 != prev.queue@[0].0);
                    }
                }
                assert forall|jid: int|
                    0 <= jid < new.results@.len() && new.results@[jid] is None implies (exists|
                        i: int,
                    |
                        0 <= i < new.queue@.len() && (#[trigger] new.queue@[i]).0 == jid) || (
                    exists|ww: int|
                        0 <= ww < new.workers@.len() && new.workers@[ww] is Some && (
                        #[trigger] new.workers@[ww])->0 == jid) by {
                    assert(prev.results@[jid] is None);
                    if jid == prev.queue@[0].0 {
                        assert(new.workers@[w_int(worker)] is Some && new.workers@[w_int(
                            worker,
                        )]->0 == jid);
                    } else if exists|i: int|
                        0 <= i < prev.queue@.len() && (#[trigger] prev.queue@[i]).0 == jid {
                        let i = choose|i: int|
                            0 <= i < prev.queue@.len() && (#[trigger] prev.queue@[i]).0 == jid;
                        assert(i != 0);
                        assert(new.queue@[i - 1].0 == jid);
                    } else {
                        let ww = choose|ww: int|
                            0 <= ww < prev.workers@.len() && prev.workers@[ww] is Some && (
                            #[trigger] prev.workers@[ww])->0 == jid;
                        assert(ww != w_int(worker));
                        assert(new.workers@[ww] is Some && new.workers@[ww]->0 == jid);
                    }
                }
                assert(new.inv());
            }
            Some((next_id, data))
        } else {
            self.workers[worker] = None;
            proof {
                let new = *self;
                assert forall|ww: int|
                    0 <= ww < new.workers@.len() && new.workers@[ww] is Some implies (
                #[trigger] new.workers@[ww])->0 < new.results@.len()
                    && new.results@[new.workers@[ww]->0 as int] is None by {
                    assert(new.workers@[ww] == prev.workers@[ww]);
                    assert(prev.workers@[ww]->0 != id);
                }
                assert forall|jid: int|
                    0 <= jid < new.results@.len() && new.results@[jid] is None implies (exists|
                        i: int,
                    |
                        0 <= i < new.queue@.len() && (#[trigger] new.queue@[i]).0 == jid) || (
                    exists|ww: int|
                        0 <= ww < new.workers@.len() && new.workers@[ww] is Some && (
                        #[trigger] new.workers@[ww])->0 == jid) by {
                    assert(prev.results@[jid] is None);
                    assert(jid != id);
                    let ww = choose|ww: int|
                        0 <= ww < prev.workers@.len() && prev.workers@[ww] is Some && (
                        #[trigger] prev.workers@[ww])->0 == jid;
                    assert(ww != w_int(worker));
                    assert(new.workers@[ww] is Some && new.workers@[ww]->0 == jid);
                }
                assert(new.inv());
            }
            None
        }
    }

    /// Whether the dispatcher may stop: no more submissions are coming,
    /// nothing waits in the queue, and no job is on a worker.
    pub fn is_drained(&self) -> (r: bool)
        ensures
            r == (self.finishing && self.queue@.len() == 0 && (forall|w: int|
                0 <= w < self.workers@.len() ==> (#[trigger] self.workers@[w]) is None)),
    {
        if !self.finishing {
            return false;
        }
        if self.queue.len() > 0 {
            return false;
        }
        let n = self.workers.len();
        let mut w: usize = 0;
        while w < n
            invariant
                0 <= w <= n == self.workers@.len(),
                forall|j: int| 0 <= j < w ==> (#[trigger] self.workers@[j]) is None,
                self.finishing,
                self.queue@.len() == 0,
            decreases n - w,
        {
            if self.workers[w].is_some() {
                return false;
            }
            w = w + 1;
        }
        true
    }

    /// Hands out the results, one per submitted job, each at the index of
    /// its submission id. With nothing queued and every worker idle, the
    /// invariant says every slot is filled.
    pub fn drain(self) -> (r: Vec<U>)
        requires
            self.inv(),
            self.queue@.len() == 0,
            forall|w: int| 0 <= w < self.workers@.len() ==> (#[trigger] self.workers@[w]) is None,
        ensures
            r@.len() == self.results@.len(),
            forall|id: int|
                0 <= id < r@.len() ==> self.results@[id] == Some(#[trigger] r@[id]),
    {
        proof {
            assert forall|id: int|
                0 <= id < self.results@.len() implies (#[trigger] self.results@[id]) is Some by {
                if self.results@[id] is None {
                    assert(false);
                }
            }
        }
        let Dispatcher { workers: _, queue: _, mut results, finishing: _ } = self;
        let ghost all = results@;
        let mut out: Vec<U> = Vec::new();
        while results.len() > 0
            invariant
                out@.len() + results@.len() == all.len(),
                results@ =~= all.skip(out@.len() as int),
                forall|id: int| 0 <= id < all.len() ==> (#[trigger] all[id]) is Some,
                forall|id: int| 0 <= id < out@.len() ==> all[id] == Some(#[trigger] out@[id]),
            decreases results@.len(),
        {
            let v = results.remove(0);
            proof {
                assert(all.skip(out@.len() as int)[0] == all[out@.len() as int]);
                assert(all.skip(out@.len() as int).skip(1) =~= all.skip(out@.len() as int + 1));
            }
            match v {
                Some(u) => {
                    out.push(u);
                },
                None => {
                    proof {
                        assert(false);
                    }
                },
            }
        }
        out
    }
}

/// The worker index as a mathematical integer.
spec fn w_int(w: usize) -> int {
    w as int
}

/// A progress event the dispatcher emits: a job was put on a worker, or a
/// job completed.
pub enum Update {
    Started(usize, String),
    Finished(usize),
}

/// What a status poll reports: the names now in flight, or that nothing
/// changed.
pub enum UpdatedStatus {
    Changed(Vec<String>),
    Unchanged,
}

/// How far the pool has come, measured in jobs sent and finished.
#[derive(Clone, Copy, Debug, PartialEq, Eq, Structural)]
pub enum FinishStatus {
    NotStarted,
    Working,
    Finished,
}

/// Something that can say its display name.
pub trait Name {
    fn name(&self) -> String;
}

/// The in-flight entries left when a finished job's id is dropped.
pub open spec fn keep_others(st: Seq<(usize, String)>, id: usize) -> Seq<(usize, String)>
    decreases st.len(),
{
    if st.len() == 0 {
        Seq::empty()
    } else {
        let rest = keep_others(st.drop_last(), id);
        if st.last().0 == id {
            rest
        } else {
            rest.push(st.last())
        }
    }
}

/// One progress event applied to the in-flight list.
pub open spec fn apply_update(st: Seq<(usize, String)>, u: Update) -> Seq<(usize, String)> {
    match u {
        Update::Started(id, name) => st.push((id, name)),
        Update::Finished(id) => keep_others(st, id),
    }
}

/// A run of progress events applied in order.
pub open spec fn apply_updates(st: Seq<(usize, String)>, us: Seq<Update>) -> Seq<(usize, String)>
    decreases us.len(),
{
    if us.len() == 0 {
        st
    } else {
        apply_updates(apply_update(st, us[0]), us.skip(1))
    }
}

/// How many of the events report a completion.
pub open spec fn finished_count(us: Seq<Update>) -> int
    decreases us.len(),
{
    if us.len() == 0 {
        0int
    } else {
        (match us[0] {
            Update::Finished(_) => 1int,
            Update::Started(_, _) => 0int,
        }) + finished_count(us.skip(1))
    }
}

proof fn lemma_finished_count_bound(us: Seq<Update>)
    ensures
        0 <= finished_count(us) <= us.len(),
    decreases us.len(),
{
    if us.len() > 0 {
        lemma_finished_count_bound(us.skip(1));
    }
}

/// The pool's progress ledger: which jobs are in flight right now, how many
/// were sent, and how many came back.
pub struct StatusTracker {
    /// The id and display name of each job now on a worker.
    pub status: Vec<(usize, String)>,
    pub n_finished: usize,
    pub n_sent: usize,
}

impl StatusTracker {
    pub fn new() -> (t: Self)
        ensures
            t.status@.len() == 0,
            t.n_finished == 0,
            t.n_sent == 0,
    {
        StatusTracker { status: Vec::new(), n_finished: 0, n_sent: 0 }
    }

    /// Counts one submission.
    pub fn note_sent(&mut self)
        requires
            old(self).n_sent < usize::MAX,
        ensures
            *final(self) == (StatusTracker { n_sent: (old(self).n_sent + 1) as usize, ..*old(
                self,
            ) }),
    {
        self.n_sent = self.n_sent + 1;
    }

    /// Applies a batch of progress events in order: a started job joins the
    /// in-flight list, a finished one leaves it and is counted. Reports the
    /// in-flight names exactly when at least one event arrived.
    pub fn update_status(&mut self, updates: Vec<Update>) -> (r: UpdatedStatus)
        requires
            old(self).n_finished + finished_count(updates@) <= usize::MAX,
        ensures
            final(self).status@ == apply_updates(old(self).status@, updates@),
            final(self).n_finished == old(self).n_finished + finished_count(updates@),
            final(self).n_sent == old(self).n_sent,
            updates@.len() == 0 ==> r is Unchanged,
            updates@.len() > 0 ==> r is Changed && (r->Changed_0)@ == final(self).status@.map_values(
                |p: (usize, String)| p.1,
            ),
    {
        proof {
            lemma_finished_count_bound(updates@);
        }
        let ghost all = updates@;
        let changed = updates.len() > 0;
        let mut updates = updates;
        while updates.len() > 0
            invariant
                old(self).n_finished + finished_count(all) <= usize::MAX,
                apply_updates(old(self).status@, all) == apply_updates(self.status@, updates@),
                finished_count(all) == self.n_finished - old(self).n_finished + finished_count(
                    updates@,
                ),
                self.n_finished >= old(self).n_finished,
                self.n_sent == old(self).n_sent,
            decreases updates@.len(),
        {
            proof {
                lemma_finished_count_bound(updates@.skip(1));
                assert(updates@[0] == updates@.first());
            }
            let u = updates.remove(0);
            match u {
                Update::Started(id, name) => {
                    self.status.push((id, name));
                },
                Update::Finished(id) => {
                    self.n_finished = self.n_finished + 1;
                    self.status = remove_entries(&self.status, id);
                },
            }
        }
        proof {
            assert(apply_updates(self.status@, updates@) == self.status@);
        }
        if changed {
            let names = entry_names(&self.status);
            UpdatedStatus::Changed(names)
        } else {
            UpdatedStatus::Unchanged
        }
    }

    /// Where the pool stands: nothing sent yet, all sent jobs finished, or
    /// work still outstanding.
    pub fn is_finished(&self) -> (r: FinishStatus)
        ensures
            r == (if self.n_sent == 0 {
                FinishStatus::NotStarted
            } else if self.n_finished == self.n_sent {
                FinishStatus::Finished
            } else {
                FinishStatus::Working
            }),
    {
        if self.n_sent == 0 {
            FinishStatus::NotStarted
        } else if self.n_finished == self.n_sent {
            FinishStatus::Finished
        } else {
            FinishStatus::Working
        }
    }
}

/// Copies the in-flight entries whose id differs from the given one.
fn remove_entries(st: &Vec<(usize, String)>, id: usize) -> (r: Vec<(usize, String)>)
    ensures
        r@ == keep_others(st@, id),
{
    let mut out: Vec<(usize, String)> = Vec::new();
    let mut i: usize = 0;
    proof {
        assert(st@.take(0) =~= Seq::<(usize, String)>::empty());
    }
    while i < st.len()
        invariant
            0 <= i <= st@.len(),
            out@ == keep_others(st@.take(i as int), id),
        decreases st@.len() - i,
    {
        proof {
            assert(st@.take(i + 1).drop_last() =~= st@.take(i as int));
            assert(st@.take(i + 1).last() == st@[i as int]);
        }
        if st[i].0 != id {
            let name = st[i].1.clone();
            out.push((st[i].0, name));
            proof {
                assert((st@[i as int].0, st@[i as int].1) == st@[i as int]);
            }
        }
        i = i + 1;
    }
    proof {
        assert(st@.take(st@.len() as int) =~= st@);
    }
    out
}

/// The display names of the in-flight entries, in order.
fn entry_names(st: &Vec<(usize, String)>) -> (r: Vec<String>)
    ensures
        r@ == st@.map_values(|p: (usize, String)| p.1),
{
    let mut out: Vec<String> = Vec::new();
    let mut i: usize = 0;
    while i < st.len()
        invariant
            0 <= i <= st@.len(),
            out@ =~= st@.take(i as int).map_values(|p: (usize, String)| p.1),
        decreases st@.len() - i,
    {
        out.push(st[i].1.clone());
        proof {
            assert(st@.take(i + 1).map_values(|p: (usize, String)| p.1) =~= st@.take(
                i as int,
            ).map_values(|p: (usize, String)| p.1).push(st@[i as int].1));
        }
        i = i + 1;
    }
    proof {
        assert(st@.take(st@.len() as int) =~= st@);
    }
    out
}

/// Law: results are recorded at their job's own id, so the order in which
/// two jobs finish does not change where their results stand: recording
/// them in either order leaves the same table, and draining yields job i's
/// result at index i and job j's at index j.
pub proof fn lemma_record_order_independent<U>(
    results: Seq<Option<U>>,
    i: int,
    j: int,
    ui: U,
    uj: U,
)
    requires
        0 <= i < results.len(),
        0 <= j < results.len(),
        i != j,
    ensures
        results.update(i, Some(ui)).update(j, Some(uj)) == results.update(j, Some(uj)).update(
            i,
            Some(ui),
        ),
{
    assert(results.update(i, Some(ui)).update(j, Some(uj)) =~= results.update(j, Some(uj)).update(
        i,
        Some(ui),
    ));
}

/// Law: draining returns exactly one result per submitted job, at the index
/// of its submission id, whatever order the jobs completed in: if results
/// were recorded for jobs i < j, the drained sequence holds them at i and j.
pub proof fn lemma_drain_preserves_submission_order<U>(
    results: Seq<Option<U>>,
    out: Seq<U>,
    i: int,
    j: int,
    ui: U,
    uj: U,
)
    requires
        out.len() == results.len(),
        forall|id: int| 0 <= id < out.len() ==> results[id] == Some(#[trigger] out[id]),
        0 <= i < j < results.len(),
        results[i] == Some(ui),
        results[j] == Some(uj),
    ensures
        out[i] == ui,
        out[j] == uj,
{
}

} // verus!
