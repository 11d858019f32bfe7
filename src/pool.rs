//! The bookkeeping of a fixed pool of workers that share one queue of jobs.
//!
//! The pool decides; the threads that run the workers and the connections
//! that the jobs carry live outside it. An acceptor calls [`Pool::submit`]
//! for each connection, an idle worker calls [`Pool::take`] and is told to
//! run a job, to wait, or to exit, and calls [`Pool::finish`] when the job is
//! done. [`Pool::shutdown`] stops admission; the jobs already admitted are
//! still handed out, and workers are told to exit only once the queue is empty.
use vstd::prelude::*;

verus! {

/// A pool with its jobs: the queue holds each waiting job under the ticket
/// it was admitted with, in order of admission; `slots[w]` is the ticket that
/// worker `w` is processing, if any; `done` holds the tickets of the jobs that
/// have been processed.
pub struct PoolView<J> {
    pub size: nat,
    pub accepting: bool,
    pub next_id: nat,
    pub queue: Seq<(u64, J)>,
    pub slots: Seq<Option<u64>>,
    pub done: Set<u64>,
}

/// What an idle worker is told to do next.
pub enum Action<J> {
    /// Process this job, admitted under this ticket.
    Run(u64, J),
    /// Nothing is queued yet: wait for a submission.
    Wait,
    /// The pool is shut down and nothing is left: stop.
    Exit,
}

#[derive(PartialEq, Eq, Structural, Clone, Copy, Debug)]
pub enum PoolError {
    /// A pool needs at least one worker.
    NoWorkers,
}

#[derive(PartialEq, Eq, Structural, Clone, Copy, Debug)]
pub enum SubmitError {
    /// The pool has been shut down and admits nothing more.
    ShutDown,
    /// Every ticket has been given out.
    TicketsExhausted,
}

/// The number of workers that are processing a job.
pub open spec fn busy_count(slots: Seq<Option<u64>>) -> nat
    decreases slots.len(),
{
    if slots.len() == 0 {
        0
    } else {
        busy_count(slots.drop_last()) + if slots.last() is Some {
            1nat
        } else {
            0nat
        }
    }
}

impl<J> PoolView<J> {
    pub open spec fn is_queued(self, id: u64) -> bool {
        exists|i: int| 0 <= i < self.queue.len() && #[trigger] self.queue[i].0 == id
    }

    pub open spec fn is_running(self, id: u64) -> bool {
        exists|w: int| 0 <= w < self.slots.len() && #[trigger] self.slots[w] == Some(id)
    }

    /// Every ticket handed out stands in exactly one place: queued, with one
    /// worker, or done; the queue is in order of admission; no worker
    /// holds a ticket that another holds.
    pub open spec fn wf(self) -> bool {
        &&& self.size >= 1
        &&& self.slots.len() == self.size
        &&& self.next_id <= u64::MAX
        &&& forall|i: int| 0 <= i < self.queue.len() ==> (#[trigger] self.queue[i]).0 < self.next_id
        &&& forall|i: int, j: int|
            0 <= i < j < self.queue.len() ==> #[trigger] self.queue[i].0 < #[trigger] self.queue[j].0
        &&& forall|w: int|
            0 <= w < self.slots.len() && (#[trigger] self.slots[w]) is Some ==> self.slots[w]->0
                < self.next_id
        &&& forall|v: int, w: int|
            0 <= v < self.slots.len() && 0 <= w < self.slots.len() && v != w && (
            #[trigger] self.slots[v]) is Some ==> self.slots[v] != #[trigger] self.slots[w]
        &&& forall|id: u64| #[trigger] self.done.contains(id) ==> id < self.next_id
        &&& forall|id: u64| #[trigger] self.is_queued(id) ==> !self.is_running(id) && !self.done.contains(id)
        &&& forall|id: u64| #[trigger] self.is_running(id) ==> !self.done.contains(id)
        &&& forall|id: u64|
            id < self.next_id ==> #[trigger] self.is_queued(id) || self.is_running(id)
                || self.done.contains(id)
    }

    /// Twice the queued jobs and once the running ones: each hand-out and each
    /// completion lowers it by one.
    pub open spec fn work_left(self) -> nat {
        2 * self.queue.len() + busy_count(self.slots)
    }

    pub open spec fn submit_result(self) -> Result<u64, SubmitError> {
        if !self.accepting {
            Err(SubmitError::ShutDown)
        } else if self.next_id >= u64::MAX {
            Err(SubmitError::TicketsExhausted)
        } else {
            Ok(self.next_id as u64)
        }
    }

    pub open spec fn after_submit(self, job: J) -> PoolView<J> {
        if self.submit_result() is Ok {
            PoolView {
                queue: self.queue.push((self.next_id as u64, job)),
                next_id: self.next_id + 1,
                ..self
            }
        } else {
            self
        }
    }

    pub open spec fn take_action(self) -> Action<J> {
        if self.queue.len() > 0 {
            Action::Run(self.queue[0].0, self.queue[0].1)
        } else if self.accepting {
            Action::Wait
        } else {
            Action::Exit
        }
    }

    pub open spec fn after_take(self, w: int) -> PoolView<J> {
        if self.queue.len() > 0 {
            PoolView {
                queue: self.queue.drop_first(),
                slots: self.slots.update(w, Some(self.queue[0].0)),
                ..self
            }
        } else {
            self
        }
    }

    pub open spec fn after_finish(self, w: int) -> PoolView<J> {
        PoolView {
            slots: self.slots.update(w, None),
            done: self.done.insert(self.slots[w]->0),
            ..self
        }
    }

    pub open spec fn after_shutdown(self) -> PoolView<J> {
        PoolView { accepting: false, ..self }
    }
}

/// At most one job per worker: never more jobs in process than the slots.
pub proof fn lemma_busy_count_bound(slots: Seq<Option<u64>>)
    ensures
        busy_count(slots) <= slots.len(),
    decreases slots.len(),
{
    if slots.len() > 0 {
        lemma_busy_count_bound(slots.drop_last());
    }
}

/// A worker that changes from idle to busy adds one to the busy count, and
/// one that changes from busy to idle takes one away.
pub proof fn lemma_busy_count_update(slots: Seq<Option<u64>>, w: int, s: Option<u64>)
    requires
        0 <= w < slots.len(),
    ensures
        busy_count(slots.update(w, s)) + (if slots[w] is Some {
            1int
        } else {
            0int
        }) == busy_count(slots) + (if s is Some {
            1int
        } else {
            0int
        }),
    decreases slots.len(),
{
    let u = slots.update(w, s);
    if w == slots.len() - 1 {
        assert(u.drop_last() =~= slots.drop_last());
    } else {
        lemma_busy_count_update(slots.drop_last(), w, s);
        assert(u.drop_last() =~= slots.drop_last().update(w, s));
    }
}

/// Admission keeps every ticket in exactly one place, and the new job waits
/// at the back of the queue.
pub proof fn lemma_submit_wf<J>(v: PoolView<J>, job: J)
    requires
        v.wf(),
    ensures
        v.after_submit(job).wf(),
{
    let n = v.after_submit(job);
    if v.submit_result() is Ok {
        let t = v.next_id as u64;
        assert forall|id: u64| #[trigger] n.is_queued(id) == (v.is_queued(id) || id == t) by {
            if v.is_queued(id) {
                let i = choose|i: int| 0 <= i < v.queue.len() && #[trigger] v.queue[i].0 == id;
                assert(n.queue[i].0 == id);
            }
            if id == t {
                assert(n.queue[v.queue.len() as int].0 == id);
            }
            if n.is_queued(id) && id != t {
                let i = choose|i: int| 0 <= i < n.queue.len() && #[trigger] n.queue[i].0 == id;
                assert(v.queue[i].0 == id);
            }
        }
        assert forall|id: u64| #[trigger] n.is_running(id) == v.is_running(id) by {
        }
        assert forall|id: u64| v.is_running(id) implies id < v.next_id by {
            let w = choose|w: int| 0 <= w < v.slots.len() && #[trigger] v.slots[w] == Some(id);
            assert(v.slots[w] is Some);
        }
        assert forall|id: u64| v.is_queued(id) implies id < v.next_id by {
            let i = choose|i: int| 0 <= i < v.queue.len() && #[trigger] v.queue[i].0 == id;
            assert(v.queue[i].0 < v.next_id);
        }
        assert forall|i: int, j: int| 0 <= i < j < n.queue.len() implies #[trigger] n.queue[i].0
            < #[trigger] n.queue[j].0 by {
            if j < v.queue.len() {
                assert(v.queue[i].0 < v.queue[j].0);
            } else {
                assert(v.queue[i].0 < v.next_id);
            }
        }
    }
}

/// Handing the head of the queue to an idle worker keeps every ticket in
/// exactly one place.
pub proof fn lemma_take_wf<J>(v: PoolView<J>, w: int)
    requires
        v.wf(),
        0 <= w < v.slots.len(),
        v.slots[w] is None,
    ensures
        v.after_take(w).wf(),
{
    let n = v.after_take(w);
    if v.queue.len() > 0 {
        let h = v.queue[0].0;
        assert forall|id: u64| #[trigger] n.is_queued(id) == (v.is_queued(id) && id != h) by {
            if v.is_queued(id) && id != h {
                let i = choose|i: int| 0 <= i < v.queue.len() && #[trigger] v.queue[i].0 == id;
                assert(i != 0);
                assert(n.queue[i - 1].0 == id);
            }
            if n.is_queued(id) {
                let i = choose|i: int| 0 <= i < n.queue.len() && #[trigger] n.queue[i].0 == id;
                assert(v.queue[i + 1].0 == id);
                assert(v.queue[0].0 < v.queue[i + 1].0);
            }
        }
        assert forall|id: u64| #[trigger] n.is_running(id) == (v.is_running(id) || id == h) by {
            if v.is_running(id) {
                let u = choose|u: int| 0 <= u < v.slots.len() && #[trigger] v.slots[u] == Some(id);
                assert(u != w);
                assert(n.slots[u] == Some(id));
            }
            if id == h {
                assert(n.slots[w] == Some(id));
            }
            if n.is_running(id) && id != h {
                let u = choose|u: int| 0 <= u < n.slots.len() && #[trigger] n.slots[u] == Some(id);
                assert(v.slots[u] == Some(id));
            }
        }
        assert(v.is_queued(h)) by {
            assert(v.queue[0].0 == h);
        }
        assert forall|a: int, b: int|
            0 <= a < n.slots.len() && 0 <= b < n.slots.len() && a != b && (
            #[trigger] n.slots[a]) is Some implies n.slots[a] != #[trigger] n.slots[b] by {
            if a == w {
                if v.slots[b] == Some(h) {
                    assert(v.is_running(h));
                }
            } else if b == w {
                if v.slots[a] == Some(h) {
                    assert(v.is_running(h));
                }
            }
        }
        assert forall|u: int| 0 <= u < n.slots.len() && (#[trigger] n.slots[u]) is Some implies n.slots[u]->0
            < n.next_id by {
            if u == w {
                assert(v.queue[0].0 < v.next_id);
            }
        }
        assert forall|i: int, j: int| 0 <= i < j < n.queue.len() implies #[trigger] n.queue[i].0
            < #[trigger] n.queue[j].0 by {
            assert(v.queue[i + 1].0 < v.queue[j + 1].0);
        }
        assert forall|i: int| 0 <= i < n.queue.len() implies (#[trigger] n.queue[i]).0 < n.next_id by {
            assert(v.queue[i + 1].0 < v.next_id);
        }
    }
}

/// A worker's completion moves its ticket to the processed ones and keeps
/// every ticket in exactly one place.
pub proof fn lemma_finish_wf<J>(v: PoolView<J>, w: int)
    requires
        v.wf(),
        0 <= w < v.slots.len(),
        v.slots[w] is Some,
    ensures
        v.after_finish(w).wf(),
{
    let n = v.after_finish(w);
    let t = v.slots[w]->0;
    assert(n.queue == v.queue);
    assert forall|id: u64| #[trigger] n.is_queued(id) == v.is_queued(id) by {
    }
    assert forall|id: u64| #[trigger] n.is_running(id) == (v.is_running(id) && id != t) by {
        if v.is_running(id) && id != t {
            let u = choose|u: int| 0 <= u < v.slots.len() && #[trigger] v.slots[u] == Some(id);
            assert(n.slots[u] == Some(id));
        }
        if n.is_running(id) {
            let u = choose|u: int| 0 <= u < n.slots.len() && #[trigger] n.slots[u] == Some(id);
            assert(u != w);
            assert(v.slots[u] == Some(id));
        }
    }
    assert(v.is_running(t)) by {
        assert(v.slots[w] == Some(t));
    }
    assert(t < v.next_id) by {
        assert(v.slots[w] is Some);
    }
}

/// No worker is busy exactly when the busy count is zero.
pub proof fn lemma_busy_count_zero(slots: Seq<Option<u64>>)
    ensures
        busy_count(slots) == 0 <==> forall|w: int| 0 <= w < slots.len() ==> #[trigger] slots[w] is None,
    decreases slots.len(),
{
    if slots.len() > 0 {
        let p = slots.drop_last();
        lemma_busy_count_zero(p);
        if busy_count(slots) == 0 {
            assert forall|w: int| 0 <= w < slots.len() implies #[trigger] slots[w] is None by {
                if w < p.len() {
                    assert(p[w] == slots[w]);
                }
            }
        }
        if forall|w: int| 0 <= w < slots.len() ==> #[trigger] slots[w] is None {
            assert forall|w: int| 0 <= w < p.len() implies #[trigger] p[w] is None by {
                assert(slots[w] is None);
            }
            assert(slots[slots.len() - 1] is None);
        }
    }
}

/// In every state each ticket that was handed out is in exactly one place:
/// waiting in the queue, with one worker, or processed; and no ticket that
/// was not handed out is anywhere. No job is lost or processed twice.
pub proof fn lemma_exactly_once<J>(v: PoolView<J>, id: u64)
    requires
        v.wf(),
    ensures
        id < v.next_id ==> (v.is_queued(id) || v.is_running(id) || v.done.contains(id)),
        v.is_queued(id) ==> !v.is_running(id) && !v.done.contains(id),
        v.is_running(id) ==> !v.done.contains(id),
        v.is_running(id) ==> (exists|w: int|
            0 <= w < v.slots.len() && #[trigger] v.slots[w] == Some(id) && forall|u: int|
                0 <= u < v.slots.len() && u != w ==> #[trigger] v.slots[u] != Some(id)),
        id >= v.next_id ==> !v.is_queued(id) && !v.is_running(id) && !v.done.contains(id),
{
    if v.is_running(id) {
        let w = choose|w: int| 0 <= w < v.slots.len() && #[trigger] v.slots[w] == Some(id);
        assert(v.slots[w] is Some);
        assert forall|u: int| 0 <= u < v.slots.len() && u != w implies #[trigger] v.slots[u] != Some(
            id,
        ) by {
            assert(v.slots[w] != v.slots[u]);
        }
    }
    if v.is_queued(id) {
        let i = choose|i: int| 0 <= i < v.queue.len() && #[trigger] v.queue[i].0 == id;
        assert(v.queue[i].0 < v.next_id);
    }
}

/// However many jobs are admitted, no more than one job per worker is in
/// process at any time.
pub proof fn lemma_bounded_concurrency<J>(v: PoolView<J>)
    requires
        v.wf(),
    ensures
        busy_count(v.slots) <= v.size,
{
    lemma_busy_count_bound(v.slots);
}

/// Each hand-out and each completion lowers the work left by one, and
/// admission raises it only while the pool accepts; while work is left some
/// worker can take a step, so every admitted job is eventually processed.
pub proof fn lemma_progress<J>(v: PoolView<J>, w: int, job: J)
    requires
        v.wf(),
        0 <= w < v.size,
    ensures
        v.queue.len() > 0 && v.slots[w] is None ==> v.after_take(w).work_left() + 1
            == v.work_left(),
        v.slots[w] is Some ==> v.after_finish(w).work_left() + 1 == v.work_left(),
        v.after_submit(job).work_left() == v.work_left() + (if v.submit_result() is Ok {
            2int
        } else {
            0int
        }),
        !v.accepting ==> v.after_submit(job) == v,
        v.work_left() > 0 ==> exists|u: int|
            0 <= u < v.size && (#[trigger] v.slots[u] is Some || v.queue.len() > 0),
{
    lemma_busy_count_update(v.slots, w, Some(0u64));
    lemma_busy_count_update(v.slots, w, None);
    lemma_busy_count_zero(v.slots);
    if v.queue.len() > 0 {
        assert(v.slots[0] is Some || v.queue.len() > 0);
    } else if v.work_left() > 0 {
        let u = choose|u: int| 0 <= u < v.slots.len() && !(#[trigger] v.slots[u] is None);
        assert(v.slots[u] is Some);
    }
    if v.queue.len() > 0 && v.slots[w] is None {
        lemma_busy_count_update(v.slots, w, Some(v.queue[0].0));
    }
}

/// Once the queue is empty and every worker idle, the processed jobs are
/// exactly the admitted ones.
pub proof fn lemma_drained<J>(v: PoolView<J>)
    requires
        v.wf(),
        v.work_left() == 0,
    ensures
        forall|id: u64| #[trigger] v.done.contains(id) <==> id < v.next_id,
{
    lemma_busy_count_zero(v.slots);
    assert forall|id: u64| id < v.next_id implies #[trigger] v.done.contains(id) by {
        if v.is_running(id) {
            let w = choose|w: int| 0 <= w < v.slots.len() && #[trigger] v.slots[w] == Some(id);
            assert(v.slots[w] is None);
        }
        if v.is_queued(id) {
            let i = choose|i: int| 0 <= i < v.queue.len() && #[trigger] v.queue[i].0 == id;
            assert(v.queue.len() > 0);
        }
    }
}

/// After the shutdown signal nothing new is admitted, while every job already
/// admitted is still handed out and completed: the queue and the jobs in
/// process are kept, a worker is told to exit only once the queue is empty,
/// and hand-outs and completions keep the pool closed.
pub proof fn lemma_shutdown<J>(v: PoolView<J>, w: int, job: J)
    requires
        v.wf(),
        0 <= w < v.size,
    ensures
        v.after_shutdown().wf(),
        v.after_shutdown().queue == v.queue,
        v.after_shutdown().slots == v.slots,
        v.after_shutdown().done == v.done,
        v.after_shutdown().submit_result() == Err::<u64, SubmitError>(SubmitError::ShutDown),
        v.after_shutdown().after_submit(job) == v.after_shutdown(),
        v.after_shutdown().take_action() is Exit <==> v.queue.len() == 0,
        v.after_shutdown().take_action() is Wait ==> false,
        !v.after_shutdown().after_take(w).accepting,
        !v.after_shutdown().after_finish(w).accepting,
{
    let n = v.after_shutdown();
    assert forall|id: u64| #[trigger] n.is_queued(id) == v.is_queued(id) by {
    }
    assert forall|id: u64| #[trigger] n.is_running(id) == v.is_running(id) by {
    }
}

/// A pool of a fixed number of workers sharing one first-in first-out queue
/// of jobs of type `J`.
pub struct Pool<J> {
    size: usize,
    accepting: bool,
    next_id: u64,
    queue: Vec<(u64, J)>,
    slots: Vec<Option<u64>>,
    done: Ghost<Set<u64>>,
}

impl<J> View for Pool<J> {
    type V = PoolView<J>;

    closed spec fn view(&self) -> PoolView<J> {
        PoolView {
            size: self.size as nat,
            accepting: self.accepting,
            next_id: self.next_id as nat,
            queue: self.queue@,
            slots: self.slots@,
            done: self.done@,
        }
    }
}

impl<J> Pool<J> {
    /// A pool of `size` idle workers, accepting jobs; a pool without workers
    /// is refused.
    pub fn new(size: usize) -> (r: Result<Pool<J>, PoolError>)
        ensures
            r is Err <==> size == 0,
            r matches Err(e) ==> e == PoolError::NoWorkers,
            r matches Ok(p) ==> {
                &&& p@.wf()
                &&& p@.size == size
                &&& p@.accepting
                &&& p@.next_id == 0
                &&& p@.queue.len() == 0
                &&& p@.slots == Seq::new(size as nat, |w: int| None::<u64>)
                &&& p@.done == Set::<u64>::empty()
            },
    {
        if size == 0 {
            return Err(PoolError::NoWorkers);
        }
        let mut slots: Vec<Option<u64>> = Vec::new();
        let mut w: usize = 0;
        while w < size
            invariant
                0 <= w <= size,
                slots@ == Seq::new(w as nat, |u: int| None::<u64>),
            decreases size - w,
        {
            slots.push(None);
            w = w + 1;
            assert(slots@ =~= Seq::new(w as nat, |u: int| None::<u64>));
        }
        let p = Pool {
            size,
            accepting: true,
            next_id: 0,
            queue: Vec::new(),
            slots,
            done: Ghost(Set::empty()),
        };
        assert forall|id: u64| !p@.is_running(id) by {
            if p@.is_running(id) {
                let u = choose|u: int| 0 <= u < p@.slots.len() && #[trigger] p@.slots[u] == Some(id);
                assert(p@.slots[u] is None);
            }
        }
        Ok(p)
    }

    /// Admits `job` at the back of the queue under the next ticket, which is
    /// returned. After shutdown, or once every ticket is used, the job is
    /// refused and the pool is left as it was.
    pub fn submit(&mut self, job: J) -> (r: Result<u64, SubmitError>)
        requires
            old(self)@.wf(),
        ensures
            r == old(self)@.submit_result(),
            final(self)@ == old(self)@.after_submit(job),
            final(self)@.wf(),
    {
        proof {
            lemma_submit_wf(self@, job);
        }
        if !self.accepting {
            return Err(SubmitError::ShutDown);
        }
        if self.next_id == u64::MAX {
            return Err(SubmitError::TicketsExhausted);
        }
        let id = self.next_id;
        self.queue.push((id, job));
        self.next_id = id + 1;
        Ok(id)
    }

    /// What idle worker `worker` does next: the job at the head of the queue,
    /// which it now holds; else wait while the pool accepts; else exit.
    pub fn take(&mut self, worker: usize) -> (r: Action<J>)
        requires
            old(self)@.wf(),
            worker < old(self)@.size,
            old(self)@.slots[worker as int] is None,
        ensures
            r == old(self)@.take_action(),
            final(self)@ == old(self)@.after_take(worker as int),
            final(self)@.wf(),
    {
        proof {
            lemma_take_wf(self@, worker as int);
        }
        if self.queue.len() > 0 {
            let (id, job) = self.queue.remove(0);
            self.slots.set(worker, Some(id));
            assert(self.queue@ =~= old(self)@.queue.drop_first());
            Action::Run(id, job)
        } else if self.accepting {
            Action::Wait
        } else {
            Action::Exit
        }
    }

    /// Worker `worker` has processed its job: its ticket, returned, counts as
    /// done and the worker is idle again.
    pub fn finish(&mut self, worker: usize) -> (r: u64)
        requires
            old(self)@.wf(),
            worker < old(self)@.size,
            old(self)@.slots[worker as int] is Some,
        ensures
            r == old(self)@.slots[worker as int]->0,
            final(self)@ == old(self)@.after_finish(worker as int),
            final(self)@.wf(),
    {
        proof {
            lemma_finish_wf(self@, worker as int);
        }
        let id = match self.slots[worker] {
            Some(id) => id,
            None => 0,
        };
        self.slots.set(worker, None);
        self.done = Ghost(self.done@.insert(id));
        id
    }

    /// Stops admission. Queued jobs are still handed out and running ones
    /// still finish.
    pub fn shutdown(&mut self)
        requires
            old(self)@.wf(),
        ensures
            final(self)@ == old(self)@.after_shutdown(),
            final(self)@.wf(),
    {
        proof {
            lemma_shutdown(self@, 0, arbitrary());
        }
        self.accepting = false;
    }

    /// The number of workers.
    pub fn size(&self) -> (r: usize)
        ensures
            r == self@.size,
    {
        self.size
    }

    /// Whether jobs are still admitted.
    pub fn is_accepting(&self) -> (r: bool)
        ensures
            r == self@.accepting,
    {
        self.accepting
    }

    /// The number of jobs waiting in the queue.
    pub fn pending(&self) -> (r: usize)
        ensures
            r == self@.queue.len(),
    {
        self.queue.len()
    }

    /// Whether `worker` is a worker of this pool holding no job.
    pub fn is_idle(&self, worker: usize) -> (r: bool)
        ensures
            r == (worker < self@.slots.len() && self@.slots[worker as int] is None),
    {
        worker < self.slots.len() && self.slots[worker].is_none()
    }

    /// The number of workers processing a job.
    pub fn in_flight(&self) -> (r: usize)
        ensures
            r == busy_count(self@.slots),
    {
        let mut n: usize = 0;
        let mut w: usize = 0;
        while w < self.slots.len()
            invariant
                0 <= w <= self.slots@.len(),
                n == busy_count(self.slots@.take(w as int)),
                n <= w,
            decreases self.slots@.len() - w,
        {
            assert(self.slots@.take(w + 1).drop_last() =~= self.slots@.take(w as int));
            if self.slots[w].is_some() {
                n = n + 1;
            }
            w = w + 1;
        }
        assert(self.slots@.take(w as int) =~= self.slots@);
        n
    }
}

} // verus!
