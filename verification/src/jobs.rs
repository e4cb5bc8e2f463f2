use vstd::prelude::*;

use crate::json::{JsonSpec, JsonValue};

verus! {

/// A job of a queue: its id, its content, its priority, the queue that holds it, and the
/// worker that has claimed it, if any.
#[derive(Debug)]
pub struct Job {
    pub id: u64,
    pub content: JsonValue,
    pub priority: u64,
    pub queue: String,
    pub worker: Option<u64>,
}

/// A worker that waits for a job from any of some queues.
pub struct Waiter {
    pub worker: u64,
    pub queues: Vec<String>,
}

/// The model of a [`Job`].
pub struct JobView {
    pub id: u64,
    pub content: JsonSpec,
    pub priority: u64,
    pub queue: Seq<char>,
    pub worker: Option<u64>,
}

/// The model of a [`Waiter`].
pub struct WaiterView {
    pub worker: u64,
    pub queues: Seq<Seq<char>>,
}

/// The model of a [`State`]: the jobs in the order in which they were put, the waiting
/// workers in the order in which they began to wait, and the next ids to hand out.
pub struct StateView {
    pub jobs: Seq<JobView>,
    pub waiting: Seq<WaiterView>,
    pub next_job_id: u64,
    pub next_worker_id: u64,
}

impl View for Job {
    type V = JobView;

    open spec fn view(&self) -> JobView {
        JobView {
            id: self.id,
            content: self.content@,
            priority: self.priority,
            queue: self.queue@,
            worker: self.worker,
        }
    }
}

/// The model of a list of queue names.
pub open spec fn names_view(names: Seq<String>) -> Seq<Seq<char>> {
    names.map_values(|s: String| s@)
}

impl View for Waiter {
    type V = WaiterView;

    open spec fn view(&self) -> WaiterView {
        WaiterView { worker: self.worker, queues: names_view(self.queues@) }
    }
}

/// The state of the job centre: every job of every queue, and the workers that wait.
pub struct State {
    jobs: Vec<Job>,
    waiting: Vec<Waiter>,
    current_job_id: u64,
    current_worker_id: u64,
}

impl View for State {
    type V = StateView;

    closed spec fn view(&self) -> StateView {
        StateView {
            jobs: self.jobs@.map_values(|j: Job| j@),
            waiting: self.waiting@.map_values(|w: Waiter| w@),
            next_job_id: self.current_job_id,
            next_worker_id: self.current_worker_id,
        }
    }
}

/// Whether the jobs have distinct ids, all below the next id to hand out.
pub open spec fn valid_state(st: StateView) -> bool {
    &&& forall|i: int, j: int|
        0 <= i < j < st.jobs.len() ==> #[trigger] st.jobs[i].id != #[trigger] st.jobs[j].id
    &&& forall|i: int| 0 <= i < st.jobs.len() ==> #[trigger] st.jobs[i].id < st.next_job_id
}

/// The position of the first waiting worker that waits on `queue` (the number of waiting
/// workers when none does).
pub open spec fn waiter_index(waiting: Seq<WaiterView>, queue: Seq<char>) -> nat
    decreases waiting.len(),
{
    if waiting.len() == 0 || waiting[0].queues.contains(queue) {
        0
    } else {
        1 + waiter_index(waiting.drop_first(), queue)
    }
}

/// A job that becomes free in `queue` goes to the first worker that waits on that queue,
/// which then no longer waits: the waiting workers after that, and the worker that gets the
/// job, if any.
pub open spec fn spec_send_job(waiting: Seq<WaiterView>, queue: Seq<char>) -> (Seq<WaiterView>, Option<u64>) {
    let k = waiter_index(waiting, queue);
    if k < waiting.len() {
        (waiting.remove(k as int), Some(waiting[k as int].worker))
    } else {
        (waiting, None)
    }
}

/// The state after a job with `content` and `priority` was put in `queue`: it gets the next
/// id, and goes at once to a worker that waits on the queue, if there is one.
pub open spec fn spec_put(st: StateView, queue: Seq<char>, content: JsonSpec, priority: u64) -> StateView {
    let (waiting, recipient) = spec_send_job(st.waiting, queue);
    StateView {
        jobs: st.jobs.push(
            JobView { id: st.next_job_id, content, priority, queue, worker: recipient },
        ),
        waiting,
        next_job_id: (st.next_job_id + 1) as u64,
        next_worker_id: st.next_worker_id,
    }
}

/// The position of the job with id `id`, if there is one.
pub open spec fn job_index(jobs: Seq<JobView>, id: u64) -> Option<int> {
    if exists|i: int| 0 <= i < jobs.len() && #[trigger] jobs[i].id == id {
        Some(choose|i: int| 0 <= i < jobs.len() && #[trigger] jobs[i].id == id)
    } else {
        None
    }
}

/// Whether a job is free and in one of the queues.
pub open spec fn is_candidate(job: JobView, queues: Seq<Seq<char>>) -> bool {
    job.worker is None && queues.contains(job.queue)
}

/// Whether the job at position `i` is the one that a worker asking for `queues` gets: a free
/// job in one of the queues with the highest priority, the earliest put among those.
pub open spec fn is_best(jobs: Seq<JobView>, queues: Seq<Seq<char>>, i: int) -> bool {
    &&& 0 <= i < jobs.len()
    &&& is_candidate(jobs[i], queues)
    &&& forall|k: int|
        0 <= k < jobs.len() && is_candidate(#[trigger] jobs[k], queues) ==> jobs[k].priority
            < jobs[i].priority || (jobs[k].priority == jobs[i].priority && i <= k)
}

/// The position of the job that a worker asking for `queues` gets, if there is one.
pub open spec fn best_job_index(jobs: Seq<JobView>, queues: Seq<Seq<char>>) -> Option<int> {
    if exists|i: int| is_best(jobs, queues, i) {
        Some(choose|i: int| is_best(jobs, queues, i))
    } else {
        None
    }
}

/// A job with its worker set to `worker`.
pub open spec fn with_worker(job: JobView, worker: Option<u64>) -> JobView {
    JobView { worker, ..job }
}

/// The state after worker `worker` asked for a job from `queues`, and the job it got, as it
/// was before it was claimed. When it gets none and `wait` holds, it waits.
pub open spec fn spec_get(st: StateView, queues: Seq<Seq<char>>, worker: u64, wait: bool) -> (StateView, Option<JobView>) {
    match best_job_index(st.jobs, queues) {
        Some(i) => (
            StateView { jobs: st.jobs.update(i, with_worker(st.jobs[i], Some(worker))), ..st },
            Some(st.jobs[i]),
        ),
        None => if wait {
            (StateView { waiting: st.waiting.push(WaiterView { worker, queues }), ..st }, None)
        } else {
            (st, None)
        },
    }
}

/// The state after a job was deleted, and whether there was one with that id.
pub open spec fn spec_delete(st: StateView, id: u64) -> (StateView, bool) {
    match job_index(st.jobs, id) {
        Some(i) => (StateView { jobs: st.jobs.remove(i), ..st }, true),
        None => (st, false),
    }
}

/// The state after worker `worker` aborted a job, whether it had claimed it, and the worker
/// that the job then went to, if any.
pub open spec fn spec_abort(st: StateView, id: u64, worker: u64) -> (StateView, bool, Option<u64>) {
    match job_index(st.jobs, id) {
        Some(i) => if st.jobs[i].worker == Some(worker) {
            let (waiting, recipient) = spec_send_job(st.waiting, st.jobs[i].queue);
            (
                StateView {
                    jobs: st.jobs.update(i, with_worker(st.jobs[i], recipient)),
                    waiting,
                    ..st
                },
                true,
                recipient,
            )
        } else {
            (st, false, None)
        },
        None => (st, false, None),
    }
}

/// The state after worker `worker` disconnected with the jobs `ids` claimed: each of them,
/// in order, is aborted. Also the jobs that went to other workers, in that order, each as it
/// was right after it went (with that worker set).
pub open spec fn spec_disconnect(st: StateView, worker: u64, ids: Seq<u64>) -> (StateView, Seq<JobView>)
    decreases ids.len(),
{
    if ids.len() == 0 {
        (st, Seq::empty())
    } else {
        let (st1, sent) = spec_disconnect(st, worker, ids.drop_last());
        let (st2, _, recipient) = spec_abort(st1, ids.last(), worker);
        match recipient {
            Some(w) => (st2, sent.push(st2.jobs[job_index(st2.jobs, ids.last())->Some_0])),
            None => (st2, sent),
        }
    }
}

/// The outcome of asking for a job with waiting: the job, or a wait.
#[derive(Debug)]
pub enum GetJobWaitResult {
    Job(Job),
    Wait,
}

impl Job {
    /// A copy of the job, with its worker set to `worker`.
    pub fn copy_with_worker(&self, worker: Option<u64>) -> (r: Job)
        ensures
            r@ == with_worker(self@, worker),
    {
        Job {
            id: self.id,
            content: self.content.clone(),
            priority: self.priority,
            queue: self.queue.clone(),
            worker,
        }
    }
}

proof fn lemma_waiter_index(waiting: Seq<WaiterView>, queue: Seq<char>, k: int)
    requires
        0 <= k <= waiting.len(),
        forall|j: int| 0 <= j < k ==> !(#[trigger] waiting[j]).queues.contains(queue),
        k == waiting.len() || waiting[k].queues.contains(queue),
    ensures
        waiter_index(waiting, queue) == k,
    decreases k,
{
    if k > 0 {
        assert forall|j: int| 0 <= j < k - 1 implies !(#[trigger] waiting.drop_first()[j]).queues.contains(queue) by {
            assert(waiting.drop_first()[j] == waiting[j + 1]);
        }
        lemma_waiter_index(waiting.drop_first(), queue, k - 1);
    }
}

/// Whether `name` is one of `names`.
fn contains_name(names: &Vec<String>, name: &String) -> (r: bool)
    ensures
        r == names_view(names@).contains(name@),
{
    let ghost v = names_view(names@);
    let mut i: usize = 0;
    while i < names.len()
        invariant
            i <= names@.len(),
            v == names_view(names@),
            forall|k: int| 0 <= k < i ==> v[k] != name@,
        decreases names@.len() - i,
    {
        if names[i] == *name {
            assert(v[i as int] == name@);
            return true;
        }
        i += 1;
    }
    false
}

/// Gives a job that becomes free in `queue` to the first worker that waits on that queue, as
/// [`spec_send_job`] says.
fn send_job(waiting: &mut Vec<Waiter>, queue: &String) -> (r: Option<u64>)
    ensures
        (final(waiting)@.map_values(|w: Waiter| w@), r) == spec_send_job(
            old(waiting)@.map_values(|w: Waiter| w@),
            queue@,
        ),
{
    let ghost v = waiting@.map_values(|w: Waiter| w@);
    let mut i: usize = 0;
    while i < waiting.len()
        invariant
            i <= waiting@.len(),
            waiting@ == old(waiting)@,
            v == waiting@.map_values(|w: Waiter| w@),
            forall|k: int| 0 <= k < i ==> !(#[trigger] v[k]).queues.contains(queue@),
        decreases waiting@.len() - i,
    {
        if contains_name(&waiting[i].queues, queue) {
            proof {
                lemma_waiter_index(v, queue@, i as int);
            }
            let w = waiting.remove(i);
            assert(waiting@.map_values(|w: Waiter| w@) =~= v.remove(i as int));
            return Some(w.worker);
        }
        i += 1;
    }
    proof {
        lemma_waiter_index(v, queue@, i as int);
    }
    None
}

impl State {
    /// The jobs have distinct ids, all below the next id to hand out: see [`valid_state`].
    #[verifier::type_invariant]
    spec fn well_formed(self) -> bool {
        valid_state(self@)
    }

    /// A state with no jobs and no waiting workers.
    pub fn new() -> (r: State)
        ensures
            valid_state(r@),
            r@.jobs == Seq::<JobView>::empty(),
            r@.waiting == Seq::<WaiterView>::empty(),
            r@.next_job_id == 0,
            r@.next_worker_id == 0,
    {
        let r = State { jobs: Vec::new(), waiting: Vec::new(), current_job_id: 0, current_worker_id: 0 };
        assert(r@.jobs =~= Seq::<JobView>::empty());
        assert(r@.waiting =~= Seq::<WaiterView>::empty());
        r
    }

    /// Hands out a new worker id (after the largest id it starts again from zero).
    pub fn next_worker_id(&mut self) -> (r: u64)
        ensures
            r == old(self)@.next_worker_id,
            final(self)@ == (StateView {
                next_worker_id: old(self)@.next_worker_id.wrapping_add(1),
                ..old(self)@
            }),
    {
        proof {
            use_type_invariant(&*self);
        }
        let id = self.current_worker_id;
        self.current_worker_id = self.current_worker_id.wrapping_add(1);
        id
    }

    /// Whether job ids are left to hand out.
    pub fn can_put_job(&self) -> (r: bool)
        ensures
            r == (self@.next_job_id < u64::MAX),
    {
        self.current_job_id < u64::MAX
    }

    /// Puts a job in `queue`, as [`spec_put`] says: its id, and a copy of the job when it
    /// went at once to a waiting worker (with that worker set).
    pub fn put_job(&mut self, queue: String, content: JsonValue, priority: u64) -> (r: (u64, Option<Job>))
        requires
            old(self)@.next_job_id < u64::MAX,
        ensures
            valid_state(final(self)@),
            final(self)@ == spec_put(old(self)@, queue@, content@, priority),
            r.0 == old(self)@.next_job_id,
            match r.1 {
                Some(job) => final(self)@.jobs.last() == job@ && job.worker is Some,
                None => final(self)@.jobs.last().worker is None,
            },
    {
        proof {
            use_type_invariant(&*self);
        }
        let ghost old_view = self@;
        let id = self.current_job_id;
        let mut waiting: Vec<Waiter> = Vec::new();
        std::mem::swap(&mut waiting, &mut self.waiting);
        let recipient = send_job(&mut waiting, &queue);
        let job = Job { id, content, priority, queue, worker: recipient };
        let delivered = match recipient {
            Some(_) => Some(job.copy_with_worker(recipient)),
            None => None,
        };
        let mut jobs: Vec<Job> = Vec::new();
        std::mem::swap(&mut jobs, &mut self.jobs);
        let ghost before = jobs@;
        jobs.push(job);
        assert(jobs@.map_values(|j: Job| j@) =~= before.map_values(|j: Job| j@).push(job@));
        self.waiting = waiting;
        self.current_job_id = id + 1;
        proof {
            let after = jobs@.map_values(|j: Job| j@);
            assert(after.drop_last() =~= old_view.jobs);
            assert forall|i: int, j: int| 0 <= i < j < after.len() implies #[trigger] after[i].id != #[trigger] after[j].id by {
                if j == after.len() - 1 {
                    assert(old_view.jobs[i].id < old_view.next_job_id);
                } else {
                    assert(after[i] == old_view.jobs[i] && after[j] == old_view.jobs[j]);
                }
            }
            assert forall|i: int| 0 <= i < after.len() implies #[trigger] after[i].id < id + 1 by {
                if i < after.len() - 1 {
                    assert(after[i] == old_view.jobs[i]);
                }
            }
        }
        self.jobs = jobs;
        (id, delivered)
    }
}

proof fn lemma_best_unique(jobs: Seq<JobView>, queues: Seq<Seq<char>>, i: int, j: int)
    requires
        is_best(jobs, queues, i),
        is_best(jobs, queues, j),
    ensures
        i == j,
{
    assert(is_candidate(jobs[j], queues));
    assert(is_candidate(jobs[i], queues));
}

impl State {
    /// The position of the job that a worker asking for `queue_names` gets, as
    /// [`best_job_index`] says.
    pub fn get_job_with_highest_priority(&self, queue_names: &Vec<String>) -> (r: Option<usize>)
        ensures
            match best_job_index(self@.jobs, names_view(queue_names@)) {
                Some(i) => r == Some(i as usize),
                None => r is None,
            },
            r is None <==> forall|k: int| 0 <= k < self@.jobs.len() ==> !is_candidate(#[trigger] self@.jobs[k], names_view(queue_names@)),
            r matches Some(k) ==> is_best(self@.jobs, names_view(queue_names@), k as int),
    {
        let ghost jobs = self@.jobs;
        let ghost queues = names_view(queue_names@);
        let mut best: Option<usize> = None;
        let mut i: usize = 0;
        while i < self.jobs.len()
            invariant
                i <= self.jobs@.len(),
                jobs == self@.jobs,
                jobs.len() == self.jobs@.len(),
                queues == names_view(queue_names@),
                forall|k: int| 0 <= k < jobs.len() ==> #[trigger] jobs[k] == self.jobs@[k]@,
                match best {
                    Some(b) => b < i && is_candidate(jobs[b as int], queues) && forall|k: int|
                        0 <= k < i && is_candidate(#[trigger] jobs[k], queues) ==> jobs[k].priority
                            < jobs[b as int].priority || (jobs[k].priority == jobs[b as int].priority
                            && b <= k),
                    None => forall|k: int| 0 <= k < i ==> !is_candidate(#[trigger] jobs[k], queues),
                },
            decreases self.jobs@.len() - i,
        {
            let job = &self.jobs[i];
            let candidate = job.worker.is_none() && contains_name(queue_names, &job.queue);
            if candidate {
                match best {
                    Some(b) => {
                        if job.priority > self.jobs[b].priority {
                            best = Some(i);
                        }
                    },
                    None => {
                        best = Some(i);
                    },
                }
            }
            i += 1;
        }
        match best {
            Some(b) => {
                assert(is_best(jobs, queues, b as int));
                let ghost c = choose|c: int| is_best(jobs, queues, c);
                proof {
                    lemma_best_unique(jobs, queues, b as int, c);
                }
            },
            None => {},
        }
        best
    }

    /// Gives worker `worker` the job that it asks for from `queue_names`, if there is one,
    /// and lets it wait when there is none and `wait` holds, as [`spec_get`] says. The job
    /// comes as it was before it was claimed.
    fn get_job_any(&mut self, queue_names: Vec<String>, worker: u64, wait: bool) -> (r: Option<Job>)
        ensures
            valid_state(final(self)@),
            (final(self)@, match r {
                Some(job) => Some(job@),
                None => None,
            }) == spec_get(old(self)@, names_view(queue_names@), worker, wait),
    {
        proof {
            use_type_invariant(&*self);
        }
        match self.get_job_with_highest_priority(&queue_names) {
            Some(i) => {
                let ghost c = choose|c: int| is_best(self@.jobs, names_view(queue_names@), c);
                assert(is_best(self@.jobs, names_view(queue_names@), c));
                proof {
                    lemma_best_unique(self@.jobs, names_view(queue_names@), c, i as int);
                }
                assert(self@.jobs[i as int] == self.jobs@[i as int]@);
                let job = self.jobs[i].copy_with_worker(None);
                let claimed = self.jobs[i].copy_with_worker(Some(worker));
                let ghost old_view = self@;
                let mut jobs: Vec<Job> = Vec::new();
                std::mem::swap(&mut jobs, &mut self.jobs);
                let ghost before = jobs@;
                jobs.set(i, claimed);
                proof {
                    assert(before[i as int].worker is None);
                    assert(jobs@.map_values(|j: Job| j@) =~= before.map_values(|j: Job| j@).update(i as int, with_worker(before[i as int]@, Some(worker))));
                    assert(job@ == before[i as int]@);
                    let after = jobs@.map_values(|j: Job| j@);
                    assert forall|k: int| 0 <= k < after.len() implies #[trigger] after[k].id == old_view.jobs[k].id by {}
                    assert forall|a: int, b: int| 0 <= a < b < after.len() implies #[trigger] after[a].id != #[trigger] after[b].id by {
                        assert(after[a].id == old_view.jobs[a].id && after[b].id == old_view.jobs[b].id);
                    }
                    assert forall|a: int| 0 <= a < after.len() implies #[trigger] after[a].id < old_view.next_job_id by {
                        assert(after[a].id == old_view.jobs[a].id);
                    }
                }
                self.jobs = jobs;
                Some(job)
            },
            None => {
                if wait {
                    let mut waiting: Vec<Waiter> = Vec::new();
                    std::mem::swap(&mut waiting, &mut self.waiting);
                    let ghost before = waiting@;
                    let w = Waiter { worker, queues: queue_names };
                    waiting.push(w);
                    assert(waiting@.map_values(|w: Waiter| w@) =~= before.map_values(|w: Waiter| w@).push(w@));
                    self.waiting = waiting;
                }
                None
            },
        }
    }

    /// Gives worker `worker` the job that it asks for from `queue_names`, if there is one.
    pub fn get_job(&mut self, queue_names: &Vec<String>, worker: u64) -> (r: Option<Job>)
        ensures
            valid_state(final(self)@),
            (final(self)@, match r {
                Some(job) => Some(job@),
                None => None,
            }) == spec_get(old(self)@, names_view(queue_names@), worker, false),
    {
        let names = queue_names.clone();
        assert(names_view(names@) =~= names_view(queue_names@));
        self.get_job_any(names, worker, false)
    }

    /// Gives worker `worker` the job that it asks for from `queue_names`, or lets it wait for
    /// one.
    pub fn get_job_wait(&mut self, queue_names: Vec<String>, worker: u64) -> (r: GetJobWaitResult)
        ensures
            valid_state(final(self)@),
            (final(self)@, match r {
                GetJobWaitResult::Job(job) => Some(job@),
                GetJobWaitResult::Wait => None,
            }) == spec_get(old(self)@, names_view(queue_names@), worker, true),
    {
        match self.get_job_any(queue_names, worker, true) {
            Some(job) => GetJobWaitResult::Job(job),
            None => GetJobWaitResult::Wait,
        }
    }

    fn find_job(&self, job_id: u64) -> (r: Option<usize>)
        ensures
            match job_index(self@.jobs, job_id) {
                Some(i) => r == Some(i as usize),
                None => r is None,
            },
            r matches Some(k) ==> k < self@.jobs.len() && self@.jobs[k as int].id == job_id
                && job_index(self@.jobs, job_id) == Some(k as int),
    {
        proof {
            use_type_invariant(self);
        }
        let ghost jobs = self@.jobs;
        let mut i: usize = 0;
        while i < self.jobs.len()
            invariant
                i <= self.jobs@.len(),
                jobs == self@.jobs,
                valid_state(self@),
                jobs.len() == self.jobs@.len(),
                forall|k: int| 0 <= k < jobs.len() ==> #[trigger] jobs[k] == self.jobs@[k]@,
                forall|k: int| 0 <= k < i ==> (#[trigger] jobs[k]).id != job_id,
            decreases self.jobs@.len() - i,
        {
            if self.jobs[i].id == job_id {
                assert(jobs[i as int].id == job_id);
                let ghost c = choose|c: int| 0 <= c < jobs.len() && #[trigger] jobs[c].id == job_id;
                assert(c == i) by {
                    if c < i {
                        assert(jobs[c].id != jobs[i as int].id);
                    } else if c > i {
                        assert(jobs[i as int].id != jobs[c].id);
                    }
                }
                return Some(i);
            }
            i += 1;
        }
        None
    }

    /// Deletes the job with id `job_id`, as [`spec_delete`] says: whether there was one.
    pub fn delete_job(&mut self, job_id: u64) -> (r: bool)
        ensures
            valid_state(final(self)@),
            (final(self)@, r) == spec_delete(old(self)@, job_id),
    {
        proof {
            use_type_invariant(&*self);
        }
        match self.find_job(job_id) {
            Some(i) => {
                let ghost old_view = self@;
                let mut jobs: Vec<Job> = Vec::new();
                std::mem::swap(&mut jobs, &mut self.jobs);
                let ghost before = jobs@;
                let _job = jobs.remove(i);
                assert(jobs@.map_values(|j: Job| j@) =~= before.map_values(|j: Job| j@).remove(i as int));
                proof {
                    let after = old_view.jobs.remove(i as int);
                    assert forall|a: int, b: int| 0 <= a < b < after.len() implies #[trigger] after[a].id != #[trigger] after[b].id by {
                        let a0 = if a < i { a } else { a + 1 };
                        let b0 = if b < i { b } else { b + 1 };
                        assert(after[a] == old_view.jobs[a0] && after[b] == old_view.jobs[b0]);
                    }
                    assert forall|a: int| 0 <= a < after.len() implies #[trigger] after[a].id < old_view.next_job_id by {
                        let a0 = if a < i { a } else { a + 1 };
                        assert(after[a] == old_view.jobs[a0]);
                    }
                }
                self.jobs = jobs;
                assert(self@ == (StateView { jobs: old_view.jobs.remove(i as int), ..old_view }));
                true
            },
            None => false,
        }
    }

    /// Aborts the job with id `job_id` for worker `worker`, as [`spec_abort`] says: whether
    /// the worker had claimed it, and a copy of the job when it went at once to a waiting
    /// worker (with that worker set).
    pub fn abort_job(&mut self, job_id: u64, worker: u64) -> (r: (bool, Option<Job>))
        ensures
            valid_state(final(self)@),
            ({
                let (st, aborted, recipient) = spec_abort(old(self)@, job_id, worker);
                &&& final(self)@ == st
                &&& r.0 == aborted
                &&& match r.1 {
                    Some(job) => recipient == job.worker && job.worker is Some && (job_index(st.jobs, job_id) matches Some(i) && st.jobs[i] == job@),
                    None => recipient is None,
                }
            }),
    {
        proof {
            use_type_invariant(&*self);
        }
        match self.find_job(job_id) {
            Some(i) => {
                if self.jobs[i].worker == Some(worker) {
                    let ghost old_view = self@;
                    let queue = self.jobs[i].queue.clone();
                    let mut waiting: Vec<Waiter> = Vec::new();
                    std::mem::swap(&mut waiting, &mut self.waiting);
                    let recipient = send_job(&mut waiting, &queue);
                    self.waiting = waiting;
                    let updated = self.jobs[i].copy_with_worker(recipient);
                    let delivered = match recipient {
                        Some(_) => Some(self.jobs[i].copy_with_worker(recipient)),
                        None => None,
                    };
                    let mut jobs: Vec<Job> = Vec::new();
                    std::mem::swap(&mut jobs, &mut self.jobs);
                    let ghost before = jobs@;
                    assert(old_view.jobs[i as int] == before[i as int]@);
                    jobs.set(i, updated);
                    proof {
                        let after = jobs@.map_values(|j: Job| j@);
                        assert(after =~= before.map_values(|j: Job| j@).update(i as int, with_worker(before[i as int]@, recipient)));
                        assert forall|k: int| 0 <= k < after.len() implies #[trigger] after[k].id == old_view.jobs[k].id by {}
                        assert forall|a: int, b: int| 0 <= a < b < after.len() implies #[trigger] after[a].id != #[trigger] after[b].id by {
                            assert(after[a].id == old_view.jobs[a].id && after[b].id == old_view.jobs[b].id);
                        }
                        assert forall|a: int| 0 <= a < after.len() implies #[trigger] after[a].id < old_view.next_job_id by {
                            assert(after[a].id == old_view.jobs[a].id);
                        }
                    }
                    self.jobs = jobs;
                    proof {
                        let st = self@;
                        assert(st.jobs[i as int].id == job_id);
                        assert forall|k: int| 0 <= k < st.jobs.len() implies #[trigger] st.jobs[k].id == old_view.jobs[k].id by {}
                        let c = choose|c: int| 0 <= c < st.jobs.len() && #[trigger] st.jobs[c].id == job_id;
                        assert(c == i) by {
                            if c < i {
                                assert(st.jobs[c].id == before[c]@.id);
                            } else if c > i {
                                assert(st.jobs[c].id == before[c]@.id);
                            }
                        }
                    }
                    (true, delivered)
                } else {
                    (false, None)
                }
            },
            None => (false, None),
        }
    }
}

/// The model of a sequence of jobs.
pub open spec fn jobs_view(jobs: Seq<Job>) -> Seq<JobView> {
    jobs.map_values(|j: Job| j@)
}

impl State {
    /// Aborts, in order, the jobs `claimed_job_ids` of worker `worker`, which disconnected, as
    /// [`spec_disconnect`] says: copies of the jobs that went at once to waiting workers
    /// (each with that worker set).
    pub fn handle_disconnect(&mut self, worker: u64, claimed_job_ids: &Vec<u64>) -> (r: Vec<Job>)
        ensures
            valid_state(final(self)@),
            final(self)@ == spec_disconnect(old(self)@, worker, claimed_job_ids@).0,
            jobs_view(r@) == spec_disconnect(old(self)@, worker, claimed_job_ids@).1,
            forall|k: int| 0 <= k < r@.len() ==> (#[trigger] r@[k]).worker is Some,
    {
        proof {
            use_type_invariant(&*self);
        }
        let mut delivered: Vec<Job> = Vec::new();
        let mut i: usize = 0;
        while i < claimed_job_ids.len()
            invariant
                i <= claimed_job_ids@.len(),
                valid_state(self@),
                self@ == spec_disconnect(old(self)@, worker, claimed_job_ids@.take(i as int)).0,
                jobs_view(delivered@) == spec_disconnect(old(self)@, worker, claimed_job_ids@.take(i as int)).1,
                forall|k: int| 0 <= k < delivered@.len() ==> (#[trigger] delivered@[k]).worker is Some,
            decreases claimed_job_ids@.len() - i,
        {
            let id = claimed_job_ids[i];
            proof {
                assert(claimed_job_ids@.take(i + 1).drop_last() =~= claimed_job_ids@.take(i as int));
                assert(claimed_job_ids@.take(i + 1).last() == id);
            }
            let ghost before = delivered@;
            let (_, sent) = self.abort_job(id, worker);
            match sent {
                Some(job) => {
                    delivered.push(job);
                    assert(jobs_view(delivered@) =~= jobs_view(before).push(job@));
                },
                None => {},
            }
            i += 1;
        }
        assert(claimed_job_ids@.take(claimed_job_ids@.len() as int) =~= claimed_job_ids@);
        delivered
    }
}

/// Whether no waiting worker is `worker`.
pub open spec fn not_waiting(st: StateView, worker: u64) -> bool {
    forall|k: int| 0 <= k < st.waiting.len() ==> (#[trigger] st.waiting[k]).worker != worker
}

/// A deleted job is gone, and every other job stays as it was.
pub proof fn lemma_delete_removes_job(st: StateView, id: u64)
    requires
        valid_state(st),
    ensures
        job_index(spec_delete(st, id).0.jobs, id) is None,
        forall|k: int| 0 <= k < st.jobs.len() && st.jobs[k].id != id ==> #[trigger] spec_delete(st, id).0.jobs.contains(st.jobs[k]),
{
    match job_index(st.jobs, id) {
        Some(i) => {
            let after = st.jobs.remove(i);
            if exists|k: int| 0 <= k < after.len() && #[trigger] after[k].id == id {
                let k = choose|k: int| 0 <= k < after.len() && #[trigger] after[k].id == id;
                if k < i {
                    assert(st.jobs[k].id == st.jobs[i].id);
                } else {
                    assert(st.jobs[k + 1].id == st.jobs[i].id);
                }
            }
            assert forall|k: int| 0 <= k < st.jobs.len() && st.jobs[k].id != id implies #[trigger] after.contains(st.jobs[k]) by {
                if k < i {
                    assert(after[k] == st.jobs[k]);
                } else {
                    assert(after[k - 1] == st.jobs[k]);
                }
            }
        },
        None => {},
    }
}

proof fn lemma_send_job_keeps_others(waiting: Seq<WaiterView>, queue: Seq<char>, worker: u64)
    requires
        forall|k: int| 0 <= k < waiting.len() ==> (#[trigger] waiting[k]).worker != worker,
    ensures
        forall|k: int| 0 <= k < spec_send_job(waiting, queue).0.len() ==> (#[trigger] spec_send_job(waiting, queue).0[k]).worker != worker,
        spec_send_job(waiting, queue).1 != Some(worker),
{
    let i = waiter_index(waiting, queue);
    if i < waiting.len() {
        let after = waiting.remove(i as int);
        assert forall|k: int| 0 <= k < after.len() implies (#[trigger] after[k]).worker != worker by {
            if k < i {
                assert(after[k] == waiting[k]);
            } else {
                assert(after[k] == waiting[k + 1]);
            }
        }
    }
}

proof fn lemma_abort_keeps(st: StateView, id: u64, worker: u64)
    requires
        valid_state(st),
        not_waiting(st, worker),
    ensures
        valid_state(spec_abort(st, id, worker).0),
        not_waiting(spec_abort(st, id, worker).0, worker),
        spec_abort(st, id, worker).0.jobs.len() == st.jobs.len(),
        forall|k: int| 0 <= k < st.jobs.len() ==> (#[trigger] spec_abort(st, id, worker).0.jobs[k]).id == st.jobs[k].id,
        forall|k: int| 0 <= k < st.jobs.len() && st.jobs[k].id != id ==> #[trigger] spec_abort(st, id, worker).0.jobs[k] == st.jobs[k],
        forall|k: int| 0 <= k < st.jobs.len() && st.jobs[k].id == id ==> (#[trigger] spec_abort(st, id, worker).0.jobs[k]).worker != Some(worker),
{
    match job_index(st.jobs, id) {
        Some(i) => {
            lemma_send_job_keeps_others(st.waiting, st.jobs[i].queue, worker);
            let after = spec_abort(st, id, worker).0;
            assert forall|k: int| 0 <= k < st.jobs.len() && st.jobs[k].id == id implies (#[trigger] after.jobs[k]).worker != Some(worker) by {
                if k != i {
                    assert(st.jobs[k].id == st.jobs[i].id);
                }
            }
        },
        None => {
            assert forall|k: int| 0 <= k < st.jobs.len() && st.jobs[k].id == id implies (#[trigger] st.jobs[k]).worker != Some(worker) by {
                assert(st.jobs[k].id == id);
            }
        },
    }
}

/// After a worker that does not wait disconnects, none of the jobs that it had claimed and
/// listed is claimed by it any more; the jobs stay the same jobs, in the same order.
pub proof fn lemma_disconnect_releases_jobs(st: StateView, worker: u64, ids: Seq<u64>)
    requires
        valid_state(st),
        not_waiting(st, worker),
    ensures
        valid_state(spec_disconnect(st, worker, ids).0),
        not_waiting(spec_disconnect(st, worker, ids).0, worker),
        spec_disconnect(st, worker, ids).0.jobs.len() == st.jobs.len(),
        forall|k: int| 0 <= k < st.jobs.len() ==> (#[trigger] spec_disconnect(st, worker, ids).0.jobs[k]).id == st.jobs[k].id,
        forall|k: int| 0 <= k < st.jobs.len() && ids.contains(st.jobs[k].id) ==> (#[trigger] spec_disconnect(st, worker, ids).0.jobs[k]).worker != Some(worker),
    decreases ids.len(),
{
    if ids.len() > 0 {
        let init = ids.drop_last();
        lemma_disconnect_releases_jobs(st, worker, init);
        let st1 = spec_disconnect(st, worker, init).0;
        lemma_abort_keeps(st1, ids.last(), worker);
        let st2 = spec_abort(st1, ids.last(), worker).0;
        assert(spec_disconnect(st, worker, ids).0 == st2);
        assert forall|k: int| 0 <= k < st.jobs.len() && ids.contains(st.jobs[k].id) implies (#[trigger] st2.jobs[k]).worker != Some(worker) by {
            if st.jobs[k].id == ids.last() {
                assert(st1.jobs[k].id == ids.last());
            } else {
                let j = choose|j: int| 0 <= j < ids.len() && ids[j] == st.jobs[k].id;
                assert(init[j] == st.jobs[k].id);
                assert(init.contains(st.jobs[k].id));
                assert(st1.jobs[k].worker != Some(worker));
                assert(st2.jobs[k] == st1.jobs[k]);
            }
        }
    }
}

/// When a worker that holds a job disconnects, the job goes to the first worker that waits
/// on the job's queue, if one does, and is free otherwise.
pub proof fn lemma_disconnect_hands_job_over(st: StateView, worker: u64, i: int)
    requires
        valid_state(st),
        0 <= i < st.jobs.len(),
        st.jobs[i].worker == Some(worker),
    ensures
        ({
            let id = st.jobs[i].id;
            let (after, sent) = spec_disconnect(st, worker, seq![id]);
            let k = waiter_index(st.waiting, st.jobs[i].queue);
            &&& after.jobs.len() == st.jobs.len()
            &&& after.jobs[i].id == id
            &&& k < st.waiting.len() ==> after.jobs[i].worker == Some(st.waiting[k as int].worker)
                && sent == seq![after.jobs[i]]
                && after.waiting == st.waiting.remove(k as int)
            &&& k >= st.waiting.len() ==> after.jobs[i].worker is None && sent.len() == 0
        }),
{
    let id = st.jobs[i].id;
    let ids = seq![id];
    assert(ids.drop_last() =~= Seq::<u64>::empty());
    assert(ids.last() == id);
    assert(spec_disconnect(st, worker, ids.drop_last()) == (st, Seq::<JobView>::empty()));
    let c = choose|c: int| 0 <= c < st.jobs.len() && #[trigger] st.jobs[c].id == id;
    assert(c == i) by {
        if c != i {
            if c < i {
                assert(st.jobs[c].id != st.jobs[i].id);
            } else {
                assert(st.jobs[i].id != st.jobs[c].id);
            }
        }
    }
    assert(job_index(st.jobs, id) == Some(i));
    let k = waiter_index(st.waiting, st.jobs[i].queue);
    if k < st.waiting.len() {
        let after = spec_abort(st, id, worker).0;
        let c2 = choose|c: int| 0 <= c < after.jobs.len() && #[trigger] after.jobs[c].id == id;
        assert(after.jobs[i].id == id);
        assert(c2 == i) by {
            if c2 != i {
                assert(after.jobs[c2].id == st.jobs[c2].id);
                if c2 < i {
                    assert(st.jobs[c2].id != st.jobs[i].id);
                } else {
                    assert(st.jobs[i].id != st.jobs[c2].id);
                }
            }
        }
        assert(Seq::<JobView>::empty().push(after.jobs[i]) =~= seq![after.jobs[i]]);
    }
}

/// When a free job lies in one of the queues that a worker asks for, the worker gets a job.
pub proof fn lemma_candidate_gets_job(jobs: Seq<JobView>, queues: Seq<Seq<char>>, c: int)
    requires
        0 <= c < jobs.len(),
        is_candidate(jobs[c], queues),
    ensures
        best_job_index(jobs, queues) is Some,
{
    lemma_best_candidate(jobs, queues, jobs.len() as int);
    let b = best_candidate(jobs, queues, jobs.len() as int);
    assert(is_candidate(jobs[c], queues));
    assert(b >= 0);
    assert(is_best(jobs, queues, b));
}

/// The position of the best free job among the first `n` jobs (`-1` when there is none).
spec fn best_candidate(jobs: Seq<JobView>, queues: Seq<Seq<char>>, n: int) -> int
    decreases n,
{
    if n <= 0 {
        -1
    } else {
        let prev = best_candidate(jobs, queues, n - 1);
        if is_candidate(jobs[n - 1], queues) && (prev < 0 || jobs[n - 1].priority > jobs[prev].priority) {
            n - 1
        } else {
            prev
        }
    }
}

proof fn lemma_best_candidate(jobs: Seq<JobView>, queues: Seq<Seq<char>>, n: int)
    requires
        0 <= n <= jobs.len(),
    ensures
        best_candidate(jobs, queues, n) < n,
        best_candidate(jobs, queues, n) >= 0 ==> is_candidate(jobs[best_candidate(jobs, queues, n)], queues),
        best_candidate(jobs, queues, n) < 0 ==> forall|k: int| 0 <= k < n ==> !is_candidate(#[trigger] jobs[k], queues),
        best_candidate(jobs, queues, n) >= 0 ==> forall|k: int| 0 <= k < n && is_candidate(#[trigger] jobs[k], queues) ==> jobs[k].priority < jobs[best_candidate(jobs, queues, n)].priority || (jobs[k].priority == jobs[best_candidate(jobs, queues, n)].priority && best_candidate(jobs, queues, n) <= k),
    decreases n,
{
    if n > 0 {
        lemma_best_candidate(jobs, queues, n - 1);
    }
}

} // verus!
