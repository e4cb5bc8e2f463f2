use vstd::prelude::*;

use crate::jobs::{
    spec_abort, spec_delete, spec_get, spec_put, job_index, valid_state, waiter_index,
    lemma_candidate_gets_job, lemma_delete_removes_job, is_best, best_job_index,
    GetJobWaitResult, Job, JobView, State, StateView, WaiterView,
};
use crate::json::{
    lemma_members_view, members_view, nat_digits, JsonNumber, JsonSpec, JsonValue, NumberView,
};
use crate::request::{Request, RequestView};

verus! {

/// Why a request gets no job.
#[derive(Debug, PartialEq, Eq)]
pub enum HandleRequestError {
    NoJob,
}

/// What a worker gets for a request: a response, or nothing yet because it waits for a job.
#[derive(Debug)]
pub enum Reply {
    Response(JsonValue),
    Wait,
}

/// The outcome of a request: the reply or error, and a copy of a job that went at once to a
/// waiting worker (with that worker set), if one did.
#[derive(Debug)]
pub struct Handled {
    pub result: Result<Reply, HandleRequestError>,
    pub delivered: Option<Job>,
}

/// The model of the reply or error of a request.
pub enum OutcomeView {
    Response(JsonSpec),
    Wait,
    NoJob,
}

/// The number that a natural number is.
pub open spec fn u64_number(n: u64) -> NumberView {
    NumberView { negative: false, digits: nat_digits(n as nat), scale: 0 }
}

/// `{"status":"ok","id":id}`.
pub open spec fn put_response(id: u64) -> JsonSpec {
    JsonSpec::Object(seq![("status"@, JsonSpec::Str("ok"@)), ("id"@, JsonSpec::Number(u64_number(id)))])
}

/// `{"status":"ok","id":...,"job":...,"pri":...,"queue":...}` for a job.
pub open spec fn job_response(job: JobView) -> JsonSpec {
    JsonSpec::Object(
        seq![
            ("status"@, JsonSpec::Str("ok"@)),
            ("id"@, JsonSpec::Number(u64_number(job.id))),
            ("job"@, job.content),
            ("pri"@, JsonSpec::Number(u64_number(job.priority))),
            ("queue"@, JsonSpec::Str(job.queue)),
        ],
    )
}

/// `{"status":"ok"}`.
pub open spec fn ok_response() -> JsonSpec {
    JsonSpec::Object(seq![("status"@, JsonSpec::Str("ok"@))])
}

/// `{"status":"error","error":text}`.
pub open spec fn error_response(text: Seq<char>) -> JsonSpec {
    JsonSpec::Object(seq![("status"@, JsonSpec::Str("error"@)), ("error"@, JsonSpec::Str(text))])
}

/// `{"status":"no-job"}`.
pub open spec fn no_job_response() -> JsonSpec {
    JsonSpec::Object(seq![("status"@, JsonSpec::Str("no-job"@))])
}

/// The state after a request of worker `worker` whose claimed jobs are `claimed`; its reply
/// or error; its claimed jobs after it; and the job that went at once to a waiting worker.
pub open spec fn spec_handle_request(st: StateView, request: RequestView<u64>, worker: u64, claimed: Set<u64>) -> (StateView, OutcomeView, Set<u64>, Option<JobView>) {
    match request {
        RequestView::Put { queue, job, priority } => {
            let after = spec_put(st, queue, job, priority);
            (
                after,
                OutcomeView::Response(put_response(st.next_job_id)),
                claimed,
                if after.jobs.last().worker is Some {
                    Some(after.jobs.last())
                } else {
                    None
                },
            )
        },
        RequestView::Get { queues, wait } => {
            let (after, got) = spec_get(st, queues, worker, wait);
            match got {
                Some(job) => (after, OutcomeView::Response(job_response(job)), claimed.insert(job.id), None),
                None => (after, if wait {
                    OutcomeView::Wait
                } else {
                    OutcomeView::NoJob
                }, claimed, None),
            }
        },
        RequestView::Delete { id } => {
            let (after, deleted) = spec_delete(st, id);
            if deleted {
                (after, OutcomeView::Response(ok_response()), claimed.remove(id), None)
            } else {
                (after, OutcomeView::NoJob, claimed, None)
            }
        },
        RequestView::Abort { id } => {
            let (after, aborted, recipient) = spec_abort(st, id, worker);
            if aborted {
                (
                    after,
                    OutcomeView::Response(ok_response()),
                    claimed.remove(id),
                    if recipient is Some {
                        Some(after.jobs[job_index(after.jobs, id)->Some_0])
                    } else {
                        None
                    },
                )
            } else {
                (after, OutcomeView::NoJob, claimed, None)
            }
        },
    }
}

/// The model of the reply or error of a request.
pub open spec fn outcome_view(r: Result<Reply, HandleRequestError>) -> OutcomeView {
    match r {
        Ok(Reply::Response(v)) => OutcomeView::Response(v@),
        Ok(Reply::Wait) => OutcomeView::Wait,
        Err(_) => OutcomeView::NoJob,
    }
}

fn status_member(status: &str) -> (r: (String, JsonValue))
    ensures
        r.0@ == "status"@,
        r.1@ == JsonSpec::Str(status@),
{
    (String::from_str("status"), JsonValue::String(String::from_str(status)))
}

fn number_member(key: &str, n: u64) -> (r: (String, JsonValue))
    ensures
        r.0@ == key@,
        r.1@ == JsonSpec::Number(u64_number(n)),
{
    (String::from_str(key), JsonValue::Number(JsonNumber::from_u64(n)))
}

/// The response to a put request that gave the job id `id`.
pub fn make_put_response(id: u64) -> (r: JsonValue)
    ensures
        r@ == put_response(id),
{
    let mut members: Vec<(String, JsonValue)> = Vec::new();
    members.push(status_member("ok"));
    members.push(number_member("id", id));
    proof {
        lemma_members_view(members@);
        assert(members_view(members@) =~= seq![("status"@, JsonSpec::Str("ok"@)), ("id"@, JsonSpec::Number(u64_number(id)))]);
    }
    JsonValue::Object(members)
}

/// The response that hands out a job.
pub fn make_job_response(job: &Job) -> (r: JsonValue)
    ensures
        r@ == job_response(job@),
{
    let mut members: Vec<(String, JsonValue)> = Vec::new();
    members.push(status_member("ok"));
    members.push(number_member("id", job.id));
    members.push((String::from_str("job"), job.content.clone()));
    members.push(number_member("pri", job.priority));
    members.push((String::from_str("queue"), JsonValue::String(job.queue.clone())));
    proof {
        lemma_members_view(members@);
        assert(members_view(members@) =~= seq![
            ("status"@, JsonSpec::Str("ok"@)),
            ("id"@, JsonSpec::Number(u64_number(job.id))),
            ("job"@, job.content@),
            ("pri"@, JsonSpec::Number(u64_number(job.priority))),
            ("queue"@, JsonSpec::Str(job.queue@)),
        ]);
    }
    JsonValue::Object(members)
}

/// The response to a delete or abort request that succeeded.
pub fn make_ok_response() -> (r: JsonValue)
    ensures
        r@ == ok_response(),
{
    let mut members: Vec<(String, JsonValue)> = Vec::new();
    members.push(status_member("ok"));
    proof {
        lemma_members_view(members@);
        assert(members_view(members@) =~= seq![("status"@, JsonSpec::Str("ok"@))]);
    }
    JsonValue::Object(members)
}

/// The response to a request that is not valid, with the text that says why.
pub fn make_error_response(error_text: String) -> (r: JsonValue)
    ensures
        r@ == error_response(error_text@),
{
    let mut members: Vec<(String, JsonValue)> = Vec::new();
    members.push(status_member("error"));
    members.push((String::from_str("error"), JsonValue::String(error_text)));
    proof {
        lemma_members_view(members@);
        assert(members_view(members@) =~= seq![("status"@, JsonSpec::Str("error"@)), ("error"@, JsonSpec::Str(error_text@))]);
    }
    JsonValue::Object(members)
}

/// The response to a request that gets no job.
pub fn make_no_job_response() -> (r: JsonValue)
    ensures
        r@ == no_job_response(),
{
    let mut members: Vec<(String, JsonValue)> = Vec::new();
    members.push(status_member("no-job"));
    proof {
        lemma_members_view(members@);
        assert(members_view(members@) =~= seq![("status"@, JsonSpec::Str("no-job"@))]);
    }
    JsonValue::Object(members)
}

/// Adds `id` to the claimed jobs.
fn claim_id(claimed: &mut Vec<u64>, id: u64)
    ensures
        final(claimed)@.to_set() == old(claimed)@.to_set().insert(id),
{
    let mut i: usize = 0;
    while i < claimed.len()
        invariant
            i <= claimed@.len(),
            claimed@ == old(claimed)@,
            forall|k: int| 0 <= k < i ==> claimed@[k] != id,
        decreases claimed@.len() - i,
    {
        if claimed[i] == id {
            assert(claimed@.to_set() =~= claimed@.to_set().insert(id)) by {
                assert(claimed@.contains(id));
            }
            return;
        }
        i += 1;
    }
    let ghost before = claimed@;
    claimed.push(id);
    assert(claimed@.to_set() =~= before.to_set().insert(id)) by {
        assert forall|x: u64| claimed@.contains(x) <==> before.contains(x) || x == id by {
            if claimed@.contains(x) {
                let k = choose|k: int| 0 <= k < claimed@.len() && claimed@[k] == x;
                if k < before.len() {
                    assert(before[k] == x);
                }
            }
            if before.contains(x) {
                let k = choose|k: int| 0 <= k < before.len() && before[k] == x;
                assert(claimed@[k] == x);
            }
            if x == id {
                assert(claimed@[before.len() as int] == id);
            }
        }
    }
}

/// The elements of `s` other than `id`, in order.
pub open spec fn without(s: Seq<u64>, id: u64) -> Seq<u64>
    decreases s.len(),
{
    if s.len() == 0 {
        s
    } else if s.last() == id {
        without(s.drop_last(), id)
    } else {
        without(s.drop_last(), id).push(s.last())
    }
}

proof fn lemma_without(s: Seq<u64>, id: u64)
    ensures
        without(s, id).to_set() == s.to_set().remove(id),
    decreases s.len(),
{
    if s.len() > 0 {
        lemma_without(s.drop_last(), id);
        assert(s =~= s.drop_last().push(s.last()));
        assert(s.to_set() =~= s.drop_last().to_set().insert(s.last())) by {
            s.drop_last().lemma_push_to_set_commute(s.last());
        }
        if s.last() != id {
            without(s.drop_last(), id).lemma_push_to_set_commute(s.last());
        }
        assert(without(s, id).to_set() =~= s.to_set().remove(id));
    } else {
        assert(s.to_set() =~= Set::<u64>::empty());
        assert(without(s, id).to_set() =~= Set::<u64>::empty());
    }
}

/// Removes `id` from the claimed jobs.
fn unclaim_id(claimed: &mut Vec<u64>, id: u64)
    ensures
        final(claimed)@.to_set() == old(claimed)@.to_set().remove(id),
{
    let mut kept: Vec<u64> = Vec::new();
    let mut i: usize = 0;
    assert(claimed@.take(0) =~= Seq::<u64>::empty());
    while i < claimed.len()
        invariant
            i <= claimed@.len(),
            claimed@ == old(claimed)@,
            kept@ == without(claimed@.take(i as int), id),
        decreases claimed@.len() - i,
    {
        let x = claimed[i];
        assert(claimed@.take(i + 1).drop_last() =~= claimed@.take(i as int));
        if x != id {
            kept.push(x);
        }
        i += 1;
    }
    assert(claimed@.take(claimed@.len() as int) =~= claimed@);
    proof {
        lemma_without(claimed@, id);
    }
    *claimed = kept;
}

impl State {
    /// Handles a request of worker `worker`, whose claimed jobs are `claimed_job_ids`, as
    /// [`spec_handle_request`] says.
    pub fn handle_request(&mut self, request: Request<u64>, worker: u64, claimed_job_ids: &mut Vec<u64>) -> (r: Handled)
        requires
            request matches Request::Put { .. } ==> old(self)@.next_job_id < u64::MAX,
        ensures
            valid_state(final(self)@),
            ({
                let (st, outcome, claimed, delivered) = spec_handle_request(old(self)@, request@, worker, old(claimed_job_ids)@.to_set());
                &&& final(self)@ == st
                &&& outcome_view(r.result) == outcome
                &&& final(claimed_job_ids)@.to_set() == claimed
                &&& match r.delivered {
                    Some(job) => delivered == Some(job@),
                    None => delivered is None,
                }
            }),
    {
        match request {
            Request::Put { queue, job, priority } => {
                let (id, delivered) = self.put_job(queue, job, priority);
                Handled { result: Ok(Reply::Response(make_put_response(id))), delivered }
            },
            Request::Get { queues, wait } => {
                let got = if wait {
                    match self.get_job_wait(queues, worker) {
                        GetJobWaitResult::Job(job) => Some(job),
                        GetJobWaitResult::Wait => {
                            return Handled { result: Ok(Reply::Wait), delivered: None };
                        },
                    }
                } else {
                    self.get_job(&queues, worker)
                };
                match got {
                    Some(job) => {
                        claim_id(claimed_job_ids, job.id);
                        Handled { result: Ok(Reply::Response(make_job_response(&job))), delivered: None }
                    },
                    None => Handled { result: Err(HandleRequestError::NoJob), delivered: None },
                }
            },
            Request::Delete { id } => {
                if self.delete_job(id) {
                    unclaim_id(claimed_job_ids, id);
                    Handled { result: Ok(Reply::Response(make_ok_response())), delivered: None }
                } else {
                    Handled { result: Err(HandleRequestError::NoJob), delivered: None }
                }
            },
            Request::Abort { id } => {
                let (aborted, delivered) = self.abort_job(id, worker);
                if aborted {
                    unclaim_id(claimed_job_ids, id);
                    Handled { result: Ok(Reply::Response(make_ok_response())), delivered }
                } else {
                    Handled { result: Err(HandleRequestError::NoJob), delivered: None }
                }
            },
        }
    }

    /// Hands a job that a waiting worker received to that worker: it becomes one of its
    /// claimed jobs, and this is the response.
    pub fn job_delivered(job: &Job, claimed_job_ids: &mut Vec<u64>) -> (r: JsonValue)
        ensures
            r@ == job_response(job@),
            final(claimed_job_ids)@.to_set() == old(claimed_job_ids)@.to_set().insert(job.id),
    {
        claim_id(claimed_job_ids, job.id);
        make_job_response(job)
    }
}

/// A put into a queue that a worker waits on gives the new job, with the next id, at once to
/// the first worker that waits on that queue, and hands that job over for delivery; the put
/// is answered with the new id. When no worker waits on the queue, nothing is handed over.
pub proof fn lemma_put_hands_job_to_waiter(
    st: StateView,
    queue: Seq<char>,
    job: JsonSpec,
    priority: u64,
    worker: u64,
    claimed: Set<u64>,
)
    ensures
        ({
            let (after, outcome, _, delivered) = spec_handle_request(
                st,
                RequestView::Put { queue, job, priority },
                worker,
                claimed,
            );
            let k = waiter_index(st.waiting, queue);
            &&& outcome == OutcomeView::Response(put_response(st.next_job_id))
            &&& k < st.waiting.len() ==> delivered == Some(
                JobView {
                    id: st.next_job_id,
                    content: job,
                    priority,
                    queue,
                    worker: Some(st.waiting[k as int].worker),
                },
            ) && after.jobs.last() == delivered->Some_0
            &&& k >= st.waiting.len() ==> delivered is None && after.jobs.last().worker is None
        }),
{
}

/// When the worker that holds a job aborts it and another worker waits on the job's queue,
/// the abort is answered `ok`, the job goes to the first worker that waits on that queue, and
/// the job, with that worker, is handed over for delivery. When no worker waits on the
/// queue, the job is free again and nothing is handed over.
pub proof fn lemma_abort_hands_job_to_waiter(
    st: StateView,
    worker: u64,
    claimed: Set<u64>,
    i: int,
)
    requires
        valid_state(st),
        0 <= i < st.jobs.len(),
        st.jobs[i].worker == Some(worker),
    ensures
        ({
            let id = st.jobs[i].id;
            let (after, outcome, _, delivered) = spec_handle_request(
                st,
                RequestView::Abort { id },
                worker,
                claimed,
            );
            let k = waiter_index(st.waiting, st.jobs[i].queue);
            &&& outcome == OutcomeView::Response(ok_response())
            &&& after.jobs.len() == st.jobs.len()
            &&& k < st.waiting.len() ==> delivered == Some(
                JobView { worker: Some(st.waiting[k as int].worker), ..st.jobs[i] },
            ) && after.jobs[i] == delivered->Some_0
            &&& k >= st.waiting.len() ==> delivered is None && after.jobs[i] == (JobView {
                worker: None,
                ..st.jobs[i]
            })
        }),
{
    let id = st.jobs[i].id;
    let c = choose|c: int| 0 <= c < st.jobs.len() && #[trigger] st.jobs[c].id == id;
    assert(c == i) by {
        if c != i {
            if c < i {
                assert(st.jobs[c].id != st.jobs[i].id);
            } else {
                assert(st.jobs[i].id != st.jobs[c].id);
            }
        }
    }
    assert(job_index(st.jobs, id) == Some(i));
    let after = spec_abort(st, id, worker).0;
    assert(after.jobs[i].id == id);
    let c2 = choose|c: int| 0 <= c < after.jobs.len() && #[trigger] after.jobs[c].id == id;
    assert(c2 == i) by {
        if c2 != i {
            assert(after.jobs[c2].id == st.jobs[c2].id);
            if c2 < i {
                assert(st.jobs[c2].id != st.jobs[i].id);
            } else {
                assert(st.jobs[i].id != st.jobs[c2].id);
            }
        }
    }
    assert(job_index(after.jobs, id) == Some(i));
}

/// Whether the job is free and in one of the queues.
pub open spec fn free_in(job: JobView, queues: Seq<Seq<char>>) -> bool {
    job.worker is None && queues.contains(job.queue)
}

/// A worker that asks for a job from some queues, while a free job lies in one of them, gets a
/// free job from those queues whose priority no other such job exceeds: it is answered with
/// that job, the job becomes its claim and is held by it, and nothing else changes. When no
/// free job lies in those queues, the state and claims stay as they were, and the worker
/// either waits (it is added, last, to the waiting workers) or is told there is no job.
pub proof fn lemma_get_gives_best_free_job(
    st: StateView,
    queues: Seq<Seq<char>>,
    wait: bool,
    worker: u64,
    claimed: Set<u64>,
)
    ensures
        ({
            let (after, outcome, cl, delivered) = spec_handle_request(
                st,
                RequestView::Get { queues, wait },
                worker,
                claimed,
            );
            &&& delivered is None
            &&& (exists|c: int| 0 <= c < st.jobs.len() && free_in(#[trigger] st.jobs[c], queues))
                ==> exists|i: int|
                0 <= i < st.jobs.len() && free_in(#[trigger] st.jobs[i], queues) && (forall|c: int|
                    0 <= c < st.jobs.len() && free_in(#[trigger] st.jobs[c], queues)
                        ==> st.jobs[c].priority <= st.jobs[i].priority) && outcome
                    == OutcomeView::Response(job_response(st.jobs[i])) && after.jobs
                    == st.jobs.update(i, JobView { worker: Some(worker), ..st.jobs[i] })
                    && after.waiting == st.waiting && cl == claimed.insert(st.jobs[i].id)
            &&& !(exists|c: int| 0 <= c < st.jobs.len() && free_in(#[trigger] st.jobs[c], queues))
                ==> after.jobs == st.jobs && cl == claimed && (wait ==> outcome == OutcomeView::Wait
                && after.waiting == st.waiting.push(WaiterView { worker, queues })) && (!wait
                ==> outcome == OutcomeView::NoJob && after.waiting == st.waiting)
        }),
{
    if exists|c: int| 0 <= c < st.jobs.len() && free_in(#[trigger] st.jobs[c], queues) {
        let c = choose|c: int| 0 <= c < st.jobs.len() && free_in(#[trigger] st.jobs[c], queues);
        lemma_candidate_gets_job(st.jobs, queues, c);
        let i = best_job_index(st.jobs, queues)->Some_0;
        assert(is_best(st.jobs, queues, i));
        assert(free_in(st.jobs[i], queues));
        assert forall|d: int| 0 <= d < st.jobs.len() && free_in(#[trigger] st.jobs[d], queues)
            implies st.jobs[d].priority <= st.jobs[i].priority by {
            assert(crate::jobs::is_candidate(st.jobs[d], queues));
        }
    } else {
        if exists|i: int| is_best(st.jobs, queues, i) {
            let i = choose|i: int| is_best(st.jobs, queues, i);
            assert(free_in(st.jobs[i], queues));
        }
        assert(best_job_index(st.jobs, queues) is None);
    }
}

/// Deleting a job that exists answers `ok`, removes the job and only it, and drops it from the
/// claims; deleting an id that no job has is answered that there is no job, and changes
/// nothing.
pub proof fn lemma_delete_request(st: StateView, id: u64, worker: u64, claimed: Set<u64>)
    requires
        valid_state(st),
    ensures
        ({
            let (after, outcome, cl, delivered) = spec_handle_request(
                st,
                RequestView::Delete { id },
                worker,
                claimed,
            );
            &&& delivered is None
            &&& (exists|i: int| 0 <= i < st.jobs.len() && #[trigger] st.jobs[i].id == id) ==> {
                &&& outcome == OutcomeView::Response(ok_response())
                &&& cl == claimed.remove(id)
                &&& after.jobs.len() == st.jobs.len() - 1
                &&& !(exists|i: int| 0 <= i < after.jobs.len() && #[trigger] after.jobs[i].id == id)
                &&& forall|k: int|
                    0 <= k < st.jobs.len() && st.jobs[k].id != id ==> after.jobs.contains(
                        #[trigger] st.jobs[k],
                    )
                &&& after.waiting == st.waiting
            }
            &&& !(exists|i: int| 0 <= i < st.jobs.len() && #[trigger] st.jobs[i].id == id) ==> {
                &&& outcome == OutcomeView::NoJob
                &&& after == st
                &&& cl == claimed
            }
        }),
{
    lemma_delete_removes_job(st, id);
}

/// Aborting a job that the worker does not hold is answered that there is no job, and
/// changes nothing.
pub proof fn lemma_abort_by_other_worker(st: StateView, id: u64, worker: u64, claimed: Set<u64>)
    requires
        valid_state(st),
        forall|i: int| 0 <= i < st.jobs.len() && #[trigger] st.jobs[i].id == id ==> st.jobs[i].worker
            != Some(worker),
    ensures
        ({
            let (after, outcome, cl, delivered) = spec_handle_request(
                st,
                RequestView::Abort { id },
                worker,
                claimed,
            );
            outcome == OutcomeView::NoJob && after == st && cl == claimed && delivered is None
        }),
{
}

} // verus!
