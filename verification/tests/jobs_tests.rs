use protohackers::centre::{
    make_error_response, make_no_job_response, HandleRequestError, Reply,
};
use protohackers::jobs::{GetJobWaitResult, Job, State};
use protohackers::json::{JsonNumber, JsonValue};
use protohackers::parse::parse_json;
use protohackers::request::{parse_request, Request};

fn string(s: &str) -> JsonValue {
    JsonValue::String(s.to_string())
}

fn object(members: Vec<(&str, JsonValue)>) -> JsonValue {
    JsonValue::Object(members.into_iter().map(|(k, v)| (k.to_string(), v)).collect())
}

fn names(queues: &[&str]) -> Vec<String> {
    queues.iter().map(|q| q.to_string()).collect()
}

fn job_content(n: u64) -> JsonValue {
    object(vec![("n", JsonValue::Number(JsonNumber::from_u64(n)))])
}

fn response(r: Result<Reply, HandleRequestError>) -> JsonValue {
    match r {
        Ok(Reply::Response(v)) => v,
        other => panic!("expected a response, got {:?}", other),
    }
}

#[test]
fn test_implicit_abort() {
    // A worker that waits gets a job that another worker held when that one disconnects.
    let mut state = State::new();

    let put_request = Request::Put {
        queue: "some-queue".to_string(),
        job: object(vec![("name", string("some name"))]),
        priority: 100,
    };
    let handled = state.handle_request(put_request, 0, &mut Vec::new());
    assert!(handled.delivered.is_none());
    let put_response = response(handled.result);
    assert_eq!(put_response.to_string(), r#"{"status":"ok","id":0}"#);
    let job_id = 0u64;

    let get_request = || Request::Get {
        queues: names(&["some-queue", "other-queue"]),
        wait: true,
    };
    let first_worker_id = 1;
    let second_worker_id = 2;

    let mut first_claimed = Vec::new();
    let first = state.handle_request(get_request(), first_worker_id, &mut first_claimed);
    assert_eq!(
        response(first.result).to_string(),
        r#"{"status":"ok","id":0,"job":{"name":"some name"},"pri":100,"queue":"some-queue"}"#
    );
    assert_eq!(first_claimed, vec![job_id]);

    let mut second_claimed = Vec::new();
    let second = state.handle_request(get_request(), second_worker_id, &mut second_claimed);
    assert!(matches!(second.result, Ok(Reply::Wait)));

    let delivered = state.handle_disconnect(first_worker_id, &vec![job_id]);
    assert_eq!(delivered.len(), 1);
    assert_eq!(delivered[0].id, job_id);
    assert_eq!(delivered[0].worker, Some(second_worker_id));
    assert_eq!(delivered[0].content, object(vec![("name", string("some name"))]));
    assert_eq!(delivered[0].priority, 100);
    assert_eq!(delivered[0].queue, "some-queue");

    let reply = State::job_delivered(&delivered[0], &mut second_claimed);
    assert_eq!(
        reply.to_string(),
        r#"{"status":"ok","id":0,"job":{"name":"some name"},"pri":100,"queue":"some-queue"}"#
    );
    assert_eq!(second_claimed, vec![job_id]);
}

#[test]
fn highest_priority_first_then_earliest() {
    let mut state = State::new();
    assert_eq!(state.put_job("q1".to_string(), job_content(0), 10).0, 0);
    assert_eq!(state.put_job("q2".to_string(), job_content(1), 30).0, 1);
    assert_eq!(state.put_job("q1".to_string(), job_content(2), 30).0, 2);
    assert_eq!(state.put_job("q3".to_string(), job_content(3), 99).0, 3);

    let queues = names(&["q1", "q2"]);
    let first = state.get_job(&queues, 7).unwrap();
    assert_eq!((first.id, first.priority, first.worker), (1, 30, None));
    let second = state.get_job(&queues, 7).unwrap();
    assert_eq!(second.id, 2);
    let third = state.get_job(&queues, 8).unwrap();
    assert_eq!(third.id, 0);
    assert!(state.get_job(&queues, 8).is_none());
    assert_eq!(state.get_job(&names(&["q3"]), 8).unwrap().id, 3);
}

#[test]
fn delete_removes_a_job_once() {
    let mut state = State::new();
    state.put_job("q".to_string(), job_content(0), 1);
    state.put_job("q".to_string(), job_content(1), 2);
    assert!(state.delete_job(1));
    assert!(!state.delete_job(1));
    assert!(!state.delete_job(5));
    assert_eq!(state.get_job(&names(&["q"]), 3).unwrap().id, 0);
    assert!(state.delete_job(0));
    assert!(state.get_job(&names(&["q"]), 3).is_none());
}

#[test]
fn only_the_claiming_worker_aborts() {
    let mut state = State::new();
    state.put_job("q".to_string(), job_content(0), 1);
    let job = state.get_job(&names(&["q"]), 7).unwrap();
    assert!(state.get_job(&names(&["q"]), 8).is_none());
    assert!(!state.abort_job(job.id, 8).0);
    let (aborted, delivered) = state.abort_job(job.id, 7);
    assert!(aborted);
    assert!(delivered.is_none());
    assert!(!state.abort_job(job.id, 7).0);
    assert_eq!(state.get_job(&names(&["q"]), 8).unwrap().id, 0);
}

#[test]
fn a_new_job_goes_to_the_first_waiting_worker() {
    let mut state = State::new();
    assert!(matches!(state.get_job_wait(names(&["a", "b"]), 5), GetJobWaitResult::Wait));
    assert!(matches!(state.get_job_wait(names(&["b"]), 6), GetJobWaitResult::Wait));
    let (id, delivered) = state.put_job("b".to_string(), job_content(0), 4);
    assert_eq!(id, 0);
    let delivered: Job = delivered.unwrap();
    assert_eq!((delivered.id, delivered.worker), (0, Some(5)));
    let (_, delivered) = state.put_job("b".to_string(), job_content(1), 4);
    assert_eq!(delivered.unwrap().worker, Some(6));
    let (_, delivered) = state.put_job("b".to_string(), job_content(2), 4);
    assert!(delivered.is_none());
    match state.get_job_wait(names(&["b"]), 9) {
        GetJobWaitResult::Job(job) => assert_eq!((job.id, job.worker), (2, None)),
        GetJobWaitResult::Wait => panic!("a free job was there"),
    }
}

#[test]
fn an_aborted_job_goes_to_a_waiting_worker() {
    let mut state = State::new();
    state.put_job("q".to_string(), job_content(0), 1);
    let job = state.get_job(&names(&["q"]), 1).unwrap();
    assert!(matches!(state.get_job_wait(names(&["q"]), 2), GetJobWaitResult::Wait));
    let (aborted, delivered) = state.abort_job(job.id, 1);
    assert!(aborted);
    let delivered = delivered.unwrap();
    assert_eq!((delivered.id, delivered.worker), (0, Some(2)));
    assert!(!state.abort_job(job.id, 1).0);
    assert!(state.abort_job(job.id, 2).0);
}

#[test]
fn worker_ids_count_up() {
    let mut state = State::new();
    assert_eq!(state.next_worker_id(), 0);
    assert_eq!(state.next_worker_id(), 1);
    assert!(state.can_put_job());
}

#[test]
fn requests_report_missing_jobs() {
    let mut state = State::new();
    let mut claimed = Vec::new();
    let r = state.handle_request(Request::Get { queues: names(&["q"]), wait: false }, 1, &mut claimed);
    assert_eq!(r.result.unwrap_err(), HandleRequestError::NoJob);
    let r = state.handle_request(Request::Delete { id: 3 }, 1, &mut claimed);
    assert_eq!(r.result.unwrap_err(), HandleRequestError::NoJob);
    let r = state.handle_request(Request::Abort { id: 3 }, 1, &mut claimed);
    assert_eq!(r.result.unwrap_err(), HandleRequestError::NoJob);
    assert_eq!(make_no_job_response().to_string(), r#"{"status":"no-job"}"#);
    assert_eq!(
        make_error_response("bad".to_string()).to_string(),
        r#"{"status":"error","error":"bad"}"#
    );
}

#[test]
fn delete_and_abort_release_the_claim() {
    let mut state = State::new();
    let mut claimed = Vec::new();
    state.handle_request(
        Request::Put { queue: "q".to_string(), job: job_content(0), priority: 5 },
        1,
        &mut claimed,
    );
    state.handle_request(
        Request::Put { queue: "q".to_string(), job: job_content(1), priority: 5 },
        1,
        &mut claimed,
    );
    let r = state.handle_request(Request::Get { queues: names(&["q"]), wait: false }, 1, &mut claimed);
    assert!(matches!(r.result, Ok(Reply::Response(_))));
    let r = state.handle_request(Request::Get { queues: names(&["q"]), wait: false }, 1, &mut claimed);
    assert!(matches!(r.result, Ok(Reply::Response(_))));
    claimed.sort();
    assert_eq!(claimed, vec![0, 1]);
    let r = state.handle_request(Request::Abort { id: 0 }, 1, &mut claimed);
    assert_eq!(response(r.result).to_string(), r#"{"status":"ok"}"#);
    assert_eq!(claimed, vec![1]);
    let r = state.handle_request(Request::Delete { id: 1 }, 2, &mut claimed);
    assert_eq!(response(r.result).to_string(), r#"{"status":"ok"}"#);
    assert!(claimed.is_empty());
}

fn parsed(text: &str) -> Result<Request<JsonNumber>, String> {
    parse_request(&parse_json(text).unwrap())
}

#[test]
fn requests_are_read_from_json() {
    assert_eq!(
        parsed(r#"{"request":"put","queue":"q","job":{"a":1},"pri":3}"#),
        Ok(Request::Put {
            queue: "q".to_string(),
            job: object(vec![("a", JsonValue::Number(JsonNumber::from_u64(1)))]),
            priority: JsonNumber::from_u64(3),
        })
    );
    assert_eq!(
        parsed(r#"{"request":"get","queues":["a","b"],"wait":true}"#),
        Ok(Request::Get { queues: names(&["a", "b"]), wait: true })
    );
    assert_eq!(
        parsed(r#"{"request":"get","queues":[],"wait":"yes"}"#),
        Ok(Request::Get { queues: vec![], wait: false })
    );
    assert_eq!(
        parsed(r#"{"request":"delete","id":12}"#),
        Ok(Request::Delete { id: JsonNumber::from_u64(12) })
    );
    assert_eq!(
        parsed(r#"{"id":1.5,"request":"abort"}"#),
        Ok(Request::Abort { id: JsonNumber::from_parts(false, vec![1], vec![5]) })
    );
}

#[test]
fn malformed_requests_get_their_error_text() {
    let cases = [
        (r#"[1]"#, "invalid json request"),
        (r#"{"queue":"q"}"#, "request is missing field 'request'"),
        (r#"{"request":1}"#, "request is missing field 'request'"),
        (r#"{"request":"fly"}"#, "invalid request field"),
        (r#"{"request":"put","job":{},"pri":1}"#, "put request is missing string queue field"),
        (r#"{"request":"put","queue":"q","job":[],"pri":1}"#, "put request is missing json object job field"),
        (r#"{"request":"put","queue":"q","pri":1}"#, "put request is missing json object job field"),
        (r#"{"request":"put","queue":"q","job":{},"pri":"1"}"#, "put request is missing number pri field"),
        (r#"{"request":"get","queues":"q"}"#, "get request is missing array queues field"),
        (r#"{"request":"get","queues":["q",1]}"#, "queues field in get request has to contain only strings"),
        (r#"{"request":"delete"}"#, "delete request is missing integer id field"),
        (r#"{"request":"abort","id":null}"#, "abort request is missing integer id field"),
    ];
    for (text, error) in cases {
        assert_eq!(parsed(text), Err(error.to_string()), "{}", text);
    }
}
