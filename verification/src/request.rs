use vstd::prelude::*;

use crate::json::{lemma_values_view, values_view, JsonNumber, JsonSpec, JsonValue, NumberView};
use crate::jobs::names_view;
use crate::prime::{get_member, member_value, str_eq};

verus! {

/// A request of a worker. `N` is the type of the numbers that it holds: as they came in
/// the JSON text, or as job ids and priorities.
#[derive(Debug, PartialEq)]
pub enum Request<N> {
    Put { queue: String, job: JsonValue, priority: N },
    Get { queues: Vec<String>, wait: bool },
    Delete { id: N },
    Abort { id: N },
}

/// The model of a [`Request`].
pub enum RequestView<N> {
    Put { queue: Seq<char>, job: JsonSpec, priority: N },
    Get { queues: Seq<Seq<char>>, wait: bool },
    Delete { id: N },
    Abort { id: N },
}

impl<N: View> View for Request<N> {
    type V = RequestView<N::V>;

    open spec fn view(&self) -> RequestView<N::V> {
        match self {
            Request::Put { queue, job, priority } => RequestView::Put {
                queue: queue@,
                job: job@,
                priority: priority@,
            },
            Request::Get { queues, wait } => RequestView::Get { queues: names_view(queues@), wait: *wait },
            Request::Delete { id } => RequestView::Delete { id: id@ },
            Request::Abort { id } => RequestView::Abort { id: id@ },
        }
    }
}

/// The queue names of a `get` request: all the elements, when they are all strings.
pub open spec fn string_elements(items: Seq<JsonSpec>) -> Option<Seq<Seq<char>>>
    decreases items.len(),
{
    if items.len() == 0 {
        Some(Seq::empty())
    } else {
        match (string_elements(items.drop_last()), items.last()) {
            (Some(names), JsonSpec::Str(s)) => Some(names.push(s)),
            _ => None,
        }
    }
}

/// The request that a JSON value states, or the text of the error that answers it.
pub open spec fn spec_parse_request(v: JsonSpec) -> Result<RequestView<NumberView>, Seq<char>> {
    match v {
        JsonSpec::Object(m) => match member_value(m, "request"@) {
            Some(JsonSpec::Str(request)) => if request == "put"@ {
                match member_value(m, "queue"@) {
                    Some(JsonSpec::Str(queue)) => match member_value(m, "job"@) {
                        Some(JsonSpec::Object(job)) => match member_value(m, "pri"@) {
                            Some(JsonSpec::Number(priority)) => Ok(
                                RequestView::Put { queue, job: JsonSpec::Object(job), priority },
                            ),
                            _ => Err("put request is missing number pri field"@),
                        },
                        _ => Err("put request is missing json object job field"@),
                    },
                    _ => Err("put request is missing string queue field"@),
                }
            } else if request == "get"@ {
                match member_value(m, "queues"@) {
                    Some(JsonSpec::Array(items)) => match string_elements(items) {
                        Some(queues) => Ok(
                            RequestView::Get {
                                queues,
                                wait: match member_value(m, "wait"@) {
                                    Some(JsonSpec::Boolean(b)) => b,
                                    _ => false,
                                },
                            },
                        ),
                        None => Err("queues field in get request has to contain only strings"@),
                    },
                    _ => Err("get request is missing array queues field"@),
                }
            } else if request == "delete"@ {
                match member_value(m, "id"@) {
                    Some(JsonSpec::Number(id)) => Ok(RequestView::Delete { id }),
                    _ => Err("delete request is missing integer id field"@),
                }
            } else if request == "abort"@ {
                match member_value(m, "id"@) {
                    Some(JsonSpec::Number(id)) => Ok(RequestView::Abort { id }),
                    _ => Err("abort request is missing integer id field"@),
                }
            } else {
                Err("invalid request field"@)
            },
            _ => Err("request is missing field 'request'"@),
        },
        _ => Err("invalid json request"@),
    }
}

/// The model of the outcome of [`parse_request`].
pub open spec fn request_outcome(r: Result<Request<JsonNumber>, String>) -> Result<RequestView<NumberView>, Seq<char>> {
    match r {
        Ok(req) => Ok(req@),
        Err(e) => Err(e@),
    }
}

fn queue_names(items: &Vec<JsonValue>) -> (r: Option<Vec<String>>)
    ensures
        match string_elements(values_view(items@)) {
            Some(names) => r is Some && names_view(r->Some_0@) == names,
            None => r is None,
        },
{
    proof {
        lemma_values_view(items@);
    }
    let ghost a = values_view(items@);
    let mut queues: Vec<String> = Vec::new();
    let mut i: usize = 0;
    assert(a.take(0) =~= Seq::<JsonSpec>::empty());
    assert(names_view(queues@) =~= Seq::<Seq<char>>::empty());
    while i < items.len()
        invariant
            i <= items@.len(),
            a == values_view(items@),
            a.len() == items@.len(),
            forall|k: int| 0 <= k < items@.len() ==> #[trigger] a[k] == items@[k]@,
            string_elements(a.take(i as int)) == Some(names_view(queues@)),
        decreases items@.len() - i,
    {
        proof {
            assert(a.take(i + 1).drop_last() =~= a.take(i as int));
            assert(a.take(i + 1).last() == a[i as int]);
        }
        match &items[i] {
            JsonValue::String(queue) => {
                let ghost before = queues@;
                queues.push(queue.clone());
                assert(names_view(queues@) =~= names_view(before).push(queue@));
            },
            _ => {
                proof {
                    assert(string_elements(a.take(i + 1)) is None);
                    lemma_string_elements_none(a, i + 1);
                }
                return None;
            },
        }
        i += 1;
    }
    assert(a.take(items@.len() as int) =~= a);
    Some(queues)
}

proof fn lemma_string_elements_none(a: Seq<JsonSpec>, n: int)
    requires
        0 <= n <= a.len(),
        string_elements(a.take(n)) is None,
    ensures
        string_elements(a) is None,
    decreases a.len() - n,
{
    if n < a.len() {
        assert(a.take(n + 1).drop_last() =~= a.take(n));
        lemma_string_elements_none(a, n + 1);
    } else {
        assert(a.take(n) =~= a);
    }
}

/// The request that a JSON value states, as [`spec_parse_request`] says, or the text of the
/// error that answers it. The numbers stay as they are in the JSON value.
pub fn parse_request(json_val: &JsonValue) -> (r: Result<Request<JsonNumber>, String>)
    ensures
        request_outcome(r) == spec_parse_request(json_val@),
{
    if let JsonValue::Object(json_obj) = json_val {
        match get_member(json_obj, "request") {
            Some(JsonValue::String(request)) => {
                if str_eq(request.as_str(), "put") {
                    let queue = match get_member(json_obj, "queue") {
                        Some(JsonValue::String(queue)) => queue,
                        _ => {
                            return Err(String::from_str("put request is missing string queue field"));
                        },
                    };
                    let job = match get_member(json_obj, "job") {
                        Some(job) => match job {
                            JsonValue::Object(_) => job,
                            _ => {
                                return Err(String::from_str("put request is missing json object job field"));
                            },
                        },
                        _ => {
                            return Err(String::from_str("put request is missing json object job field"));
                        },
                    };
                    let priority = match get_member(json_obj, "pri") {
                        Some(JsonValue::Number(priority)) => priority,
                        _ => {
                            return Err(String::from_str("put request is missing number pri field"));
                        },
                    };
                    Ok(Request::Put { queue: queue.clone(), job: job.clone(), priority: priority.copy() })
                } else if str_eq(request.as_str(), "get") {
                    let queues = match get_member(json_obj, "queues") {
                        Some(JsonValue::Array(queue_json_vals)) => match queue_names(queue_json_vals) {
                            Some(queues) => queues,
                            None => {
                                return Err(String::from_str("queues field in get request has to contain only strings"));
                            },
                        },
                        _ => {
                            return Err(String::from_str("get request is missing array queues field"));
                        },
                    };
                    let wait = match get_member(json_obj, "wait") {
                        Some(JsonValue::Boolean(wait)) => *wait,
                        _ => false,
                    };
                    Ok(Request::Get { queues, wait })
                } else if str_eq(request.as_str(), "delete") {
                    match get_member(json_obj, "id") {
                        Some(JsonValue::Number(id)) => Ok(Request::Delete { id: id.copy() }),
                        _ => Err(String::from_str("delete request is missing integer id field")),
                    }
                } else if str_eq(request.as_str(), "abort") {
                    match get_member(json_obj, "id") {
                        Some(JsonValue::Number(id)) => Ok(Request::Abort { id: id.copy() }),
                        _ => Err(String::from_str("abort request is missing integer id field")),
                    }
                } else {
                    Err(String::from_str("invalid request field"))
                }
            },
            _ => Err(String::from_str("request is missing field 'request'")),
        }
    } else {
        Err(String::from_str("invalid json request"))
    }
}

proof fn lemma_string_elements_all(items: Seq<JsonSpec>)
    requires
        forall|i: int| 0 <= i < items.len() ==> #[trigger] items[i] is Str,
    ensures
        string_elements(items) matches Some(names) && names.len() == items.len() && forall|i: int|
            0 <= i < items.len() ==> JsonSpec::Str(#[trigger] names[i]) == items[i],
    decreases items.len(),
{
    if items.len() > 0 {
        let init = items.drop_last();
        assert forall|i: int| 0 <= i < init.len() implies #[trigger] init[i] is Str by {
            assert(init[i] == items[i]);
        }
        lemma_string_elements_all(init);
        assert(items[items.len() - 1] is Str);
        let names = string_elements(init)->Some_0;
        assert forall|i: int| 0 <= i < items.len() implies JsonSpec::Str(
            #[trigger] string_elements(items)->Some_0[i],
        ) == items[i] by {
            if i < init.len() {
                assert(init[i] == items[i]);
            }
        }
    }
}

/// A `get` request whose `queues` member is an array of strings asks for exactly those
/// queues, in order, and waits exactly when its member `wait` is the boolean `true`: with no
/// member `wait`, or one that is not a boolean, it does not wait.
pub proof fn lemma_get_waits_only_when_asked(m: Seq<(Seq<char>, JsonSpec)>, items: Seq<JsonSpec>)
    requires
        member_value(m, "request"@) == Some(JsonSpec::Str("get"@)),
        member_value(m, "queues"@) == Some(JsonSpec::Array(items)),
        forall|i: int| 0 <= i < items.len() ==> #[trigger] items[i] is Str,
    ensures
        spec_parse_request(JsonSpec::Object(m)) matches Ok(RequestView::Get { queues, wait })
            && queues.len() == items.len() && (forall|i: int|
            0 <= i < items.len() ==> JsonSpec::Str(#[trigger] queues[i]) == items[i]) && (wait
            <==> member_value(m, "wait"@) == Some(JsonSpec::Boolean(true))),
{
    reveal_strlit("get");
    reveal_strlit("put");
    lemma_string_elements_all(items);
    assert("get"@ != "put"@) by {
        assert("get"@[0] != "put"@[0]);
    }
}

} // verus!
