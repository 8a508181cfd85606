use ipc_broker::client::{awaits_reply, call_answer, has_object_reply, remote_call_request, unanswered_ack, ClientError, ClientSubscriptions};
use ipc_broker::json::JsonValue;
use ipc_broker::rpc::{CallId, RpcRequest, RpcResponse};

fn s(t: &str) -> String {
    t.to_string()
}

#[test]
fn only_answered_requests_wait() {
    assert!(awaits_reply(&RpcRequest::RegisterObject { object_name: s("o") }));
    assert!(awaits_reply(&RpcRequest::HasObject { object_name: s("o") }));
    assert!(awaits_reply(&RpcRequest::Call {
        call_id: CallId(s("c")),
        object_name: s("o"),
        method: s("m"),
        args: JsonValue::Null
    }));
    assert!(!awaits_reply(&RpcRequest::Publish { object_name: s("o"), topic: s("t"), args: JsonValue::Null }));
    assert!(!awaits_reply(&RpcRequest::Subscribe { object_name: s("o"), topic: s("t") }));
    assert!(!awaits_reply(&RpcRequest::RegisterService { object_name: s("o"), service_name: s("x") }));
    assert_eq!(unanswered_ack(), RpcResponse::Event { object_name: s(""), topic: s(""), args: JsonValue::Null });
}

#[test]
fn remote_call_request_has_fresh_id() {
    let a = remote_call_request("Calculator", "add", JsonValue::Null);
    let b = remote_call_request("Calculator", "add", JsonValue::Null);
    match (a, b) {
        (
            RpcRequest::Call { call_id: ca, object_name, method, args },
            RpcRequest::Call { call_id: cb, .. },
        ) => {
            assert_eq!(object_name, "Calculator");
            assert_eq!(method, "add");
            assert_eq!(args, JsonValue::Null);
            assert_eq!(ca.0.len(), 36);
            assert_ne!(ca, cb);
        }
        _ => panic!("not a call"),
    }
}

#[test]
fn has_object_answers() {
    let yes = RpcResponse::HasObjectResult { object_name: s("o"), exists: true };
    let no = RpcResponse::HasObjectResult { object_name: s("o"), exists: false };
    assert_eq!(has_object_reply(&yes), Ok(true));
    assert_eq!(has_object_reply(&no), Ok(false));
    assert_eq!(has_object_reply(&RpcResponse::Registered { object_name: s("o") }), Err(ClientError::UnexpectedResponse));
}

#[test]
fn events_reach_their_listeners() {
    let mut subs = ClientSubscriptions::new();
    subs.subscribe(s("news_obj"), s("news"), 0);
    subs.subscribe(s("news_obj"), s("news1"), 1);
    subs.subscribe(s("news_obj"), s("news"), 2);
    let ev = RpcResponse::Event { object_name: s("news_obj"), topic: s("news"), args: JsonValue::Null };
    assert_eq!(subs.audience(&ev), vec![0, 2]);
    let ev1 = RpcResponse::Event { object_name: s("news_obj"), topic: s("news1"), args: JsonValue::Null };
    assert_eq!(subs.audience(&ev1), vec![1]);
    let other = RpcResponse::Subscribed { object_name: s("news_obj"), topic: s("news") };
    assert_eq!(subs.audience(&other), Vec::<usize>::new());
}

#[test]
fn call_answer_gives_result_or_reason() {
    let ok = RpcResponse::Result { call_id: CallId(s("c")), object_name: s("o"), value: JsonValue::Bool(true) };
    assert_eq!(call_answer(ok), Ok(JsonValue::Bool(true)));
    let failed = RpcResponse::Error { call_id: Some(CallId(s("c"))), object_name: s("o"), message: s("No such object 'o'") };
    assert_eq!(call_answer(failed), Err(ClientError::CallFailed { message: s("No such object 'o'") }));
    let other = RpcResponse::Registered { object_name: s("o") };
    assert_eq!(call_answer(other), Err(ClientError::UnexpectedResponse));
}
