//! Whole exchanges through the broker's routing state, with the worker and
//! client sides played by the library's worker and client decisions.
use ipc_broker::broker::{BrokerAction, BrokerState, Outgoing};
use ipc_broker::calculator::Calculator;
use ipc_broker::client::{has_object_reply, remote_call_request, ClientSubscriptions};
use ipc_broker::json::{JsonNumber, JsonValue};
use ipc_broker::rpc::{ClientId, RpcRequest, RpcResponse};
use ipc_broker::worker::{registration_requests, route_request, WorkerStep};

fn s(t: &str) -> String {
    t.to_string()
}

fn single_delivery(actions: Vec<BrokerAction>) -> (Vec<ClientId>, Outgoing) {
    assert_eq!(actions.len(), 1);
    match actions.into_iter().next().unwrap() {
        BrokerAction::Deliver { to, message } => (to, message),
        other => panic!("unexpected action {other:?}"),
    }
}

fn call_through_broker(b: &mut BrokerState, worker: &ClientId, client: &ClientId, object: &str, method: &str, args: JsonValue) -> JsonValue {
    let (to, forwarded) = single_delivery(b.handle_request(remote_call_request(object, method, args), client));
    assert_eq!(to, vec![worker.clone()]);
    let req = match forwarded {
        Outgoing::Request(r) => r,
        other => panic!("not forwarded: {other:?}"),
    };
    let answer = match route_request(req, &vec![s("Calculator"), s("Logger")]) {
        WorkerStep::Invoke { object: 0, call_id, object_name, method, args } => RpcResponse::Result {
            call_id,
            object_name,
            value: Calculator.call(&method, &args),
        },
        WorkerStep::Invoke { object: 1, call_id, object_name, .. } => RpcResponse::Result {
            call_id,
            object_name,
            value: JsonValue::Null,
        },
        other => panic!("not invoked: {other:?}"),
    };
    let (to, back) = single_delivery(b.handle_response(answer, worker));
    assert_eq!(to, vec![client.clone()]);
    match back {
        Outgoing::Response(RpcResponse::Result { value, .. }) => value,
        other => panic!("not a result: {other:?}"),
    }
}

#[test]
fn client_worker() {
    let mut b = BrokerState::new();
    let worker = b.spawn_client();
    let client = b.spawn_client();
    for req in registration_requests(&vec![s("Calculator"), s("Logger")]) {
        b.handle_request(req, &worker);
    }
    let (_, answer) = single_delivery(b.handle_request(RpcRequest::HasObject { object_name: s("Calculator") }, &client));
    match answer {
        Outgoing::Response(r) => assert_eq!(has_object_reply(&r), Ok(true)),
        other => panic!("not a response: {other:?}"),
    }
    let args = || JsonValue::Array(vec![JsonValue::from_i64(5), JsonValue::from_i64(7)]);
    let response = call_through_broker(&mut b, &worker, &client, "Calculator", "add", args());
    assert_eq!(response, JsonValue::Number(JsonNumber::PosInt(12)));
    let response = call_through_broker(&mut b, &worker, &client, "Calculator", "mul", args());
    assert_eq!(response, JsonValue::Number(JsonNumber::PosInt(35)));
    let response = call_through_broker(&mut b, &worker, &client, "Logger", "method", JsonValue::Null);
    assert_eq!(response, JsonValue::Null);
}

#[test]
fn publish_subscribe() {
    let mut b = BrokerState::new();
    let subscriber = b.spawn_client();
    let publisher = b.spawn_client();
    let mut listeners = ClientSubscriptions::new();
    listeners.subscribe(s("news_obj"), s("news"), 0);
    listeners.subscribe(s("news_obj"), s("news1"), 1);
    b.handle_request(RpcRequest::Subscribe { object_name: s("news_obj"), topic: s("news") }, &subscriber);
    b.handle_request(RpcRequest::Subscribe { object_name: s("news_obj"), topic: s("news1") }, &subscriber);

    let mut received: Vec<Option<JsonValue>> = vec![None, None];
    for (topic, headline) in [("news", "Rust broker eventing works!"), ("news1", "Another news!")] {
        let payload = JsonValue::Object(vec![(s("headline"), JsonValue::String(s(headline)))]);
        let actions = b.handle_request(
            RpcRequest::Publish { object_name: s("news_obj"), topic: s(topic), args: payload },
            &publisher,
        );
        let (to, message) = single_delivery(actions);
        assert_eq!(to, vec![subscriber.clone()]);
        let event = match message {
            Outgoing::Response(r) => r,
            other => panic!("not an event: {other:?}"),
        };
        for listener in listeners.audience(&event) {
            if let RpcResponse::Event { args, .. } = &event {
                received[listener] = Some(match args {
                    JsonValue::Object(entries) => JsonValue::Object(entries.iter().map(|(k, v)| (k.clone(), match v {
                        JsonValue::String(t) => JsonValue::String(t.clone()),
                        _ => JsonValue::Null,
                    })).collect()),
                    _ => JsonValue::Null,
                });
            }
        }
    }
    let headline = |v: &Option<JsonValue>| match v {
        Some(JsonValue::Object(entries)) => entries.iter().find(|(k, _)| k == "headline").map(|(_, v)| match v {
            JsonValue::String(t) => t.clone(),
            _ => String::new(),
        }),
        _ => None,
    };
    assert_eq!(headline(&received[0]), Some(s("Rust broker eventing works!")));
    assert_eq!(headline(&received[1]), Some(s("Another news!")));
}
