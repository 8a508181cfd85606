//! The library's laws on concrete values.
use ipc_broker::broker::{BrokerAction, BrokerState, Outgoing};
use ipc_broker::client::ClientSubscriptions;
use ipc_broker::framing::{read_packet, write_packet};
use ipc_broker::json::JsonValue;
use ipc_broker::rpc::{CallId, ClientId, RpcRequest, RpcResponse};

fn s(t: &str) -> String {
    t.to_string()
}

#[test]
fn law_frame_round_trip_example() {
    let data = b"{\"RegisterObject\":{\"object_name\":\"x\"}}".to_vec();
    let mut bytes = write_packet(&data);
    let len = bytes.len();
    bytes.extend_from_slice(b"rest");
    assert_eq!(read_packet(&bytes), Some((data.clone(), len)));
    assert_eq!(read_packet(&bytes[..len - 1]), None);
}

#[test]
fn law_disconnect_forgets_client_example() {
    let mut b = BrokerState::new();
    let c = ClientId(s("c"));
    let other = ClientId(s("o"));
    b.connect_client(&c);
    b.connect_client(&other);
    b.handle_register_object(s("x"), &c);
    b.handle_subscribe(s("x"), s("t"), &c);
    b.handle_call(CallId(s("k")), s("x"), s("m"), JsonValue::Null, &c);
    b.cleanup_client(&c);
    assert_eq!(
        b.has_object(s("x"), &other),
        vec![BrokerAction::Deliver {
            to: vec![other.clone()],
            message: Outgoing::Response(RpcResponse::HasObjectResult { object_name: s("x"), exists: false }),
        }]
    );
    assert_eq!(b.handle_publish(s("x"), s("t"), JsonValue::Null), vec![]);
    let answer = RpcResponse::Result { call_id: CallId(s("k")), object_name: s("x"), value: JsonValue::Null };
    assert_eq!(b.handle_response(answer, &other), vec![]);
    // Messages for the gone client are no longer produced.
    assert_eq!(b.has_object(s("x"), &c), vec![]);
}

#[test]
fn law_events_reach_only_subscribers_example() {
    let mut b = BrokerState::new();
    for name in ["a", "b", "c"] {
        b.connect_client(&ClientId(s(name)));
    }
    b.handle_subscribe(s("o"), s("t"), &ClientId(s("a")));
    b.handle_subscribe(s("o"), s("u"), &ClientId(s("b")));
    b.handle_subscribe(s("p"), s("t"), &ClientId(s("c")));
    b.handle_subscribe(s("o"), s("t"), &ClientId(s("gone")));
    let acts = b.handle_request(RpcRequest::Publish { object_name: s("o"), topic: s("t"), args: JsonValue::Bool(true) }, &ClientId(s("b")));
    assert_eq!(
        acts,
        vec![BrokerAction::Deliver {
            to: vec![ClientId(s("a"))],
            message: Outgoing::Response(RpcResponse::Event { object_name: s("o"), topic: s("t"), args: JsonValue::Bool(true) }),
        }]
    );
}

#[test]
fn law_listener_hears_its_topic_example() {
    let mut subs = ClientSubscriptions::new();
    subs.subscribe(s("o"), s("t"), 4);
    let before = subs.audience(&RpcResponse::Event { object_name: s("o"), topic: s("t"), args: JsonValue::Null });
    subs.subscribe(s("o"), s("t"), 9);
    let after = subs.audience(&RpcResponse::Event { object_name: s("o"), topic: s("t"), args: JsonValue::Null });
    assert_eq!(before, vec![4]);
    assert_eq!(after, vec![4, 9]);
    let elsewhere = subs.audience(&RpcResponse::Event { object_name: s("o"), topic: s("x"), args: JsonValue::Null });
    assert_eq!(elsewhere, Vec::<usize>::new());
}

#[test]
fn law_each_subscriber_hears_an_event_once_example() {
    let mut b = BrokerState::new();
    let a = ClientId(s("a"));
    b.connect_client(&a);
    b.handle_subscribe(s("o"), s("t"), &a);
    b.handle_subscribe(s("o"), s("t"), &a);
    assert_eq!(
        b.handle_publish(s("o"), s("t"), JsonValue::Null),
        vec![BrokerAction::Deliver {
            to: vec![a.clone()],
            message: Outgoing::Response(RpcResponse::Event { object_name: s("o"), topic: s("t"), args: JsonValue::Null }),
        }]
    );
}

#[test]
fn law_cleanup_is_idempotent_example() {
    let mut b = BrokerState::new();
    let c = ClientId(s("c"));
    let other = ClientId(s("o"));
    b.connect_client(&c);
    b.connect_client(&other);
    b.handle_register_object(s("x"), &other);
    b.handle_subscribe(s("x"), s("t"), &other);
    b.handle_subscribe(s("x"), s("t"), &c);
    b.cleanup_client(&c);
    let once = (b.has_object(s("x"), &other), b.handle_publish(s("x"), s("t"), JsonValue::Null), b.list_objects("listObjects"));
    b.cleanup_client(&c);
    let twice = (b.has_object(s("x"), &other), b.handle_publish(s("x"), s("t"), JsonValue::Null), b.list_objects("listObjects"));
    assert_eq!(once, twice);
}

#[test]
fn law_running_service_owned_by_its_worker_example() {
    let mut b = BrokerState::new();
    let client = ClientId(s("client"));
    let worker = ClientId(s("svc"));
    b.connect_client(&client);
    b.connect_client(&worker);
    b.handle_register_service(s("printer"), s("printer.service"), &client);
    b.handle_register_object(s("printer"), &worker);
    // The service runs on `svc`, which owns it: when `svc` leaves, the
    // service stops, and the next call starts it again.
    b.cleanup_client(&worker);
    let acts = b.handle_call(CallId(s("p")), s("printer"), s("print"), JsonValue::Null, &client);
    assert_eq!(acts, vec![BrokerAction::StartService { unit: s("printer.service") }]);
}
