use ipc_broker::activate::{ServiceActivationFile, ServiceState};
use ipc_broker::broker::{BrokerAction, BrokerState, Outgoing};
use ipc_broker::json::{JsonNumber, JsonValue};
use ipc_broker::rpc::{CallId, ClientId, RpcRequest, RpcResponse};

fn id(s: &str) -> ClientId {
    ClientId(s.to_string())
}

fn text(s: &str) -> String {
    s.to_string()
}

fn num(n: u64) -> JsonValue {
    JsonValue::Number(JsonNumber::PosInt(n))
}

fn deliver(to: &[&str], message: Outgoing) -> BrokerAction {
    BrokerAction::Deliver { to: to.iter().map(|s| id(s)).collect(), message }
}

fn broker_with(clients: &[&str]) -> BrokerState {
    let mut b = BrokerState::new();
    for c in clients {
        b.connect_client(&id(c));
    }
    b
}

#[test]
fn register_object_is_confirmed_and_found() {
    let mut b = broker_with(&["worker", "client"]);
    let acts = b.handle_request(RpcRequest::RegisterObject { object_name: text("Calculator") }, &id("worker"));
    assert_eq!(
        acts,
        vec![deliver(&["worker"], Outgoing::Response(RpcResponse::Registered { object_name: text("Calculator") }))]
    );
    let acts = b.handle_request(RpcRequest::HasObject { object_name: text("Calculator") }, &id("client"));
    assert_eq!(
        acts,
        vec![deliver(
            &["client"],
            Outgoing::Response(RpcResponse::HasObjectResult { object_name: text("Calculator"), exists: true })
        )]
    );
    let acts = b.handle_request(RpcRequest::HasObject { object_name: text("Logger") }, &id("client"));
    assert_eq!(
        acts,
        vec![deliver(
            &["client"],
            Outgoing::Response(RpcResponse::HasObjectResult { object_name: text("Logger"), exists: false })
        )]
    );
}

#[test]
fn call_goes_to_owner_and_result_back_to_caller() {
    let mut b = broker_with(&["worker", "client"]);
    b.handle_request(RpcRequest::RegisterObject { object_name: text("Calculator") }, &id("worker"));
    let args = JsonValue::Array(vec![num(5), num(7)]);
    let call = RpcRequest::Call {
        call_id: CallId(text("c1")),
        object_name: text("Calculator"),
        method: text("add"),
        args: JsonValue::Array(vec![num(5), num(7)]),
    };
    let acts = b.handle_request(call, &id("client"));
    assert_eq!(
        acts,
        vec![deliver(
            &["worker"],
            Outgoing::Request(RpcRequest::Call {
                call_id: CallId(text("c1")),
                object_name: text("Calculator"),
                method: text("add"),
                args,
            })
        )]
    );
    let result = RpcResponse::Result { call_id: CallId(text("c1")), object_name: text("Calculator"), value: num(12) };
    let acts = b.handle_response(result, &id("worker"));
    assert_eq!(
        acts,
        vec![deliver(
            &["client"],
            Outgoing::Response(RpcResponse::Result {
                call_id: CallId(text("c1")),
                object_name: text("Calculator"),
                value: num(12),
            })
        )]
    );
    // The call is answered once: a second result reaches nobody.
    let again = RpcResponse::Result { call_id: CallId(text("c1")), object_name: text("Calculator"), value: num(12) };
    assert_eq!(b.handle_response(again, &id("worker")), vec![]);
}

#[test]
fn error_with_call_id_is_routed_but_other_responses_are_not() {
    let mut b = broker_with(&["worker", "client"]);
    b.handle_request(RpcRequest::RegisterObject { object_name: text("obj") }, &id("worker"));
    b.handle_call(CallId(text("c9")), text("obj"), text("m"), JsonValue::Null, &id("client"));
    let err = RpcResponse::Error { call_id: Some(CallId(text("c9"))), object_name: text("obj"), message: text("boom") };
    let acts = b.handle_response(err, &id("worker"));
    assert_eq!(
        acts,
        vec![deliver(
            &["client"],
            Outgoing::Response(RpcResponse::Error {
                call_id: Some(CallId(text("c9"))),
                object_name: text("obj"),
                message: text("boom"),
            })
        )]
    );
    let no_id = RpcResponse::Error { call_id: None, object_name: text("obj"), message: text("boom") };
    assert_eq!(b.handle_response(no_id, &id("worker")), vec![]);
    let registered = RpcResponse::Registered { object_name: text("obj") };
    assert_eq!(b.handle_response(registered, &id("worker")), vec![]);
}

#[test]
fn unknown_object_call_is_answered_with_error() {
    let mut b = broker_with(&["client"]);
    let acts = b.handle_call(CallId(text("c2")), text("nobody"), text("m"), JsonValue::Null, &id("client"));
    assert_eq!(
        acts,
        vec![deliver(
            &["client"],
            Outgoing::Response(RpcResponse::Error {
                call_id: Some(CallId(text("c2"))),
                object_name: text("nobody"),
                message: text("No such object 'nobody'"),
            })
        )]
    );
}

#[test]
fn messages_to_unconnected_clients_are_dropped() {
    let mut b = BrokerState::new();
    let acts = b.handle_register_object(text("obj"), &id("ghost"));
    assert_eq!(acts, vec![]);
}

#[test]
fn subscribers_receive_published_events() {
    let mut b = broker_with(&["s1", "s2", "s3", "publisher"]);
    let acts = b.handle_subscribe(text("news_obj"), text("news"), &id("s1"));
    assert_eq!(
        acts,
        vec![deliver(
            &["s1"],
            Outgoing::Response(RpcResponse::Subscribed { object_name: text("news_obj"), topic: text("news") })
        )]
    );
    b.handle_subscribe(text("news_obj"), text("news"), &id("s2"));
    b.handle_subscribe(text("news_obj"), text("news"), &id("s1"));
    b.handle_subscribe(text("news_obj"), text("news1"), &id("s3"));
    let args = JsonValue::String(text("Rust broker eventing works!"));
    let acts = b.handle_request(
        RpcRequest::Publish {
            object_name: text("news_obj"),
            topic: text("news"),
            args: JsonValue::String(text("Rust broker eventing works!")),
        },
        &id("publisher"),
    );
    assert_eq!(
        acts,
        vec![deliver(
            &["s1", "s2"],
            Outgoing::Response(RpcResponse::Event { object_name: text("news_obj"), topic: text("news"), args })
        )]
    );
    let acts = b.handle_publish(text("news_obj"), text("other"), JsonValue::Null);
    assert_eq!(acts, vec![]);
}

#[test]
fn disconnect_forgets_everything_of_the_client() {
    let mut b = broker_with(&["worker", "client", "other"]);
    b.handle_register_object(text("obj"), &id("worker"));
    b.handle_register_object(text("kept"), &id("other"));
    b.handle_subscribe(text("obj"), text("t"), &id("worker"));
    b.handle_subscribe(text("obj"), text("t"), &id("other"));
    b.handle_call(CallId(text("w1")), text("kept"), text("m"), JsonValue::Null, &id("worker"));
    b.cleanup_client(&id("worker"));
    let acts = b.has_object(text("obj"), &id("client"));
    assert_eq!(
        acts,
        vec![deliver(&["client"], Outgoing::Response(RpcResponse::HasObjectResult { object_name: text("obj"), exists: false }))]
    );
    let acts = b.has_object(text("kept"), &id("client"));
    assert_eq!(
        acts,
        vec![deliver(&["client"], Outgoing::Response(RpcResponse::HasObjectResult { object_name: text("kept"), exists: true }))]
    );
    let acts = b.handle_publish(text("obj"), text("t"), JsonValue::Null);
    assert_eq!(
        acts,
        vec![deliver(
            &["other"],
            Outgoing::Response(RpcResponse::Event { object_name: text("obj"), topic: text("t"), args: JsonValue::Null })
        )]
    );
    // The worker's own call no longer has anyone waiting for it.
    let late = RpcResponse::Result { call_id: CallId(text("w1")), object_name: text("kept"), value: JsonValue::Null };
    assert_eq!(b.handle_response(late, &id("other")), vec![]);
}

fn activation(kind: &str, object: &str, service: &str) -> ServiceActivationFile {
    ServiceActivationFile { kind: text(kind), object_name: text(object), service_name: text(service) }
}

#[test]
fn calls_for_a_stopped_service_start_it_and_wait() {
    let mut b = broker_with(&["client", "svc"]);
    b.load_service_activations(vec![
        activation("RegisterService", "printer", "printer.service"),
        activation("Other", "ignored", "ignored.service"),
    ]);
    let acts = b.handle_call(CallId(text("p1")), text("printer"), text("print"), num(1), &id("client"));
    assert_eq!(acts, vec![BrokerAction::StartService { unit: text("printer.service") }]);
    // A second call while starting is queued without a new start.
    let acts = b.handle_call(CallId(text("p2")), text("printer"), text("print"), num(2), &id("client"));
    assert_eq!(acts, vec![]);
    // A service named by an entry of another type is unknown.
    let acts = b.handle_call(CallId(text("p3")), text("ignored"), text("m"), JsonValue::Null, &id("client"));
    assert_eq!(
        acts,
        vec![deliver(
            &["client"],
            Outgoing::Response(RpcResponse::Error {
                call_id: Some(CallId(text("p3"))),
                object_name: text("ignored"),
                message: text("No such object 'ignored'"),
            })
        )]
    );
    let acts = b.handle_register_object(text("printer"), &id("svc"));
    assert_eq!(
        acts,
        vec![
            deliver(
                &["svc"],
                Outgoing::Request(RpcRequest::Call {
                    call_id: CallId(text("p1")),
                    object_name: text("printer"),
                    method: text("print"),
                    args: num(1),
                })
            ),
            deliver(
                &["svc"],
                Outgoing::Request(RpcRequest::Call {
                    call_id: CallId(text("p2")),
                    object_name: text("printer"),
                    method: text("print"),
                    args: num(2),
                })
            ),
            deliver(&["svc"], Outgoing::Response(RpcResponse::Registered { object_name: text("printer") })),
        ]
    );
}

#[test]
fn service_worker_disconnect_resets_service() {
    let mut b = broker_with(&["client", "svc"]);
    b.handle_register_service(text("printer"), text("printer.service"), &id("client"));
    b.handle_register_object(text("printer"), &id("svc"));
    b.cleanup_client(&id("svc"));
    // The object is gone and the service is stopped again: a call starts it.
    let acts = b.handle_call(CallId(text("p1")), text("printer"), text("print"), JsonValue::Null, &id("client"));
    assert_eq!(acts, vec![BrokerAction::StartService { unit: text("printer.service") }]);
}

#[test]
fn queued_calls_of_a_departed_caller_are_dropped() {
    let mut b = broker_with(&["client", "svc"]);
    b.handle_register_service(text("printer"), text("printer.service"), &id("svc"));
    b.handle_call(CallId(text("p1")), text("printer"), text("print"), JsonValue::Null, &id("client"));
    b.cleanup_client(&id("client"));
    let acts = b.handle_register_object(text("printer"), &id("svc"));
    assert_eq!(acts, vec![deliver(&["svc"], Outgoing::Response(RpcResponse::Registered { object_name: text("printer") }))]);
}

#[test]
fn list_objects_names_each_registered_object() {
    let mut b = broker_with(&["a"]);
    b.handle_register_object(text("x"), &id("a"));
    b.handle_register_object(text("y"), &id("a"));
    b.handle_register_object(text("x"), &id("a"));
    match b.list_objects("listObjects") {
        JsonValue::Array(items) => {
            let mut names: Vec<String> = items
                .into_iter()
                .map(|v| match v {
                    JsonValue::String(s) => s,
                    other => panic!("not a name: {other:?}"),
                })
                .collect();
            names.sort();
            assert_eq!(names, vec![text("x"), text("y")]);
        }
        other => panic!("not a list: {other:?}"),
    }
    assert_eq!(b.list_objects("other"), JsonValue::Null);
}

#[test]
fn spawned_clients_get_uuid_identities() {
    let mut b = BrokerState::new();
    let c = b.spawn_client();
    assert_eq!(c.0.len(), 36);
    assert_eq!(c.0.chars().filter(|ch| *ch == '-').count(), 4);
    let acts = b.has_object(text("x"), &c);
    assert_eq!(acts.len(), 1);
}

#[test]
fn register_service_keeps_running_owner() {
    let mut b = broker_with(&["client", "svc"]);
    b.handle_register_service(text("o"), text("a.service"), &id("svc"));
    b.handle_register_object(text("o"), &id("svc"));
    b.handle_register_service(text("o"), text("b.service"), &id("svc"));
    b.cleanup_client(&id("svc"));
    let acts = b.handle_call(CallId(text("k")), text("o"), text("m"), JsonValue::Null, &id("client"));
    assert_eq!(acts, vec![BrokerAction::StartService { unit: text("b.service") }]);
    let _ = ServiceState::Stopped;
}
