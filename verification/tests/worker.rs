use ipc_broker::json::JsonValue;
use ipc_broker::rpc::{CallId, RpcRequest};
use ipc_broker::worker::{
    add_object_name, after_run, registration_requests, route_request, run_again, PauseOutcome, RunOutcome,
    SupervisorStep, WorkerStep,
};

fn s(t: &str) -> String {
    t.to_string()
}

#[test]
fn worker_registers_each_object() {
    let names = vec![s("Calculator"), s("Logger")];
    assert_eq!(
        registration_requests(&names),
        vec![
            RpcRequest::RegisterObject { object_name: s("Calculator") },
            RpcRequest::RegisterObject { object_name: s("Logger") },
        ]
    );
}

#[test]
fn worker_routes_calls() {
    let names = vec![s("Calculator"), s("Logger")];
    let call = RpcRequest::Call { call_id: CallId(s("c")), object_name: s("Logger"), method: s("log"), args: JsonValue::Null };
    assert_eq!(
        route_request(call, &names),
        WorkerStep::Invoke { object: 1, call_id: CallId(s("c")), object_name: s("Logger"), method: s("log"), args: JsonValue::Null }
    );
    let unknown = RpcRequest::Call { call_id: CallId(s("c")), object_name: s("X"), method: s("m"), args: JsonValue::Null };
    assert_eq!(route_request(unknown, &names), WorkerStep::UnknownObject { object_name: s("X") });
    assert_eq!(route_request(RpcRequest::HasObject { object_name: s("X") }, &names), WorkerStep::Ignore);
}

#[test]
fn adding_a_name_twice_reuses_its_slot() {
    let mut names: Vec<String> = Vec::new();
    assert_eq!(add_object_name(&mut names, s("math")), 0);
    assert_eq!(add_object_name(&mut names, s("log")), 1);
    assert_eq!(add_object_name(&mut names, s("math")), 0);
    assert_eq!(names, vec![s("math"), s("log")]);
}

#[test]
fn supervisor_retries_only_after_a_failure() {
    assert_eq!(after_run(RunOutcome::Finished), SupervisorStep::Stop);
    assert_eq!(after_run(RunOutcome::Failed), SupervisorStep::RetryAfter { seconds: 2 });
    assert!(run_again(PauseOutcome::Elapsed));
    assert!(!run_again(PauseOutcome::Interrupted));
    assert!(!run_again(PauseOutcome::ShutdownRequested));
}
