//! The decisions of a worker: announcing its objects, and which incoming
//! requests it serves.
use crate::json::JsonValue;
use crate::activate::requests_view;
use crate::rpc::{CallId, RequestView, RpcRequest};
use vstd::prelude::*;

verus! {

/// The models of the names of a worker's objects.
pub open spec fn names_view(names: Seq<String>) -> Seq<Seq<char>> {
    names.map_values(|n: String| n@)
}

/// The registrations a worker sends: one per object, in order.
pub open spec fn registrations(names: Seq<Seq<char>>) -> Seq<RequestView> {
    names.map_values(|n: Seq<char>| RequestView::RegisterObject { object_name: n })
}

/// The requests that register each of a worker's objects with the broker.
pub fn registration_requests(names: &Vec<String>) -> (reqs: Vec<RpcRequest>)
    ensures
        requests_view(reqs@) == registrations(names_view(names@)),
{
    let ghost target = registrations(names_view(names@));
    let mut reqs: Vec<RpcRequest> = Vec::new();
    let mut i: usize = 0;
    while i < names.len()
        invariant
            i <= names@.len(),
            target == registrations(names_view(names@)),
            requests_view(reqs@) == target.take(i as int),
            reqs@.len() == i,
            target.len() == names@.len(),
        decreases names@.len() - i,
    {
        let ghost before = reqs@;
        reqs.push(RpcRequest::RegisterObject { object_name: names[i].clone() });
        proof {
            assert(target[i as int] == RequestView::RegisterObject { object_name: names@[i as int]@ });
            assert(reqs@ =~= before.push(reqs@[i as int]));
            assert(requests_view(reqs@) =~= requests_view(before).push(reqs@[i as int]@));
            assert(target.take(i + 1) =~= target.take(i as int).push(target[i as int]));
            assert(requests_view(reqs@) =~= target.take(i + 1));
        }
        i = i + 1;
    }
    proof {
        assert(target.take(i as int) =~= target);
    }
    reqs
}

/// What a worker does with an incoming request.
#[derive(Debug, PartialEq)]
pub enum WorkerStep {
    /// Call `method` of its object number `object` and answer with a result.
    Invoke { object: usize, call_id: CallId, object_name: String, method: String, args: JsonValue },
    /// A call for an object this worker does not have; it is not answered.
    UnknownObject { object_name: String },
    /// Any other request; it is ignored.
    Ignore,
}

/// Chooses what to do with a request, given the names of the worker's
/// objects: a call for one of them is invoked on the first object of that
/// name.
pub fn route_request(req: RpcRequest, names: &Vec<String>) -> (step: WorkerStep)
    ensures
        match req@ {
            RequestView::Call { call_id, object_name, method, args } => match step {
                WorkerStep::Invoke { object, call_id: c, object_name: o, method: m, args: a } => {
                    &&& object < names@.len()
                    &&& names@[object as int]@ == object_name
                    &&& forall|j: int| 0 <= j < object ==> names@[j]@ != object_name
                    &&& c@ == call_id && o@ == object_name && m@ == method && a@ == args
                },
                WorkerStep::UnknownObject { object_name: o } => {
                    &&& o@ == object_name
                    &&& forall|j: int| 0 <= j < names@.len() ==> names@[j]@ != object_name
                },
                WorkerStep::Ignore => false,
            },
            _ => step is Ignore,
        },
{
    match req {
        RpcRequest::Call { call_id, object_name, method, args } => {
            let ghost whole = RequestView::Call { call_id: call_id@, object_name: object_name@, method: method@, args: args@ };
            assert(whole == req@);
            let mut i: usize = 0;
            while i < names.len()
                invariant
                    i <= names@.len(),
                    forall|j: int| 0 <= j < i ==> names@[j]@ != object_name@,
                    whole == req@,
                    whole == (RequestView::Call { call_id: call_id@, object_name: object_name@, method: method@, args: args@ }),
                decreases names@.len() - i,
            {
                if names[i] == object_name {
                    return WorkerStep::Invoke { object: i, call_id, object_name, method, args };
                }
                i = i + 1;
            }
            WorkerStep::UnknownObject { object_name }
        },
        _ => WorkerStep::Ignore,
    }
}

/// Adds the name of an object to a worker's list and gives its slot: an
/// object added under a name already listed takes that name's slot (the new
/// object replaces the old one); a new name is added at the end.
pub fn add_object_name(names: &mut Vec<String>, name: String) -> (slot: usize)
    ensures
        slot < final(names)@.len(),
        final(names)@[slot as int]@ == name@,
        forall|j: int| 0 <= j < slot ==> old(names)@[j]@ != name@,
        slot < old(names)@.len() ==> final(names)@ == old(names)@,
        slot == old(names)@.len() ==> final(names)@ == old(names)@.push(name),
{
    let mut i: usize = 0;
    while i < names.len()
        invariant
            i <= names@.len(),
            names@ == old(names)@,
            forall|j: int| 0 <= j < i ==> names@[j]@ != name@,
        decreases names@.len() - i,
    {
        if names[i] == name {
            return i;
        }
        i = i + 1;
    }
    names.push(name);
    i
}

/// How one run of a worker ended.
#[derive(Debug, Clone, Copy, PartialEq, Eq)]
pub enum RunOutcome {
    /// It stopped on request, without error.
    Finished,
    /// The connection could not be made or was lost.
    Failed,
}

/// What ended the pause before a new run.
#[derive(Debug, Clone, Copy, PartialEq, Eq)]
pub enum PauseOutcome {
    /// Ctrl+C arrived.
    Interrupted,
    /// The shutdown signal was sent.
    ShutdownRequested,
    /// The pause ran its course.
    Elapsed,
}

/// What the supervisor of a worker does next.
#[derive(Debug, Clone, Copy, PartialEq, Eq)]
pub enum SupervisorStep {
    /// End the worker.
    Stop,
    /// Pause for `seconds`, then run again unless interrupted.
    RetryAfter { seconds: u64 },
}

/// After a run: a worker that finished stops; one that failed pauses two
/// seconds and runs again.
pub fn after_run(outcome: RunOutcome) -> (step: SupervisorStep)
    ensures
        outcome == RunOutcome::Finished ==> step == SupervisorStep::Stop,
        outcome == RunOutcome::Failed ==> step == (SupervisorStep::RetryAfter { seconds: 2 }),
{
    match outcome {
        RunOutcome::Finished => SupervisorStep::Stop,
        RunOutcome::Failed => SupervisorStep::RetryAfter { seconds: 2 },
    }
}

/// After a pause: the worker runs again only if nothing stopped it.
pub fn run_again(pause: PauseOutcome) -> (again: bool)
    ensures
        again == (pause == PauseOutcome::Elapsed),
{
    match pause {
        PauseOutcome::Elapsed => true,
        _ => false,
    }
}

} // verus!
