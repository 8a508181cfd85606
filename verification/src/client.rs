//! The decisions of a client connection: which requests wait for a reply,
//! who receives an event, and what a reply to "does this object exist"
//! means.
use crate::json::{JsonValue, JsonView};
use crate::rpc::{is_uuid_text, is_v4_uuid, uuid_text, CallId, RequestView, ResponseView, RpcRequest, RpcResponse};
use vstd::prelude::*;

verus! {

/// Whether the client reads one reply after sending a request: calls,
/// registrations and existence queries are answered; publications,
/// subscriptions and service declarations are not.
pub open spec fn awaits_reply_spec(req: RequestView) -> bool {
    match req {
        RequestView::Call { .. } => true,
        RequestView::RegisterObject { .. } => true,
        RequestView::HasObject { .. } => true,
        _ => false,
    }
}

/// Whether a reply is read after sending `req`.
pub fn awaits_reply(req: &RpcRequest) -> (b: bool)
    ensures
        b == awaits_reply_spec(req@),
{
    match req {
        RpcRequest::Call { .. } => true,
        RpcRequest::RegisterObject { .. } => true,
        RpcRequest::HasObject { .. } => true,
        _ => false,
    }
}

/// What the sender of a request that gets no reply is handed: an empty
/// event.
pub fn unanswered_ack() -> (r: RpcResponse)
    ensures
        r@ == (ResponseView::Event { object_name: Seq::empty(), topic: Seq::empty(), args: JsonView::Null }),
{
    RpcResponse::Event { object_name: String::new(), topic: String::new(), args: JsonValue::Null }
}

/// A request to call `method` of object `object` with `args`, under a fresh
/// random call identity.
pub fn remote_call_request(object: &str, method: &str, args: JsonValue) -> (r: RpcRequest)
    ensures
        r@ matches RequestView::Call { call_id, object_name, method: m, args: a } && is_uuid_text(call_id)
            && (exists|n: u128| call_id == uuid_text(n) && is_v4_uuid(n)) && object_name == object@ && m == method@ && a == args@,
{
    RpcRequest::Call {
        call_id: CallId::random(),
        object_name: object.to_owned(),
        method: method.to_owned(),
        args,
    }
}

/// Why an answer could not be used.
#[derive(Debug, PartialEq)]
pub enum ClientError {
    /// The broker answered with something other than what was asked.
    UnexpectedResponse,
    /// The call failed, for the reason the broker or the worker gave.
    CallFailed { message: String },
}

/// What a reply to an existence query says: whether the object exists, or
/// that the reply was of another kind.
pub fn has_object_reply(resp: &RpcResponse) -> (r: Result<bool, ClientError>)
    ensures
        match resp@ {
            ResponseView::HasObjectResult { exists, .. } => r == Ok::<bool, ClientError>(exists),
            _ => r is Err,
        },
{
    match resp {
        RpcResponse::HasObjectResult { exists, .. } => Ok(*exists),
        _ => Err(ClientError::UnexpectedResponse),
    }
}

/// What the reply to a remote call gives the caller: the value of a result,
/// the reason of an error, and `UnexpectedResponse` for a reply of any other
/// kind.
pub fn call_answer(resp: RpcResponse) -> (r: Result<JsonValue, ClientError>)
    ensures
        match resp@ {
            ResponseView::Result { value, .. } => r matches Ok(v) && v@ == value,
            ResponseView::Error { message, .. } => r matches Err(ClientError::CallFailed { message: m })
                && m@ == message,
            _ => r == Err::<JsonValue, ClientError>(ClientError::UnexpectedResponse),
        },
{
    match resp {
        RpcResponse::Result { value, .. } => Ok(value),
        RpcResponse::Error { message, .. } => Err(ClientError::CallFailed { message }),
        _ => Err(ClientError::UnexpectedResponse),
    }
}

/// The subscriptions of one client connection: for each (object, topic),
/// the local listeners, by number, in the order they subscribed.
pub struct ClientSubscriptions {
    entries: Vec<(String, String, usize)>,
}

/// The listeners of (object, topic) among `entries`, in order.
pub open spec fn listeners(entries: Seq<(Seq<char>, Seq<char>, usize)>, object: Seq<char>, topic: Seq<char>) -> Seq<usize>
    decreases entries.len(),
{
    if entries.len() == 0 {
        Seq::empty()
    } else {
        let before = listeners(entries.drop_last(), object, topic);
        let e = entries.last();
        if e.0 == object && e.1 == topic {
            before.push(e.2)
        } else {
            before
        }
    }
}

/// Who hears a response: the listeners of its topic when it is an event,
/// nobody otherwise.
pub open spec fn audience(entries: Seq<(Seq<char>, Seq<char>, usize)>, resp: ResponseView) -> Seq<usize> {
    match resp {
        ResponseView::Event { object_name, topic, .. } => listeners(entries, object_name, topic),
        _ => Seq::empty(),
    }
}

impl View for ClientSubscriptions {
    type V = Seq<(Seq<char>, Seq<char>, usize)>;

    closed spec fn view(&self) -> Seq<(Seq<char>, Seq<char>, usize)> {
        self.entries@.map_values(|e: (String, String, usize)| (e.0@, e.1@, e.2))
    }
}

impl ClientSubscriptions {
    pub fn new() -> (s: ClientSubscriptions)
        ensures
            s@ == Seq::<(Seq<char>, Seq<char>, usize)>::empty(),
    {
        let s = ClientSubscriptions { entries: Vec::new() };
        proof {
            assert(s@ =~= Seq::<(Seq<char>, Seq<char>, usize)>::empty());
        }
        s
    }

    /// Adds listener `listener` to (object, topic).
    pub fn subscribe(&mut self, object: String, topic: String, listener: usize)
        ensures
            final(self)@ == old(self)@.push((object@, topic@, listener)),
    {
        let ghost t = (object@, topic@, listener);
        self.entries.push((object, topic, listener));
        proof {
            assert(self@ =~= old(self)@.push(t));
        }
    }

    /// The listeners to hand a response to: those of its topic, in
    /// subscription order, if it is an event.
    pub fn audience(&self, resp: &RpcResponse) -> (r: Vec<usize>)
        ensures
            r@ == audience(self@, resp@),
    {
        let mut r: Vec<usize> = Vec::new();
        match resp {
            RpcResponse::Event { object_name, topic, .. } => {
                let ghost all = self@;
                let mut i: usize = 0;
                while i < self.entries.len()
                    invariant
                        i <= self.entries@.len(),
                        all == self@,
                        all.len() == self.entries@.len(),
                        r@ == listeners(all.take(i as int), object_name@, topic@),
                    decreases self.entries@.len() - i,
                {
                    proof {
                        assert(all.take(i + 1).drop_last() =~= all.take(i as int));
                        assert(all[i as int] == (self.entries@[i as int].0@, self.entries@[i as int].1@, self.entries@[i as int].2));
                    }
                    if self.entries[i].0 == *object_name && self.entries[i].1 == *topic {
                        r.push(self.entries[i].2);
                    }
                    i = i + 1;
                }
                proof {
                    assert(all.take(i as int) =~= all);
                }
            },
            _ => {},
        }
        r
    }
}

/// Whether a response is an event on `topic` of `object`.
pub open spec fn is_event_on(resp: ResponseView, object: Seq<char>, topic: Seq<char>) -> bool {
    match resp {
        ResponseView::Event { object_name, topic: t, .. } => object_name == object && t == topic,
        _ => false,
    }
}

/// A listener that subscribes to a topic hears every later event on that
/// topic, after the listeners that subscribed before it; events on other
/// topics, and other responses, do not reach it through this subscription.
pub proof fn law_listener_hears_its_topic(
    entries: Seq<(Seq<char>, Seq<char>, usize)>,
    object: Seq<char>,
    topic: Seq<char>,
    listener: usize,
    resp: ResponseView,
)
    ensures
        ({
            let after = entries.push((object, topic, listener));
            &&& is_event_on(resp, object, topic) ==> audience(after, resp) == audience(entries, resp).push(listener)
            &&& !is_event_on(resp, object, topic) ==> audience(after, resp) == audience(entries, resp)
        }),
{
    let after = entries.push((object, topic, listener));
    assert(after.drop_last() =~= entries);
}

} // verus!
