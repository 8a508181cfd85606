//! The broker's routing state and the decisions it takes on each message.
//!
//! The broker keeps which client owns each object, which clients are
//! connected, who subscribed to which topic, which caller waits for each
//! call, and the services it may start on demand. Each handler takes one
//! message, updates that state, and returns the actions to perform: bytes to
//! deliver to clients, and services to start.
use crate::activate::{
    apply_activations, ActivationView, load_service_activations, ServiceActivationFile, ServiceEntry,
    ServiceState, ServiceView, StateView, requests_view,
};
use crate::json::{JsonValue, JsonView};
use crate::rpc::{owned, CallId, ClientId, RequestView, ResponseView, RpcRequest, RpcResponse};
use crate::table::StrMap;
use vstd::prelude::*;

verus! {

broadcast use vstd::seq_lib::group_seq_properties;

/// A message the broker sends to a client.
#[derive(Debug, PartialEq)]
pub enum Outgoing {
    Request(RpcRequest),
    Response(RpcResponse),
}

/// The model of an outgoing message.
pub enum MessageView {
    Request(RequestView),
    Response(ResponseView),
}

impl View for Outgoing {
    type V = MessageView;

    open spec fn view(&self) -> MessageView {
        match self {
            Outgoing::Request(r) => MessageView::Request(r@),
            Outgoing::Response(r) => MessageView::Response(r@),
        }
    }
}

/// Something the broker asks its runtime to do.
#[derive(Debug, PartialEq)]
pub enum BrokerAction {
    /// Serialize `message` once and send it to each client in `to`.
    Deliver { to: Vec<ClientId>, message: Outgoing },
    /// Start (restart) the system service named `unit`.
    StartService { unit: String },
}

/// The model of an action.
pub enum ActionView {
    Deliver { to: Seq<Seq<char>>, message: MessageView },
    StartService { unit: Seq<char> },
}

/// The models of a sequence of client identities.
pub open spec fn ids_view(s: Seq<ClientId>) -> Seq<Seq<char>> {
    s.map_values(|c: ClientId| c@)
}

impl View for BrokerAction {
    type V = ActionView;

    open spec fn view(&self) -> ActionView {
        match self {
            BrokerAction::Deliver { to, message } => ActionView::Deliver {
                to: ids_view(to@),
                message: message@,
            },
            BrokerAction::StartService { unit } => ActionView::StartService { unit: unit@ },
        }
    }
}

/// The models of a sequence of actions.
pub open spec fn actions_view(s: Seq<BrokerAction>) -> Seq<ActionView> {
    s.map_values(|a: BrokerAction| a@)
}

/// A client's subscription to one topic of one object.
#[derive(Debug, PartialEq)]
pub struct Subscription {
    pub object_name: String,
    pub topic: String,
    pub client: ClientId,
}

impl View for Subscription {
    type V = (Seq<char>, Seq<char>, Seq<char>);

    open spec fn view(&self) -> (Seq<char>, Seq<char>, Seq<char>) {
        (self.object_name@, self.topic@, self.client@)
    }
}

/// The models of a sequence of subscriptions.
pub open spec fn subscriptions_view(s: Seq<Subscription>) -> Seq<(Seq<char>, Seq<char>, Seq<char>)> {
    s.map_values(|t: Subscription| t@)
}

/// The model of the broker's state.
pub struct BrokerView {
    /// Object name to the client that registered it.
    pub objects: Map<Seq<char>, Seq<char>>,
    /// The connected clients.
    pub clients: Set<Seq<char>>,
    /// (object, topic, subscriber), in the order they subscribed.
    pub subscriptions: Seq<(Seq<char>, Seq<char>, Seq<char>)>,
    /// Call identity to the client that made the call.
    pub calls: Map<Seq<char>, Seq<char>>,
    /// Object name to the service that provides it.
    pub services: Map<Seq<char>, ServiceView>,
}

/// The text of the error a caller gets for an object nobody provides.
pub open spec fn no_such_object(name: Seq<char>) -> Seq<char> {
    "No such object '"@ + name + "'"@
}

/// The connected subscribers of a topic, in subscription order.
pub open spec fn recipients(
    subs: Seq<(Seq<char>, Seq<char>, Seq<char>)>,
    object_name: Seq<char>,
    topic: Seq<char>,
    clients: Set<Seq<char>>,
) -> Seq<Seq<char>>
    decreases subs.len(),
{
    if subs.len() == 0 {
        Seq::empty()
    } else {
        let before = recipients(subs.drop_last(), object_name, topic, clients);
        let t = subs.last();
        if t.0 == object_name && t.1 == topic && clients.contains(t.2) {
            before.push(t.2)
        } else {
            before
        }
    }
}

/// Whether a queued request survives its caller's departure: calls stay
/// only while someone still waits for their reply.
pub open spec fn keeps_pending(r: RequestView, calls: Map<Seq<char>, Seq<char>>) -> bool {
    match r {
        RequestView::Call { call_id, .. } => calls.contains_key(call_id),
        _ => true,
    }
}

/// A service after client `c` has gone: reset if `c` ran it, otherwise
/// stripped of the calls nobody waits for.
pub open spec fn cleaned_service(
    svc: ServiceView,
    c: Seq<char>,
    calls: Map<Seq<char>, Seq<char>>,
) -> ServiceView {
    if svc.owner == Some(c) {
        ServiceView {
            state: StateView::Stopped,
            pending_calls: Seq::empty(),
            owner: None,
            service_name: svc.service_name,
        }
    } else {
        ServiceView {
            pending_calls: svc.pending_calls.filter(|r: RequestView| keeps_pending(r, calls)),
            ..svc
        }
    }
}

/// Whether a subscription belongs to someone other than `c`.
pub open spec fn not_of(c: Seq<char>) -> spec_fn((Seq<char>, Seq<char>, Seq<char>)) -> bool {
    |t: (Seq<char>, Seq<char>, Seq<char>)| t.2 != c
}

/// The entries of `m` whose value is not `c`.
pub open spec fn without_value(m: Map<Seq<char>, Seq<char>>, c: Seq<char>) -> Map<Seq<char>, Seq<char>> {
    Map::new(|k: Seq<char>| m.contains_key(k) && m[k] != c, |k: Seq<char>| m[k])
}

impl BrokerView {
    /// A message to `to`, if `to` is connected; nothing otherwise.
    pub open spec fn deliver(self, to: Seq<char>, message: MessageView) -> Seq<ActionView> {
        if self.clients.contains(to) {
            seq![ActionView::Deliver { to: seq![to], message }]
        } else {
            Seq::empty()
        }
    }

    /// Each queued request, in order, to `to`, if `to` is connected.
    pub open spec fn flush(self, pending: Seq<RequestView>, to: Seq<char>) -> Seq<ActionView> {
        if self.clients.contains(to) {
            pending.map_values(
                |r: RequestView| ActionView::Deliver { to: seq![to], message: MessageView::Request(r) },
            )
        } else {
            Seq::empty()
        }
    }

    /// A client has connected.
    pub open spec fn connect(self, c: Seq<char>) -> BrokerView {
        BrokerView { clients: self.clients.insert(c), ..self }
    }

    /// Client `c` registers object `name`; a service waiting for it now runs
    /// on `c` and its queued calls go to `c`.
    pub open spec fn register_object(self, name: Seq<char>, c: Seq<char>) -> (BrokerView, Seq<ActionView>) {
        let objects = self.objects.insert(name, c);
        let registered = MessageView::Response(ResponseView::Registered { object_name: name });
        if self.services.contains_key(name) {
            let svc = self.services[name];
            let after = BrokerView {
                objects,
                services: self.services.insert(
                    name,
                    ServiceView {
                        state: StateView::Running(c),
                        service_name: svc.service_name,
                        pending_calls: Seq::empty(),
                        owner: Some(c),
                    },
                ),
                ..self
            };
            (after, after.flush(svc.pending_calls, c) + after.deliver(c, registered))
        } else {
            let after = BrokerView { objects, ..self };
            (after, after.deliver(c, registered))
        }
    }

    /// Client `c` declares that `service_name` provides object `name`.
    pub open spec fn register_service(self, name: Seq<char>, service_name: Seq<char>, c: Seq<char>) -> BrokerView {
        if self.services.contains_key(name) {
            let svc = self.services[name];
            let state = if svc.state == StateView::Running(c) {
                svc.state
            } else {
                StateView::Stopped
            };
            BrokerView {
                services: self.services.insert(name, ServiceView { state, service_name, ..svc }),
                ..self
            }
        } else {
            BrokerView {
                services: self.services.insert(
                    name,
                    ServiceView {
                        state: StateView::Stopped,
                        service_name,
                        pending_calls: Seq::empty(),
                        owner: None,
                    },
                ),
                ..self
            }
        }
    }

    /// `caller` calls `method` on object `name`.
    pub open spec fn call(
        self,
        call_id: Seq<char>,
        name: Seq<char>,
        method: Seq<char>,
        args: JsonView,
        caller: Seq<char>,
    ) -> (BrokerView, Seq<ActionView>) {
        let s1 = BrokerView { calls: self.calls.insert(call_id, caller), ..self };
        let req = RequestView::Call { call_id, object_name: name, method, args };
        if self.objects.contains_key(name) {
            (s1, s1.deliver(self.objects[name], MessageView::Request(req)))
        } else if self.services.contains_key(name) {
            let svc = self.services[name];
            match svc.state {
                StateView::Stopped => (
                    BrokerView {
                        services: self.services.insert(
                            name,
                            ServiceView {
                                state: StateView::Starting,
                                pending_calls: svc.pending_calls.push(req),
                                ..svc
                            },
                        ),
                        ..s1
                    },
                    seq![ActionView::StartService { unit: svc.service_name }],
                ),
                StateView::Starting => (
                    BrokerView {
                        services: self.services.insert(
                            name,
                            ServiceView { pending_calls: svc.pending_calls.push(req), ..svc },
                        ),
                        ..s1
                    },
                    Seq::empty(),
                ),
                StateView::Running(_) => (s1, Seq::empty()),
            }
        } else {
            (
                s1,
                s1.deliver(
                    caller,
                    MessageView::Response(
                        ResponseView::Error {
                            call_id: Some(call_id),
                            object_name: name,
                            message: no_such_object(name),
                        },
                    ),
                ),
            )
        }
    }

    /// Client `c` subscribes to `topic` of object `name`.
    pub open spec fn subscribe(self, name: Seq<char>, topic: Seq<char>, c: Seq<char>) -> (BrokerView, Seq<ActionView>) {
        let t = (name, topic, c);
        let subscriptions = if self.subscriptions.contains(t) {
            self.subscriptions
        } else {
            self.subscriptions.push(t)
        };
        let after = BrokerView { subscriptions, ..self };
        (after, after.deliver(c, MessageView::Response(ResponseView::Subscribed { object_name: name, topic })))
    }

    /// An event on `topic` of object `name`, sent once to all its connected
    /// subscribers.
    pub open spec fn publish(self, name: Seq<char>, topic: Seq<char>, args: JsonView) -> Seq<ActionView> {
        let to = recipients(self.subscriptions, name, topic, self.clients);
        if to.len() > 0 {
            seq![
                ActionView::Deliver {
                    to,
                    message: MessageView::Response(ResponseView::Event { object_name: name, topic, args }),
                },
            ]
        } else {
            Seq::empty()
        }
    }

    /// The answer to client `c` asking whether object `name` is registered.
    pub open spec fn has_object(self, name: Seq<char>, c: Seq<char>) -> Seq<ActionView> {
        self.deliver(
            c,
            MessageView::Response(
                ResponseView::HasObjectResult { object_name: name, exists: self.objects.contains_key(name) },
            ),
        )
    }

    /// The broker's reaction to a request from client `c`.
    pub open spec fn request(self, req: RequestView, c: Seq<char>) -> (BrokerView, Seq<ActionView>) {
        match req {
            RequestView::RegisterObject { object_name } => self.register_object(object_name, c),
            RequestView::RegisterService { object_name, service_name } => (
                self.register_service(object_name, service_name, c),
                Seq::empty(),
            ),
            RequestView::Call { call_id, object_name, method, args } => self.call(
                call_id,
                object_name,
                method,
                args,
                c,
            ),
            RequestView::Subscribe { object_name, topic } => self.subscribe(object_name, topic, c),
            RequestView::Publish { object_name, topic, args } => (self, self.publish(object_name, topic, args)),
            RequestView::HasObject { object_name } => (self, self.has_object(object_name, c)),
        }
    }

    /// The call a response answers, if it answers one.
    pub open spec fn answered_call(resp: ResponseView) -> Option<Seq<char>> {
        match resp {
            ResponseView::Result { call_id, .. } => Some(call_id),
            ResponseView::Error { call_id, .. } => call_id,
            _ => None,
        }
    }

    /// The broker's reaction to a response: the answer to a pending call goes
    /// back to its caller, once.
    pub open spec fn response(self, resp: ResponseView) -> (BrokerView, Seq<ActionView>) {
        match Self::answered_call(resp) {
            Some(id) => if self.calls.contains_key(id) {
                let after = BrokerView { calls: self.calls.remove(id), ..self };
                (after, after.deliver(self.calls[id], MessageView::Response(resp)))
            } else {
                (self, Seq::empty())
            },
            None => (self, Seq::empty()),
        }
    }

    /// The state after client `c` has disconnected.
    pub open spec fn cleanup(self, c: Seq<char>) -> BrokerView {
        let calls = without_value(self.calls, c);
        BrokerView {
            objects: without_value(self.objects, c),
            clients: self.clients.remove(c),
            subscriptions: self.subscriptions.filter(not_of(c)),
            calls,
            services: Map::new(
                |k: Seq<char>| self.services.contains_key(k),
                |k: Seq<char>| cleaned_service(self.services[k], c, calls),
            ),
        }
    }
}


/// The live routing state of the broker.
pub struct BrokerState {
    objects: StrMap<ClientId>,
    clients: StrMap<()>,
    subscriptions: Vec<Subscription>,
    calls: StrMap<ClientId>,
    services: StrMap<ServiceEntry>,
}

impl View for BrokerState {
    type V = BrokerView;

    closed spec fn view(&self) -> BrokerView {
        BrokerView {
            objects: self.objects@,
            clients: self.clients@.dom(),
            subscriptions: subscriptions_view(self.subscriptions@),
            calls: self.calls@,
            services: self.services@,
        }
    }
}

proof fn lemma_push_action(s: Seq<BrokerAction>, a: BrokerAction)
    ensures
        actions_view(s.push(a)) == actions_view(s).push(a@),
{
    assert(actions_view(s.push(a)) =~= actions_view(s).push(a@));
}

/// A message for one client.
fn deliver_one(to: &ClientId, message: Outgoing) -> (a: BrokerAction)
    ensures
        a@ == (ActionView::Deliver { to: seq![to@], message: message@ }),
{
    let mut recipients: Vec<ClientId> = Vec::new();
    recipients.push(to.clone());
    proof {
        assert(ids_view(recipients@) =~= seq![to@]);
    }
    BrokerAction::Deliver { to: recipients, message }
}

/// Keeps the queued requests that someone still waits for.
fn retain_pending(pending: Vec<RpcRequest>, calls: &StrMap<ClientId>) -> (kept: Vec<RpcRequest>)
    requires
        calls.wf(),
    ensures
        requests_view(kept@) == requests_view(pending@).filter(
            |r: RequestView| keeps_pending(r, calls@),
        ),
{
    let ghost all = requests_view(pending@);
    let ghost pred = |r: RequestView| keeps_pending(r, calls@);
    let mut rest = pending;
    let mut kept: Vec<RpcRequest> = Vec::new();
    let ghost mut k: int = 0;
    while rest.len() > 0
        invariant
            0 <= k <= all.len(),
            requests_view(rest@) == all.skip(k),
            requests_view(kept@) == all.take(k).filter(pred),
            calls.wf(),
            pred == (|r: RequestView| keeps_pending(r, calls@)),
        decreases rest@.len(),
    {
        let ghost before = rest@;
        let req = rest.remove(0);
        proof {
            assert(requests_view(before).len() == before.len());
            assert(requests_view(before)[0] == req@);
            assert(all.skip(k)[0] == all[k]);
            assert(requests_view(rest@) =~= all.skip(k + 1));
            assert(all.take(k + 1) =~= all.take(k).push(all[k]));
            all.take(k).lemma_filter_push(all[k], pred);
        }
        let keep = match &req {
            RpcRequest::Call { call_id, .. } => calls.contains_key(&call_id.0),
            _ => true,
        };
        if keep {
            let ghost kb = kept@;
            kept.push(req);
            proof {
                assert(requests_view(kept@) =~= requests_view(kb).push(all[k]));
            }
        }
        proof {
            k = k + 1;
        }
    }
    proof {
        assert(all.take(k) =~= all);
    }
    kept
}

/// Removes every entry whose value is client `c`.
fn drop_values(map: &mut StrMap<ClientId>, c: &ClientId)
    requires
        old(map).wf(),
    ensures
        final(map).wf(),
        final(map)@ == without_value(old(map)@, c@),
{
    let ghost start = map@;
    let mut doomed: Vec<String> = Vec::new();
    let mut i: usize = 0;
    while i < map.len()
        invariant
            map.wf(),
            map@ == start,
            i <= map.size(),
            forall|j: int| 0 <= j < doomed@.len() ==> start.contains_key(#[trigger] doomed@[j]@) && start[doomed@[j]@] == c@,
            forall|j: int| 0 <= j < i && start[map.key_at(j)] == c@ ==> exists|d: int| 0 <= d < doomed@.len() && #[trigger] doomed@[d]@ == map.key_at(j),
        decreases map.size() - i,
    {
        proof { map.lemma_entry(i as int); }
        if map.value(i).0 == c.0 {
            let ghost before = doomed@;
            doomed.push(map.key(i).clone());
            proof {
                assert(doomed@[before.len() as int]@ == map.key_at(i as int));
                assert forall|j: int| 0 <= j < i + 1 && start[map.key_at(j)] == c@ implies exists|d: int| 0 <= d < doomed@.len() && #[trigger] doomed@[d]@ == map.key_at(j) by {
                    if j < i {
                        let d = choose|d: int| 0 <= d < before.len() && #[trigger] before[d]@ == map.key_at(j);
                        assert(doomed@[d]@ == map.key_at(j));
                    } else {
                        assert(doomed@[before.len() as int]@ == map.key_at(j));
                    }
                }
            }
        }
        i = i + 1;
    }
    let ghost positions = *map;
    let ghost dv = doomed@.map_values(|s: String| s@);
    let mut d: usize = 0;
    while d < doomed.len()
        invariant
            map.wf(),
            d <= doomed@.len(),
            dv == doomed@.map_values(|s: String| s@),
            map@ == start.remove_keys(dv.take(d as int).to_set()),
        decreases doomed@.len() - d,
    {
        let _ = map.remove(&doomed[d]);
        proof {
            assert(dv.take(d + 1) =~= dv.take(d as int).push(dv[d as int]));
            dv.take(d as int).lemma_push_to_set_commute(dv[d as int]);
            assert(map@ =~= start.remove_keys(dv.take(d + 1).to_set()));
        }
        d = d + 1;
    }
    proof {
        assert(dv.take(d as int) =~= dv);
        assert forall|k: Seq<char>| #[trigger] start.contains_key(k) && start[k] == c@ implies dv.to_set().contains(k) by {
            let j = positions.lemma_key_position(k);
            let e = choose|e: int| 0 <= e < doomed@.len() && #[trigger] doomed@[e]@ == positions.key_at(j);
            assert(dv[e] == k);
        }
        assert forall|k: Seq<char>| #[trigger] dv.to_set().contains(k) implies start.contains_key(k) && start[k] == c@ by {
            let e = choose|e: int| 0 <= e < dv.len() && dv[e] == k;
            assert(doomed@[e]@ == k);
        }
        assert(map@ =~= without_value(start, c@));
    }
}

/// Whether key `k` sits at one of the first `i` positions of `m`.
pub open spec fn among_first<V: View>(m: StrMap<V>, k: Seq<char>, i: int) -> bool {
    exists|j: int| 0 <= j < i && #[trigger] m.key_at(j) == k
}

/// A JSON list naming each key of `names` exactly once.
pub open spec fn lists_each_once(items: Seq<JsonView>, names: Set<Seq<char>>) -> bool {
    &&& forall|i: int| 0 <= i < items.len() ==> (#[trigger] items[i] matches JsonView::String(k) && names.contains(k))
    &&& forall|k: Seq<char>| #[trigger] names.contains(k) ==> exists|i: int| 0 <= i < items.len() && items[i] == JsonView::String(k)
    &&& items.no_duplicates()
}

impl BrokerState {
    /// The tables are consistent.
    pub closed spec fn wf(&self) -> bool {
        &&& self.objects.wf()
        &&& self.clients.wf()
        &&& self.calls.wf()
        &&& self.services.wf()
        &&& subscriptions_view(self.subscriptions@).no_duplicates()
    }

    /// A broker with no clients, objects, subscriptions, calls or services.
    pub fn new() -> (b: BrokerState)
        ensures
            b.wf(),
            b@.objects == Map::<Seq<char>, Seq<char>>::empty(),
            b@.clients == Set::<Seq<char>>::empty(),
            b@.subscriptions == Seq::<(Seq<char>, Seq<char>, Seq<char>)>::empty(),
            b@.calls == Map::<Seq<char>, Seq<char>>::empty(),
            b@.services == Map::<Seq<char>, ServiceView>::empty(),
    {
        let b = BrokerState {
            objects: StrMap::new(),
            clients: StrMap::new(),
            subscriptions: Vec::new(),
            calls: StrMap::new(),
            services: StrMap::new(),
        };
        proof {
            assert(b.clients@.dom() =~= Set::<Seq<char>>::empty());
            assert(subscriptions_view(b.subscriptions@) =~= Seq::empty());
        }
        b
    }

    /// Declares the services that activation entries describe.
    pub fn load_service_activations(&mut self, items: Vec<ServiceActivationFile>)
        requires
            old(self).wf(),
        ensures
            final(self).wf(),
            final(self)@ == (BrokerView {
                services: apply_activations(
                    old(self)@.services,
                    items@.map_values(|i: ServiceActivationFile| i@),
                ),
                ..old(self)@
            }),
    {
        load_service_activations(&mut self.services, items);
    }

    /// Records that client `c` is connected, so messages can reach it.
    pub fn connect_client(&mut self, c: &ClientId)
        requires
            old(self).wf(),
        ensures
            final(self).wf(),
            final(self)@ == old(self)@.connect(c@),
    {
        self.clients.insert(c.0.clone(), ());
        proof {
            assert(self@.clients =~= old(self)@.clients.insert(c@));
        }
    }

    /// Gives a new connection a random identity and records it as connected.
    pub fn spawn_client(&mut self) -> (c: ClientId)
        requires
            old(self).wf(),
        ensures
            final(self).wf(),
            final(self)@ == old(self)@.connect(c@),
            crate::rpc::is_uuid_text(c@),
            exists|n: u128| c@ == crate::rpc::uuid_text(n) && crate::rpc::is_v4_uuid(n),
    {
        let c = ClientId::random();
        self.connect_client(&c);
        c
    }

    /// Appends a message to `to`, if `to` is connected.
    fn send_to_client(&self, actions: &mut Vec<BrokerAction>, to: &ClientId, message: Outgoing)
        requires
            self.wf(),
        ensures
            actions_view(final(actions)@) == actions_view(old(actions)@) + self@.deliver(to@, message@),
    {
        let ghost m = message@;
        let ghost before = actions@;
        if self.clients.contains_key(&to.0) {
            let a = deliver_one(to, message);
            actions.push(a);
            proof {
                lemma_push_action(before, a);
                assert(actions_view(before).push(a@) =~= actions_view(before) + self@.deliver(to@, m));
            }
        } else {
            assert(actions_view(before) + self@.deliver(to@, m) =~= actions_view(before));
        }
    }

    /// Appends each queued request, in order, for `to`, if `to` is connected.
    fn flush_pending(&self, actions: &mut Vec<BrokerAction>, pending: Vec<RpcRequest>, to: &ClientId)
        requires
            self.wf(),
        ensures
            actions_view(final(actions)@) == actions_view(old(actions)@) + self@.flush(
                requests_view(pending@),
                to@,
            ),
    {
        let ghost all = requests_view(pending@);
        let ghost base = actions_view(actions@);
        let ghost f = |r: RequestView| ActionView::Deliver { to: seq![to@], message: MessageView::Request(r) };
        if self.clients.contains_key(&to.0) {
            let mut rest = pending;
            let ghost mut k: int = 0;
            while rest.len() > 0
                invariant
                    0 <= k <= all.len(),
                    requests_view(rest@) == all.skip(k),
                    actions_view(actions@) == base + all.take(k).map_values(f),
                    f == (|r: RequestView| ActionView::Deliver { to: seq![to@], message: MessageView::Request(r) }),
                decreases rest@.len(),
            {
                let ghost before = rest@;
                let ghost acts = actions@;
                let req = rest.remove(0);
                proof {
                    assert(requests_view(before).len() == before.len());
                    assert(requests_view(before)[0] == req@);
                    assert(all.skip(k)[0] == all[k]);
                    assert(requests_view(rest@) =~= all.skip(k + 1));
                }
                let a = deliver_one(to, Outgoing::Request(req));
                actions.push(a);
                proof {
                    lemma_push_action(acts, a);
                    assert(all.take(k + 1).map_values(f) =~= all.take(k).map_values(f).push(f(all[k])));
                    assert(actions_view(actions@) =~= base + all.take(k + 1).map_values(f));
                    k = k + 1;
                }
            }
            proof {
                assert(all.take(k) =~= all);
            }
        } else {
            assert(base + self@.flush(all, to@) =~= base);
        }
    }

    /// Whether object `name` is registered, answered to client `c`.
    pub fn has_object(&self, object_name: String, client_id: &ClientId) -> (actions: Vec<BrokerAction>)
        requires
            self.wf(),
        ensures
            actions_view(actions@) == self@.has_object(object_name@, client_id@),
    {
        let exists = self.objects.contains_key(&object_name);
        let mut actions = Vec::new();
        self.send_to_client(
            &mut actions,
            client_id,
            Outgoing::Response(RpcResponse::HasObjectResult { object_name, exists }),
        );
        proof {
            assert(actions_view(Seq::<BrokerAction>::empty()) =~= Seq::empty());
        }
        actions
    }

    /// Sends an event to every connected subscriber of the topic.
    pub fn handle_publish(&self, object_name: String, topic: String, args: JsonValue) -> (actions: Vec<
        BrokerAction,
    >)
        requires
            self.wf(),
        ensures
            actions_view(actions@) == self@.publish(object_name@, topic@, args@),
    {
        let ghost subs = subscriptions_view(self.subscriptions@);
        let ghost clients = self@.clients;
        let mut to: Vec<ClientId> = Vec::new();
        let mut i: usize = 0;
        while i < self.subscriptions.len()
            invariant
                self.wf(),
                i <= self.subscriptions@.len(),
                subs == subscriptions_view(self.subscriptions@),
                clients == self@.clients,
                ids_view(to@) == recipients(subs.take(i as int), object_name@, topic@, clients),
            decreases self.subscriptions@.len() - i,
        {
            let t = &self.subscriptions[i];
            proof {
                assert(subs.take(i + 1).drop_last() =~= subs.take(i as int));
                assert(subs.take(i + 1).last() == t@);
            }
            if t.object_name == object_name && t.topic == topic && self.clients.contains_key(&t.client.0) {
                let ghost tb = to@;
                to.push(t.client.clone());
                proof {
                    assert(ids_view(to@) =~= ids_view(tb).push(t.client@));
                }
            }
            i = i + 1;
        }
        proof {
            assert(subs.take(i as int) =~= subs);
        }
        let mut actions: Vec<BrokerAction> = Vec::new();
        if to.len() > 0 {
            let a = BrokerAction::Deliver {
                to,
                message: Outgoing::Response(RpcResponse::Event { object_name, topic, args }),
            };
            actions.push(a);
            proof {
                assert(actions_view(actions@) =~= seq![a@]);
            }
        } else {
            proof {
                assert(actions_view(actions@) =~= Seq::empty());
            }
        }
        actions
    }

    /// Subscribes client `c` to `topic` of object `name` and confirms it.
    pub fn handle_subscribe(&mut self, object_name: String, topic: String, client_id: &ClientId) -> (actions: Vec<
        BrokerAction,
    >)
        requires
            old(self).wf(),
        ensures
            final(self).wf(),
            (final(self)@, actions_view(actions@)) == old(self)@.subscribe(
                object_name@,
                topic@,
                client_id@,
            ),
    {
        let ghost subs = subscriptions_view(self.subscriptions@);
        let ghost t = (object_name@, topic@, client_id@);
        let mut found = false;
        let mut i: usize = 0;
        while i < self.subscriptions.len()
            invariant
                i <= self.subscriptions@.len(),
                subs == subscriptions_view(self.subscriptions@),
                t == (object_name@, topic@, client_id@),
                found == (exists|j: int| 0 <= j < i && subs[j] == t),
            decreases self.subscriptions@.len() - i,
        {
            let s = &self.subscriptions[i];
            proof {
                assert(subs[i as int] == s@);
            }
            if s.object_name == object_name && s.topic == topic && s.client.0 == client_id.0 {
                found = true;
                proof {
                    assert(subs[i as int] == t);
                }
            }
            i = i + 1;
        }
        if !found {
            self.subscriptions.push(
                Subscription {
                    object_name: object_name.clone(),
                    topic: topic.clone(),
                    client: client_id.clone(),
                },
            );
            proof {
                assert(!subs.contains(t));
                assert(subscriptions_view(self.subscriptions@) =~= subs.push(t));
                lemma_push_no_duplicates(subs, t);
            }
        } else {
            proof {
                let j = choose|j: int| 0 <= j < i && subs[j] == t;
                assert(subs.contains(t));
            }
        }
        let mut actions = Vec::new();
        self.send_to_client(
            &mut actions,
            client_id,
            Outgoing::Response(RpcResponse::Subscribed { object_name, topic }),
        );
        proof {
            assert(actions_view(Seq::<BrokerAction>::empty()) =~= Seq::empty());
        }
        actions
    }

    /// Client `c` declares that `service_name` provides object `name`.
    pub fn handle_register_service(&mut self, object_name: String, service_name: String, client_id: &ClientId)
        requires
            old(self).wf(),
        ensures
            final(self).wf(),
            final(self)@ == old(self)@.register_service(object_name@, service_name@, client_id@),
    {
        let ghost start = self.services@;
        match self.services.remove(&object_name) {
            Some(svc) => {
                let keep = match &svc.state {
                    ServiceState::Running(c) => c.0 == client_id.0,
                    _ => false,
                };
                let mut svc = svc;
                svc.service_name = service_name;
                if !keep {
                    svc.state = ServiceState::Stopped;
                }
                self.services.insert(object_name, svc);
                proof {
                    assert(self.services@ =~= start.insert(object_name@, svc@));
                }
            },
            None => {
                self.services.insert(object_name, ServiceEntry::stopped(service_name));
                proof {
                    assert(self.services@ =~= start.insert(
                        object_name@,
                        crate::activate::stopped_service(service_name@),
                    ));
                }
            },
        }
    }

    /// Routes an answer back to the caller that waits for it.
    pub fn handle_response(&mut self, resp: RpcResponse, from: &ClientId) -> (actions: Vec<BrokerAction>)
        requires
            old(self).wf(),
        ensures
            final(self).wf(),
            (final(self)@, actions_view(actions@)) == old(self)@.response(resp@),
    {
        let ghost start = self@;
        let id: Option<String> = match &resp {
            RpcResponse::Result { call_id, .. } => Some(call_id.0.clone()),
            RpcResponse::Error { call_id: Some(c), .. } => Some(c.0.clone()),
            _ => None,
        };
        let mut actions: Vec<BrokerAction> = Vec::new();
        proof {
            assert(actions_view(actions@) =~= Seq::empty());
        }
        match id {
            Some(id) => {
                match self.calls.remove(&id) {
                    Some(caller) => {
                        self.send_to_client(&mut actions, &caller, Outgoing::Response(resp));
                    },
                    None => {
                        proof {
                            assert(self.calls@ =~= start.calls);
                        }
                    },
                }
            },
            None => {},
        }
        actions
    }

    /// Forwards a call to the client that owns the object, queues it for a
    /// service (starting the service if it is stopped), or answers the caller
    /// that no such object exists.
    pub fn handle_call(
        &mut self,
        call_id: CallId,
        object_name: String,
        method: String,
        args: JsonValue,
        client_id: &ClientId,
    ) -> (actions: Vec<BrokerAction>)
        requires
            old(self).wf(),
        ensures
            final(self).wf(),
            (final(self)@, actions_view(actions@)) == old(self)@.call(
                call_id@,
                object_name@,
                method@,
                args@,
                client_id@,
            ),
    {
        let ghost start = self@;
        self.calls.insert(call_id.0.clone(), client_id.clone());
        let mut actions: Vec<BrokerAction> = Vec::new();
        proof {
            assert(actions_view(actions@) =~= Seq::empty());
        }
        let owner = match self.objects.get(&object_name) {
            Some(w) => Some(w.clone()),
            None => None,
        };
        match owner {
            Some(w) => {
                let req = RpcRequest::Call { call_id, object_name, method, args };
                self.send_to_client(&mut actions, &w, Outgoing::Request(req));
                return actions;
            },
            None => {},
        }
        let ghost s1 = self@;
        match self.services.remove(&object_name) {
            Some(svc) => {
                let mut svc = svc;
                let ghost sv = svc@;
                let req = RpcRequest::Call { call_id, object_name: object_name.clone(), method, args };
                let ghost rv = req@;
                match svc.state {
                    ServiceState::Stopped => {
                        svc.state = ServiceState::Starting;
                        svc.pending_calls.push(req);
                        let unit = svc.service_name.clone();
                        self.services.insert(object_name, svc);
                        let a = BrokerAction::StartService { unit };
                        actions.push(a);
                        proof {
                            assert(requests_view(svc.pending_calls@) =~= sv.pending_calls.push(rv));
                            assert(self.services@ =~= start.services.insert(object_name@, svc@));
                            assert(actions_view(actions@) =~= seq![a@]);
                        }
                    },
                    ServiceState::Starting => {
                        svc.pending_calls.push(req);
                        self.services.insert(object_name, svc);
                        proof {
                            assert(requests_view(svc.pending_calls@) =~= sv.pending_calls.push(rv));
                            assert(self.services@ =~= start.services.insert(object_name@, svc@));
                        }
                    },
                    ServiceState::Running(c) => {
                        svc.state = ServiceState::Running(c);
                        self.services.insert(object_name, svc);
                        proof {
                            assert(self.services@ =~= start.services);
                        }
                    },
                }
            },
            None => {
                let message = owned("No such object '").concat(object_name.as_str()).concat("'");
                let resp = RpcResponse::Error { call_id: Some(call_id), object_name, message };
                self.send_to_client(&mut actions, client_id, Outgoing::Response(resp));
                proof {
                    assert(self.services@ =~= start.services);
                }
            },
        }
        actions
    }

    /// Client `c` registers object `name`; a service waiting for it now runs
    /// on `c`, its queued calls go to `c`, and `c` gets a confirmation.
    pub fn handle_register_object(&mut self, object_name: String, client_id: &ClientId) -> (actions: Vec<
        BrokerAction,
    >)
        requires
            old(self).wf(),
        ensures
            final(self).wf(),
            (final(self)@, actions_view(actions@)) == old(self)@.register_object(object_name@, client_id@),
    {
        let ghost start = self@;
        self.objects.insert(object_name.clone(), client_id.clone());
        let mut actions: Vec<BrokerAction> = Vec::new();
        proof {
            assert(actions_view(actions@) =~= Seq::empty());
        }
        match self.services.remove(&object_name) {
            Some(svc) => {
                let ghost sv = svc@;
                let ServiceEntry { state: _, service_name, pending_calls, owner: _ } = svc;
                let running = ServiceEntry {
                    state: ServiceState::Running(client_id.clone()),
                    service_name,
                    pending_calls: Vec::new(),
                    owner: Some(client_id.clone()),
                };
                proof {
                    assert(running@.pending_calls =~= Seq::<RequestView>::empty());
                }
                self.services.insert(object_name.clone(), running);
                proof {
                    assert(self.services@ =~= start.services.insert(object_name@, running@));
                }
                self.flush_pending(&mut actions, pending_calls, client_id);
            },
            None => {
                proof {
                    assert(self.services@ =~= start.services);
                }
            },
        }
        self.send_to_client(
            &mut actions,
            client_id,
            Outgoing::Response(RpcResponse::Registered { object_name }),
        );
        actions
    }

    /// Forgets client `c`: it is no longer connected, its objects are
    /// unregistered, its subscriptions and the calls it waits for are
    /// dropped, the services it ran are reset, and queued calls whose caller
    /// is gone are discarded.
    pub fn cleanup_client(&mut self, client_id: &ClientId)
        requires
            old(self).wf(),
        ensures
            final(self).wf(),
            final(self)@ == old(self)@.cleanup(client_id@),
    {
        let ghost start = self@;
        let ghost c = client_id@;
        let _ = self.clients.remove(&client_id.0);
        drop_values(&mut self.objects, client_id);

        let ghost subs = start.subscriptions;
        let ghost pred = not_of(c);
        let mut rest: Vec<Subscription> = Vec::new();
        std::mem::swap(&mut rest, &mut self.subscriptions);
        let mut kept: Vec<Subscription> = Vec::new();
        let ghost mut k: int = 0;
        while rest.len() > 0
            invariant
                0 <= k <= subs.len(),
                subscriptions_view(rest@) == subs.skip(k),
                subscriptions_view(kept@) == subs.take(k).filter(pred),
                pred == not_of(c),
                c == client_id@,
            decreases rest@.len(),
        {
            let ghost before = rest@;
            let t = rest.remove(0);
            proof {
                assert(subscriptions_view(before).len() == before.len());
                assert(subscriptions_view(before)[0] == t@);
                assert(subs.skip(k)[0] == subs[k]);
                assert(subscriptions_view(rest@) =~= subs.skip(k + 1));
                assert(subs.take(k + 1) =~= subs.take(k).push(subs[k]));
                subs.take(k).lemma_filter_push(subs[k], pred);
            }
            if t.client.0 != client_id.0 {
                let ghost kb = kept@;
                kept.push(t);
                proof {
                    assert(subscriptions_view(kept@) =~= subscriptions_view(kb).push(subs[k]));
                }
            }
            proof {
                k = k + 1;
            }
        }
        proof {
            assert(subs.take(k) =~= subs);
            assert(subscriptions_view(kept@) == start.cleanup(c).subscriptions);
            lemma_filter_no_duplicates(subs, not_of(c));
        }
        self.subscriptions = kept;
        proof {
            assert(self@.subscriptions == start.cleanup(c).subscriptions);
        }

        drop_values(&mut self.calls, client_id);

        let ghost calls = self.calls@;
        let ghost svc0 = self.services;
        let ghost objects0 = self.objects;
        let ghost clients0 = self.clients;
        let ghost subs0 = self.subscriptions;
        let n = self.services.len();
        let mut i: usize = 0;
        while i < n
            invariant
                self.services.wf(),
                svc0.wf(),
                self.services.size() == n,
                svc0.size() == n,
                forall|j: int| 0 <= j < n ==> #[trigger] self.services.key_at(j) == svc0.key_at(j),
                self.calls.wf(),
                self.calls@ == calls,
                self.objects == objects0,
                self.clients == clients0,
                self.subscriptions == subs0,
                c == client_id@,
                i <= n,
                self.services@ == Map::new(
                    |kk: Seq<char>| svc0@.contains_key(kk),
                    |kk: Seq<char>| if among_first(svc0, kk, i as int) {
                        cleaned_service(svc0@[kk], c, calls)
                    } else {
                        svc0@[kk]
                    },
                ),
            decreases n - i,
        {
            let ghost key = svc0.key_at(i as int);
            let ghost before = self.services@;
            proof {
                svc0.lemma_entry(i as int);
                assert(!among_first(svc0, key, i as int)) by {
                    if among_first(svc0, key, i as int) {
                        let j = choose|j: int| 0 <= j < i && #[trigger] svc0.key_at(j) == key;
                        svc0.lemma_distinct(j, i as int);
                    }
                }
                assert(self.services.key_at(i as int) == key);
            }
            let svc = self.services.replace(i, ServiceEntry::stopped(String::new()));
            proof {
                assert(svc@ == svc0@[key]);
            }
            let owned_by_client = match &svc.owner {
                Some(o) => o.0 == client_id.0,
                None => false,
            };
            let cleaned = if owned_by_client {
                let e = ServiceEntry {
                    state: ServiceState::Stopped,
                    service_name: svc.service_name,
                    pending_calls: Vec::new(),
                    owner: None,
                };
                proof {
                    assert(e@.pending_calls =~= Seq::<RequestView>::empty());
                }
                e
            } else {
                let ServiceEntry { state, service_name, pending_calls, owner } = svc;
                ServiceEntry {
                    state,
                    service_name,
                    pending_calls: retain_pending(pending_calls, &self.calls),
                    owner,
                }
            };
            proof {
                assert(cleaned@ == cleaned_service(svc0@[key], c, calls));
            }
            let _ = self.services.replace(i, cleaned);
            proof {
                assert forall|kk: Seq<char>| among_first(svc0, kk, i + 1) <==> (among_first(svc0, kk, i as int) || kk == key) by {
                    if kk == key {
                        assert(svc0.key_at(i as int) == kk);
                    }
                    if among_first(svc0, kk, i + 1) && kk != key {
                        let j = choose|j: int| 0 <= j < i + 1 && #[trigger] svc0.key_at(j) == kk;
                        assert(j < i);
                    }
                }
                assert(self.services@ =~= Map::new(
                    |kk: Seq<char>| svc0@.contains_key(kk),
                    |kk: Seq<char>| if among_first(svc0, kk, i + 1) {
                        cleaned_service(svc0@[kk], c, calls)
                    } else {
                        svc0@[kk]
                    },
                ));
            }
            i = i + 1;
        }
        proof {
            assert forall|kk: Seq<char>| svc0@.contains_key(kk) implies among_first(svc0, kk, n as int) by {
                let j = svc0.lemma_key_position(kk);
                assert(svc0.key_at(j) == kk);
            }
            assert(self.services@ =~= start.cleanup(c).services);
            assert(self@.clients =~= start.cleanup(c).clients);
            assert(self@.objects == start.cleanup(c).objects);
            assert(self@.calls == start.cleanup(c).calls);
            assert(self@.subscriptions == start.cleanup(c).subscriptions);
        }
    }

    /// The answer of the broker's own `rob` object: `listObjects` lists the
    /// registered object names; any other method gives `null`.
    pub fn list_objects(&self, method: &str) -> (v: JsonValue)
        requires
            self.wf(),
        ensures
            method@ == "listObjects"@ ==> (v@ matches JsonView::Array(items) && lists_each_once(items, self@.objects.dom())),
            method@ != "listObjects"@ ==> v@ == JsonView::Null,
    {
        if owned(method) == owned("listObjects") {
            let mut items: Vec<JsonValue> = Vec::new();
            let mut i: usize = 0;
            while i < self.objects.len()
                invariant
                    self.wf(),
                    i <= self.objects.size(),
                    crate::json::view_values(items@).len() == i,
                    forall|j: int| 0 <= j < i ==> #[trigger] crate::json::view_values(items@)[j] == JsonView::String(self.objects.key_at(j)),
                decreases self.objects.size() - i,
            {
                let ghost before = items@;
                let item = JsonValue::String(self.objects.key(i).clone());
                items.push(item);
                proof {
                    assert(items@.drop_last() =~= before);
                    assert(item@ == JsonView::String(self.objects.key_at(i as int)));
                    assert(crate::json::view_values(items@) == crate::json::view_values(before).push(item@));
                }
                i = i + 1;
            }
            let ghost s = crate::json::view_values(items@);
            proof {
                assert forall|j: int| 0 <= j < s.len() implies (#[trigger] s[j] matches JsonView::String(k) && self@.objects.dom().contains(k)) by {
                    self.objects.lemma_entry(j);
                }
                assert forall|k: Seq<char>| #[trigger] self@.objects.dom().contains(k) implies exists|j: int| 0 <= j < s.len() && s[j] == JsonView::String(k) by {
                    let j = self.objects.lemma_key_position(k);
                    assert(s[j] == JsonView::String(k));
                }
                assert forall|a: int, b: int| 0 <= a < s.len() && 0 <= b < s.len() && a != b implies s[a] != s[b] by {
                    self.objects.lemma_distinct(a, b);
                }
            }
            JsonValue::Array(items)
        } else {
            JsonValue::Null
        }
    }

    /// The broker's reaction to a request from client `c`.
    pub fn handle_request(&mut self, req: RpcRequest, client_id: &ClientId) -> (actions: Vec<BrokerAction>)
        requires
            old(self).wf(),
        ensures
            final(self).wf(),
            (final(self)@, actions_view(actions@)) == old(self)@.request(req@, client_id@),
    {
        match req {
            RpcRequest::RegisterObject { object_name } => self.handle_register_object(object_name, client_id),
            RpcRequest::RegisterService { object_name, service_name } => {
                self.handle_register_service(object_name, service_name, client_id);
                let actions = Vec::new();
                proof {
                    assert(actions_view(actions@) =~= Seq::empty());
                }
                actions
            },
            RpcRequest::Call { call_id, object_name, method, args } => self.handle_call(
                call_id,
                object_name,
                method,
                args,
                client_id,
            ),
            RpcRequest::Subscribe { object_name, topic } => self.handle_subscribe(object_name, topic, client_id),
            RpcRequest::Publish { object_name, topic, args } => self.handle_publish(object_name, topic, args),
            RpcRequest::HasObject { object_name } => self.has_object(object_name, client_id),
        }
    }
}

/// A subscription that matches the topic and whose subscriber is connected
/// puts that subscriber among the recipients.
pub proof fn lemma_recipient_listed(
    subs: Seq<(Seq<char>, Seq<char>, Seq<char>)>,
    name: Seq<char>,
    topic: Seq<char>,
    clients: Set<Seq<char>>,
    i: int,
)
    requires
        0 <= i < subs.len(),
        subs[i].0 == name,
        subs[i].1 == topic,
        clients.contains(subs[i].2),
    ensures
        recipients(subs, name, topic, clients).contains(subs[i].2),
    decreases subs.len(),
{
    let before = recipients(subs.drop_last(), name, topic, clients);
    if i == subs.len() - 1 {
        assert(recipients(subs, name, topic, clients) == before.push(subs[i].2));
        assert(before.push(subs[i].2)[before.len() as int] == subs[i].2);
    } else {
        lemma_recipient_listed(subs.drop_last(), name, topic, clients, i);
        let j = choose|j: int| 0 <= j < before.len() && before[j] == subs[i].2;
        let r = recipients(subs, name, topic, clients);
        assert(r[j] == subs[i].2);
    }
}

/// Every recipient of a topic is a connected subscriber of it.
pub proof fn lemma_recipients_subscribed(
    subs: Seq<(Seq<char>, Seq<char>, Seq<char>)>,
    name: Seq<char>,
    topic: Seq<char>,
    clients: Set<Seq<char>>,
)
    ensures
        forall|j: int|
            0 <= j < recipients(subs, name, topic, clients).len() ==> {
                let r = #[trigger] recipients(subs, name, topic, clients)[j];
                &&& clients.contains(r)
                &&& subs.contains((name, topic, r))
            },
    decreases subs.len(),
{
    if subs.len() > 0 {
        let before = recipients(subs.drop_last(), name, topic, clients);
        lemma_recipients_subscribed(subs.drop_last(), name, topic, clients);
        assert forall|j: int| 0 <= j < recipients(subs, name, topic, clients).len() implies {
            let r = #[trigger] recipients(subs, name, topic, clients)[j];
            &&& clients.contains(r)
            &&& subs.contains((name, topic, r))
        } by {
            let r = recipients(subs, name, topic, clients)[j];
            if j < before.len() {
                assert(r == before[j]);
                let k = choose|k: int| 0 <= k < subs.drop_last().len() && subs.drop_last()[k] == (name, topic, r);
                assert(subs[k] == (name, topic, r));
            } else {
                assert(subs[subs.len() - 1] == (name, topic, r));
            }
        }
    }
}

/// A call to a registered object goes to the object's owner, and the
/// owner's result comes back to the caller exactly once: the call is then
/// forgotten, so a second result for it reaches nobody.
pub proof fn law_call_result_returns_to_caller(
    s: BrokerView,
    call_id: Seq<char>,
    name: Seq<char>,
    method: Seq<char>,
    args: JsonView,
    caller: Seq<char>,
    value: JsonView,
)
    requires
        s.objects.contains_key(name),
    ensures
        ({
            let (s1, forwarded) = s.call(call_id, name, method, args, caller);
            let result = ResponseView::Result { call_id, object_name: name, value };
            let (s2, answered) = s1.response(result);
            &&& forwarded == s.deliver(
                s.objects[name],
                MessageView::Request(RequestView::Call { call_id, object_name: name, method, args }),
            )
            &&& answered == s.deliver(caller, MessageView::Response(result))
            &&& s2.calls == s.calls.remove(call_id)
            &&& s2.response(result).1 == Seq::<ActionView>::empty()
        }),
{
    let (s1, _) = s.call(call_id, name, method, args, caller);
    assert(s1.calls.remove(call_id) =~= s.calls.remove(call_id));
}

/// A call for an object that is neither registered nor provided by a known
/// service is answered with an error naming the object.
pub proof fn law_unknown_object_call_fails(
    s: BrokerView,
    call_id: Seq<char>,
    name: Seq<char>,
    method: Seq<char>,
    args: JsonView,
    caller: Seq<char>,
)
    requires
        !s.objects.contains_key(name),
        !s.services.contains_key(name),
        s.clients.contains(caller),
    ensures
        s.call(call_id, name, method, args, caller).1 == seq![
            ActionView::Deliver {
                to: seq![caller],
                message: MessageView::Response(
                    ResponseView::Error {
                        call_id: Some(call_id),
                        object_name: name,
                        message: no_such_object(name),
                    },
                ),
            },
        ],
{
}

/// Once a client has registered an object, asking for the object finds it,
/// and calls for it go to that client.
pub proof fn law_registered_object_is_found(
    s: BrokerView,
    name: Seq<char>,
    owner: Seq<char>,
    asker: Seq<char>,
    call_id: Seq<char>,
    method: Seq<char>,
    args: JsonView,
)
    ensures
        ({
            let (s1, _) = s.register_object(name, owner);
            &&& s1.has_object(name, asker) == s.deliver(
                asker,
                MessageView::Response(ResponseView::HasObjectResult { object_name: name, exists: true }),
            )
            &&& s1.call(call_id, name, method, args, asker).1 == s.deliver(
                owner,
                MessageView::Request(RequestView::Call { call_id, object_name: name, method, args }),
            )
        }),
{
}

/// After a connected client subscribes to a topic, an event published on
/// that topic is sent to it.
pub proof fn law_subscriber_receives_event(
    s: BrokerView,
    name: Seq<char>,
    topic: Seq<char>,
    subscriber: Seq<char>,
    args: JsonView,
)
    requires
        s.clients.contains(subscriber),
    ensures
        ({
            let (s1, _) = s.subscribe(name, topic, subscriber);
            let sent = s1.publish(name, topic, args);
            &&& sent.len() == 1
            &&& sent[0] matches ActionView::Deliver { to, message }
            &&& to.contains(subscriber)
            &&& message == MessageView::Response(ResponseView::Event { object_name: name, topic, args })
        }),
{
    let t = (name, topic, subscriber);
    let (s1, _) = s.subscribe(name, topic, subscriber);
    let i = if s.subscriptions.contains(t) {
        choose|i: int| 0 <= i < s.subscriptions.len() && s.subscriptions[i] == t
    } else {
        s.subscriptions.len() as int
    };
    assert(s1.subscriptions[i] == t);
    lemma_recipient_listed(s1.subscriptions, name, topic, s1.clients, i);
}

/// An event goes only to connected clients that subscribed to its topic.
pub proof fn law_events_reach_only_subscribers(
    s: BrokerView,
    name: Seq<char>,
    topic: Seq<char>,
    args: JsonView,
)
    ensures
        forall|a: int| 0 <= a < s.publish(name, topic, args).len() ==> (#[trigger] s.publish(name, topic, args)[a] matches ActionView::Deliver { to, .. }
            && forall|j: int| 0 <= j < to.len() ==> s.clients.contains(#[trigger] to[j]) && s.subscriptions.contains((name, topic, to[j]))),
{
    lemma_recipients_subscribed(s.subscriptions, name, topic, s.clients);
}

/// A call for a stopped service starts the service and waits; when the
/// service's worker registers the object, the queued calls go to it in
/// order, then its registration is confirmed.
pub proof fn law_queued_calls_reach_started_service(
    s: BrokerView,
    call_id: Seq<char>,
    name: Seq<char>,
    method: Seq<char>,
    args: JsonView,
    caller: Seq<char>,
    worker: Seq<char>,
)
    requires
        !s.objects.contains_key(name),
        s.services.contains_key(name),
        s.services[name].state == StateView::Stopped,
    ensures
        ({
            let svc = s.services[name];
            let req = RequestView::Call { call_id, object_name: name, method, args };
            let (s1, started) = s.call(call_id, name, method, args, caller);
            let (s2, flushed) = s1.register_object(name, worker);
            &&& started == seq![ActionView::StartService { unit: svc.service_name }]
            &&& s1.services[name].state == StateView::Starting
            &&& flushed == s.flush(svc.pending_calls.push(req), worker) + s.deliver(
                worker,
                MessageView::Response(ResponseView::Registered { object_name: name }),
            )
            &&& s2.services[name].state == StateView::Running(worker)
            &&& s2.services[name].pending_calls == Seq::<RequestView>::empty()
        }),
{
}

/// A client that disconnects leaves nothing behind: it is not connected,
/// owns no object, subscribes to nothing, waits for no call and runs no
/// service; what belongs to other clients stays as it was, their calls in
/// flight among it, and no call is invented.
pub proof fn law_disconnect_forgets_client(s: BrokerView, c: Seq<char>)
    ensures
        ({
            let t = s.cleanup(c);
            &&& !t.clients.contains(c)
            &&& forall|k: Seq<char>| #[trigger] t.objects.contains_key(k) ==> t.objects[k] != c
            &&& forall|k: Seq<char>| s.objects.contains_key(k) && s.objects[k] != c ==> #[trigger] t.objects.contains_key(k) && t.objects[k] == s.objects[k]
            &&& forall|i: int| 0 <= i < t.subscriptions.len() ==> (#[trigger] t.subscriptions[i]).2 != c
            &&& forall|k: Seq<char>| #[trigger] t.calls.contains_key(k) ==> t.calls[k] != c
            &&& forall|k: Seq<char>| s.calls.contains_key(k) && s.calls[k] != c ==> #[trigger] t.calls.contains_key(k) && t.calls[k] == s.calls[k]
            &&& forall|k: Seq<char>| #[trigger] t.calls.contains_key(k) ==> s.calls.contains_key(k) && t.calls[k] == s.calls[k]
            &&& forall|k: Seq<char>| #[trigger] t.services.contains_key(k) ==> t.services[k].owner != Some(c)
        }),
{
    let t = s.cleanup(c);
    assert forall|i: int| 0 <= i < t.subscriptions.len() implies (#[trigger] t.subscriptions[i]).2 != c by {
        s.subscriptions.lemma_filter_pred(not_of(c), i);
    }
}

proof fn lemma_filter_twice<A>(s: Seq<A>, p: spec_fn(A) -> bool)
    ensures
        s.filter(p).filter(p) == s.filter(p),
    decreases s.len(),
{
    if s.len() > 0 {
        let rest = s.drop_last();
        let x = s.last();
        assert(rest.push(x) =~= s);
        lemma_filter_twice(rest, p);
        rest.lemma_filter_push(x, p);
        if p(x) {
            rest.filter(p).lemma_filter_push(x, p);
        }
    }
}

/// Cleaning up after a client a second time changes nothing: a
/// disconnection is forgotten completely the first time.
pub proof fn law_cleanup_is_idempotent(s: BrokerView, c: Seq<char>)
    ensures
        s.cleanup(c).cleanup(c) == s.cleanup(c),
{
    let t = s.cleanup(c);
    let u = t.cleanup(c);
    assert(u.objects =~= t.objects);
    assert(u.clients =~= t.clients);
    assert(u.calls =~= t.calls);
    lemma_filter_twice(s.subscriptions, not_of(c));
    assert(u.subscriptions =~= t.subscriptions);
    assert forall|k: Seq<char>| #[trigger] t.services.contains_key(k) implies u.services[k] == t.services[k] by {
        let svc = s.services[k];
        let keep = |r: RequestView| keeps_pending(r, t.calls);
        assert(t.services[k] == cleaned_service(svc, c, t.calls));
        assert(u.services[k] == cleaned_service(t.services[k], c, t.calls));
        if svc.owner != Some(c) {
            lemma_filter_twice(svc.pending_calls, keep);
        } else {
            assert(Seq::<RequestView>::empty().filter(keep) =~= Seq::<RequestView>::empty());
        }
    }
    assert(u.services =~= t.services);
}

/// Every running service is owned by the client it runs on.
pub open spec fn running_owned(services: Map<Seq<char>, ServiceView>) -> bool {
    forall|k: Seq<char>|
        #[trigger] services.contains_key(k) ==> (services[k].state matches StateView::Running(w)
            ==> services[k].owner == Some(w))
}

proof fn lemma_activations_keep_running_owned(services: Map<Seq<char>, ServiceView>, items: Seq<ActivationView>)
    requires
        running_owned(services),
    ensures
        running_owned(apply_activations(services, items)),
    decreases items.len(),
{
    if items.len() > 0 {
        lemma_activations_keep_running_owned(services, items.drop_last());
    }
}

/// A running service always belongs to the client that runs it: this holds
/// of a broker with no services, and every request, response, connection,
/// disconnection and reading of activation entries keeps it.
pub proof fn law_running_service_owned_by_its_worker(
    s: BrokerView,
    req: RequestView,
    resp: ResponseView,
    c: Seq<char>,
    items: Seq<ActivationView>,
)
    requires
        running_owned(s.services),
    ensures
        running_owned(Map::<Seq<char>, ServiceView>::empty()),
        running_owned(s.request(req, c).0.services),
        running_owned(s.response(resp).0.services),
        running_owned(s.connect(c).services),
        running_owned(s.cleanup(c).services),
        running_owned(apply_activations(s.services, items)),
{
    lemma_activations_keep_running_owned(s.services, items);
}

/// When a client leaves, the calls that other clients queued for a service
/// it does not run stay queued.
pub proof fn law_disconnect_keeps_others_queued_calls(s: BrokerView, c: Seq<char>, name: Seq<char>, r: RequestView)
    requires
        s.services.contains_key(name),
        s.services[name].owner != Some(c),
        s.services[name].pending_calls.contains(r),
        r matches RequestView::Call { call_id, .. } ==> s.calls.contains_key(call_id) && s.calls[call_id] != c,
    ensures
        s.cleanup(c).services.contains_key(name),
        s.cleanup(c).services[name].pending_calls.contains(r),
{
    let t = s.cleanup(c);
    let pending = s.services[name].pending_calls;
    let i = choose|i: int| 0 <= i < pending.len() && pending[i] == r;
    let keep = |q: RequestView| keeps_pending(q, t.calls);
    assert(keep(pending[i]));
    pending.lemma_filter_contains(keep, i);
    assert(t.services[name] == cleaned_service(s.services[name], c, t.calls));
}

/// Every call the broker takes records who made it, whether it goes to the
/// object's owner, waits for a service or is answered with an error: the
/// call's identity then maps to its caller, and the other calls in flight
/// are untouched.
pub proof fn law_call_records_its_caller(
    s: BrokerView,
    call_id: Seq<char>,
    name: Seq<char>,
    method: Seq<char>,
    args: JsonView,
    caller: Seq<char>,
)
    ensures
        s.call(call_id, name, method, args, caller).0.calls == s.calls.insert(call_id, caller),
        s.call(call_id, name, method, args, caller).0.clients == s.clients,
{
}

/// The caller of a call that waits for a service gets its answer: the call
/// starts the stopped service, the worker that then registers the object
/// receives the call, and the worker's result goes back to the caller, once.
pub proof fn law_queued_call_answer_reaches_caller(
    s: BrokerView,
    call_id: Seq<char>,
    name: Seq<char>,
    method: Seq<char>,
    args: JsonView,
    caller: Seq<char>,
    worker: Seq<char>,
    value: JsonView,
)
    requires
        s.clients.contains(caller),
        s.clients.contains(worker),
        !s.objects.contains_key(name),
        s.services.contains_key(name),
        s.services[name].state == StateView::Stopped,
    ensures
        ({
            let req = RequestView::Call { call_id, object_name: name, method, args };
            let resp = ResponseView::Result { call_id, object_name: name, value };
            let (s1, started) = s.call(call_id, name, method, args, caller);
            let (s2, flushed) = s1.register_object(name, worker);
            let (s3, answered) = s2.response(resp);
            &&& started == seq![ActionView::StartService { unit: s.services[name].service_name }]
            &&& flushed.contains(ActionView::Deliver { to: seq![worker], message: MessageView::Request(req) })
            &&& answered == seq![ActionView::Deliver { to: seq![caller], message: MessageView::Response(resp) }]
            &&& !s3.calls.contains_key(call_id)
        }),
{
    let req = RequestView::Call { call_id, object_name: name, method, args };
    let (s1, started) = s.call(call_id, name, method, args, caller);
    let (s2, flushed) = s1.register_object(name, worker);
    let pending = s.services[name].pending_calls.push(req);
    assert(s1.services[name].pending_calls == pending);
    let f = s2.flush(pending, worker);
    assert(f[pending.len() - 1] == ActionView::Deliver { to: seq![worker], message: MessageView::Request(req) });
    assert(flushed[pending.len() - 1] == f[pending.len() - 1]);
    assert(s2.calls == s.calls.insert(call_id, caller));
}

/// The answer to "does this object exist" says exactly whether a client has
/// registered it: a service that is only declared does not count, the
/// object exists once a worker registers it, and no longer once the worker
/// that registered it leaves.
pub proof fn law_has_object_answers_registration(s: BrokerView, name: Seq<char>, c: Seq<char>, worker: Seq<char>)
    requires
        s.clients.contains(c),
    ensures
        s.has_object(name, c) == seq![
            ActionView::Deliver {
                to: seq![c],
                message: MessageView::Response(
                    ResponseView::HasObjectResult { object_name: name, exists: s.objects.contains_key(name) },
                ),
            },
        ],
        s.has_object(name, c)[0]->Deliver_message->Response_0->HasObjectResult_exists == s.objects.contains_key(name),
        s.register_object(name, worker).0.has_object(name, c)[0]->Deliver_message->Response_0->HasObjectResult_exists,
        s.objects.contains_key(name) && s.objects[name] == worker && worker != c ==> !s.cleanup(worker).has_object(
            name,
            c,
        )[0]->Deliver_message->Response_0->HasObjectResult_exists,
{
}

/// A newly declared service is stopped, so the first call for it starts its
/// unit and waits in its queue.
pub proof fn law_declared_service_starts_on_first_call(
    s: BrokerView,
    name: Seq<char>,
    unit: Seq<char>,
    c: Seq<char>,
    call_id: Seq<char>,
    method: Seq<char>,
    args: JsonView,
    caller: Seq<char>,
)
    requires
        !s.services.contains_key(name),
        !s.objects.contains_key(name),
    ensures
        ({
            let s1 = s.register_service(name, unit, c);
            let (s2, acts) = s1.call(call_id, name, method, args, caller);
            &&& s1.services[name].state == StateView::Stopped
            &&& acts == seq![ActionView::StartService { unit }]
            &&& s2.services[name].state == StateView::Starting
            &&& s2.services[name].pending_calls == seq![
                RequestView::Call { call_id, object_name: name, method, args },
            ]
        }),
{
    let s1 = s.register_service(name, unit, c);
    assert(s1.services[name].pending_calls.push(RequestView::Call { call_id, object_name: name, method, args }) =~= seq![
        RequestView::Call { call_id, object_name: name, method, args },
    ]);
}

/// Every recipient of every delivery among `actions` is in `clients`.
pub open spec fn delivers_only_to(actions: Seq<ActionView>, clients: Set<Seq<char>>) -> bool {
    forall|a: int, j: int|
        #![trigger actions[a], clients.contains(actions[a]->Deliver_to[j])]
        0 <= a < actions.len() && actions[a] is Deliver && 0 <= j < actions[a]->Deliver_to.len()
            ==> clients.contains(actions[a]->Deliver_to[j])
}

/// The broker only ever sends messages to connected clients, whatever it
/// receives and from whom, and receiving a message connects or disconnects
/// nobody.
pub proof fn law_deliveries_reach_connected_clients(s: BrokerView, req: RequestView, resp: ResponseView, c: Seq<char>)
    ensures
        delivers_only_to(s.request(req, c).1, s.clients),
        delivers_only_to(s.response(resp).1, s.clients),
        s.request(req, c).0.clients == s.clients,
        s.response(resp).0.clients == s.clients,
{
    match req {
        RequestView::RegisterObject { object_name } => {
            let (after, acts) = s.register_object(object_name, c);
            if s.services.contains_key(object_name) {
                let f = after.flush(s.services[object_name].pending_calls, c);
                let d = after.deliver(c, MessageView::Response(ResponseView::Registered { object_name }));
                assert forall|a: int, j: int|
                    0 <= a < acts.len() && acts[a] is Deliver && 0 <= j < acts[a]->Deliver_to.len()
                        implies s.clients.contains(acts[a]->Deliver_to[j]) by {
                    if a < f.len() {
                        assert(acts[a] == f[a]);
                    } else {
                        assert(acts[a] == d[a - f.len()]);
                    }
                }
            }
        },
        RequestView::Publish { object_name, topic, args } => {
            lemma_recipients_subscribed(s.subscriptions, object_name, topic, s.clients);
        },
        _ => {},
    }
}

proof fn lemma_push_no_duplicates<A>(s: Seq<A>, x: A)
    requires
        s.no_duplicates(),
        !s.contains(x),
    ensures
        s.push(x).no_duplicates(),
{
    assert forall|i: int, j: int| 0 <= i < s.push(x).len() && 0 <= j < s.push(x).len() && i != j implies s.push(x)[i] != s.push(x)[j] by {
        if i == s.len() {
            assert(s[j] != x);
        } else if j == s.len() {
            assert(s[i] != x);
        }
    }
}

proof fn lemma_filter_no_duplicates<A>(s: Seq<A>, p: spec_fn(A) -> bool)
    requires
        s.no_duplicates(),
    ensures
        s.filter(p).no_duplicates(),
    decreases s.len(),
{
    if s.len() > 0 {
        let rest = s.drop_last();
        let x = s.last();
        assert(rest.push(x) =~= s);
        lemma_filter_no_duplicates(rest, p);
        rest.lemma_filter_push(x, p);
        if p(x) {
            if rest.filter(p).contains(x) {
                rest.lemma_filter_contains_rev(p, x);
                let k = choose|k: int| 0 <= k < rest.len() && rest[k] == x;
                assert(s[k] == s[s.len() - 1]);
            }
            lemma_push_no_duplicates(rest.filter(p), x);
        }
    }
}

proof fn lemma_recipients_no_duplicates(
    subs: Seq<(Seq<char>, Seq<char>, Seq<char>)>,
    name: Seq<char>,
    topic: Seq<char>,
    clients: Set<Seq<char>>,
)
    requires
        subs.no_duplicates(),
    ensures
        recipients(subs, name, topic, clients).no_duplicates(),
    decreases subs.len(),
{
    if subs.len() > 0 {
        let rest = subs.drop_last();
        let t = subs.last();
        lemma_recipients_no_duplicates(rest, name, topic, clients);
        let before = recipients(rest, name, topic, clients);
        if t.0 == name && t.1 == topic && clients.contains(t.2) {
            if before.contains(t.2) {
                let j = choose|j: int| 0 <= j < before.len() && before[j] == t.2;
                lemma_recipients_subscribed(rest, name, topic, clients);
                assert(rest.contains((name, topic, before[j])));
                let k = choose|k: int| 0 <= k < rest.len() && rest[k] == (name, topic, t.2);
                assert(subs[k] == subs[subs.len() - 1]);
            }
            lemma_push_no_duplicates(before, t.2);
        }
    }
}

/// A client subscribes to a topic at most once, however often it asks, so
/// each event reaches each subscriber once: the broker's subscriptions never
/// repeat, its handling of any message and a disconnection keep them so, and
/// the recipients of an event are all distinct.
pub proof fn law_each_subscriber_hears_an_event_once(
    b: BrokerState,
    req: RequestView,
    resp: ResponseView,
    c: Seq<char>,
    name: Seq<char>,
    topic: Seq<char>,
)
    requires
        b.wf(),
    ensures
        b@.subscriptions.no_duplicates(),
        b@.request(req, c).0.subscriptions.no_duplicates(),
        b@.response(resp).0.subscriptions.no_duplicates(),
        b@.cleanup(c).subscriptions.no_duplicates(),
        recipients(b@.subscriptions, name, topic, b@.clients).no_duplicates(),
{
    let s = b@;
    lemma_filter_no_duplicates(s.subscriptions, not_of(c));
    lemma_recipients_no_duplicates(s.subscriptions, name, topic, s.clients);
    match req {
        RequestView::Subscribe { object_name, topic: t } => {
            if !s.subscriptions.contains((object_name, t, c)) {
                lemma_push_no_duplicates(s.subscriptions, (object_name, t, c));
            }
        },
        _ => {},
    }
}

} // verus!
