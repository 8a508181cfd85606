//! On-demand services: objects whose worker the broker starts when a call
//! for them arrives.
use crate::rpc::{owned, ClientId, RequestView, RpcRequest};
use crate::table::StrMap;
use vstd::prelude::*;

verus! {

/// One entry of a service activation file.
#[derive(Debug, PartialEq)]
pub struct ServiceActivationFile {
    /// The entry's type; only `RegisterService` entries are used.
    pub kind: String,
    pub object_name: String,
    pub service_name: String,
}

/// Where a service's worker is in its life.
#[derive(Debug, PartialEq)]
pub enum ServiceState {
    Stopped,
    Starting,
    Running(ClientId),
}

/// A service the broker knows how to start, with the calls waiting for it.
#[derive(Debug, PartialEq)]
pub struct ServiceEntry {
    pub state: ServiceState,
    pub service_name: String,
    pub pending_calls: Vec<RpcRequest>,
    pub owner: Option<ClientId>,
}

/// The model of a service's state.
pub enum StateView {
    Stopped,
    Starting,
    Running(Seq<char>),
}

/// The model of a service entry.
pub struct ServiceView {
    pub state: StateView,
    pub service_name: Seq<char>,
    pub pending_calls: Seq<RequestView>,
    pub owner: Option<Seq<char>>,
}

/// The model of an activation file entry.
pub struct ActivationView {
    pub kind: Seq<char>,
    pub object_name: Seq<char>,
    pub service_name: Seq<char>,
}

impl View for ServiceState {
    type V = StateView;

    open spec fn view(&self) -> StateView {
        match self {
            ServiceState::Stopped => StateView::Stopped,
            ServiceState::Starting => StateView::Starting,
            ServiceState::Running(c) => StateView::Running(c@),
        }
    }
}

/// The models of a sequence of requests.
pub open spec fn requests_view(s: Seq<RpcRequest>) -> Seq<RequestView> {
    s.map_values(|r: RpcRequest| r@)
}

impl View for ServiceEntry {
    type V = ServiceView;

    open spec fn view(&self) -> ServiceView {
        ServiceView {
            state: self.state@,
            service_name: self.service_name@,
            pending_calls: requests_view(self.pending_calls@),
            owner: match self.owner {
                Some(c) => Some(c@),
                None => None,
            },
        }
    }
}

impl View for ServiceActivationFile {
    type V = ActivationView;

    open spec fn view(&self) -> ActivationView {
        ActivationView {
            kind: self.kind@,
            object_name: self.object_name@,
            service_name: self.service_name@,
        }
    }
}

/// The type of activation entry that declares a service.
pub open spec fn register_service_kind() -> Seq<char> {
    seq!['R', 'e', 'g', 'i', 's', 't', 'e', 'r', 'S', 'e', 'r', 'v', 'i', 'c', 'e']
}

/// A service that is known but not started.
pub open spec fn stopped_service(service_name: Seq<char>) -> ServiceView {
    ServiceView {
        state: StateView::Stopped,
        service_name,
        pending_calls: Seq::empty(),
        owner: None,
    }
}

/// The services after reading activation entries in order: each
/// `RegisterService` entry declares its object as a stopped service, and
/// other entries are ignored.
pub open spec fn apply_activations(
    services: Map<Seq<char>, ServiceView>,
    items: Seq<ActivationView>,
) -> Map<Seq<char>, ServiceView>
    decreases items.len(),
{
    if items.len() == 0 {
        services
    } else {
        let before = apply_activations(services, items.drop_last());
        let item = items.last();
        if item.kind == register_service_kind() {
            before.insert(item.object_name, stopped_service(item.service_name))
        } else {
            before
        }
    }
}

impl ServiceEntry {
    /// A stopped service with no pending calls and no owner.
    pub fn stopped(service_name: String) -> (e: ServiceEntry)
        ensures
            e@ == stopped_service(service_name@),
    {
        let e = ServiceEntry {
            state: ServiceState::Stopped,
            service_name,
            pending_calls: Vec::new(),
            owner: None,
        };
        proof {
            assert(e@.pending_calls =~= Seq::<RequestView>::empty());
        }
        e
    }
}

/// Declares the services that activation entries describe.
pub fn load_service_activations(
    services: &mut StrMap<ServiceEntry>,
    items: Vec<ServiceActivationFile>,
)
    requires
        old(services).wf(),
    ensures
        final(services).wf(),
        final(services)@ == apply_activations(
            old(services)@,
            items@.map_values(|i: ServiceActivationFile| i@),
        ),
{
    let ghost start = services@;
    let ghost all = items@.map_values(|i: ServiceActivationFile| i@);
    let expected = owned("RegisterService");
    proof {
        reveal_strlit("RegisterService");
        assert(expected@ =~= register_service_kind());
    }
    let mut i: usize = 0;
    while i < items.len()
        invariant
            services.wf(),
            i <= items@.len(),
            all == items@.map_values(|i: ServiceActivationFile| i@),
            expected@ == register_service_kind(),
            services@ == apply_activations(start, all.take(i as int)),
        decreases items@.len() - i,
    {
        let item = &items[i];
        proof {
            assert(all.take(i + 1).drop_last() =~= all.take(i as int));
            assert(all.take(i + 1).last() == item@);
        }
        if item.kind == expected {
            services.insert(item.object_name.clone(), ServiceEntry::stopped(item.service_name.clone()));
        }
        i = i + 1;
    }
    proof {
        assert(all.take(i as int) =~= all);
    }
}

} // verus!
