//! Explicit protocol planners. All writes and validation stay protocol-independent.
pub mod hysteria2;
pub mod properties;
pub mod vless;

use vstd::prelude::*;
use crate::binding::{ConfigRefView, EndpointRef, EndpointView, Inventory, InventoryView, ServiceBinding,
    ServiceView, client_selected, field_ref, has_ambiguity, label_text, service_clients, services_view, spec_client_selected, endpoints_view};
use crate::cli::{Input, Protocol};
use crate::config::{ConfigSet, strings_of};
use crate::error::{Error, ErrorKind};
use crate::json::{Json, JsonView, lookup_pointer};
use crate::plan::{OperationKind, RotationPlan};
use crate::text::{append_str, u64_text};

verus! {

/// Which services an operation can apply to.
#[derive(Clone, Copy, Debug, PartialEq, Eq, Structural)]
pub enum Eligibility {
    /// Every service.
    Any,
    /// Reality on the inbound and on some bound client.
    RealityClients,
    /// Reality on the inbound and on some selected bound client.
    SelectedRealityClients,
}

/// The JSON value an endpoint names.
pub open spec fn endpoint_json(configs: ConfigSet, ep: EndpointView) -> Option<JsonView> {
    configs.spec_value(ep.config.file, ep.config.pointer)
}

/// TLS and Reality are both enabled on the endpoint.
pub open spec fn reality_on(configs: ConfigSet, ep: EndpointView) -> bool {
    match endpoint_json(configs, ep) {
        Some(v) => lookup_pointer(v, "/tls/enabled"@) == Some(JsonView::Bool(true))
            && lookup_pointer(v, "/tls/reality/enabled"@) == Some(JsonView::Bool(true)),
        None => false,
    }
}

pub open spec fn selected_by(configs: ConfigSet, input: Input, ep: EndpointView) -> bool {
    spec_client_selected(ep, configs.selected(), strings_of(input.client_tag@))
}

/// Some client has Reality enabled (and is selected, when `require_selected`).
pub open spec fn some_reality_client(configs: ConfigSet, input: Input, clients: Seq<EndpointView>, require_selected: bool) -> bool {
    exists|i: int| 0 <= i < clients.len() && reality_on(configs, #[trigger] clients[i])
        && (!require_selected || selected_by(configs, input, clients[i]))
}

/// Some client is selected (any client, when the operation is not client-selectable).
pub open spec fn some_selected_client(configs: ConfigSet, input: Input, clients: Seq<EndpointView>, client_selectable: bool) -> bool {
    exists|i: int| 0 <= i < clients.len() && (!client_selectable || selected_by(configs, input, #[trigger] clients[i]))
}

pub open spec fn eligible(configs: ConfigSet, input: Input, svc: ServiceView, which: Eligibility) -> bool {
    match which {
        Eligibility::Any => true,
        Eligibility::RealityClients => reality_on(configs, svc.inbound)
            && some_reality_client(configs, input, service_clients(svc), false),
        Eligibility::SelectedRealityClients => reality_on(configs, svc.inbound)
            && some_reality_client(configs, input, service_clients(svc), true),
    }
}

/// A service an operation can apply to: of the protocol, eligible, and with a
/// bound client (a selected one, for client-selectable operations).
pub open spec fn candidate(configs: ConfigSet, input: Input, svc: ServiceView, protocol: Option<Protocol>, client_selectable: bool, which: Eligibility) -> bool {
    &&& (protocol matches Some(p) ==> svc.protocol == p)
    &&& eligible(configs, input, svc, which)
    &&& some_selected_client(configs, input, service_clients(svc), client_selectable)
}

/// The positions of candidate services, from position `i` on.
pub open spec fn candidate_positions(configs: ConfigSet, input: Input, svcs: Seq<ServiceView>, protocol: Option<Protocol>, client_selectable: bool, which: Eligibility, i: nat) -> Seq<int>
    decreases svcs.len() - i,
{
    if i >= svcs.len() {
        Seq::empty()
    } else {
        (if candidate(configs, input, svcs[i as int], protocol, client_selectable, which) { seq![i as int] } else { Seq::empty() })
            + candidate_positions(configs, input, svcs, protocol, client_selectable, which, i + 1)
    }
}

/// The one service an operation applies to.
pub open spec fn chosen_service(configs: ConfigSet, inv: InventoryView, input: Input, protocol: Option<Protocol>, client_selectable: bool, which: Eligibility) -> Result<int, ErrorKind> {
    if !client_selectable && (input.client@.len() > 0 || input.client_tag@.len() > 0) {
        Err(ErrorKind::ServiceWideSelectors)
    } else if (protocol matches Some(p) ==> p == Protocol::Vless) && has_ambiguity(inv, Protocol::Vless) {
        Err(ErrorKind::Ambiguous)
    } else if (protocol matches Some(p) ==> p == Protocol::Hysteria2) && has_ambiguity(inv, Protocol::Hysteria2) {
        Err(ErrorKind::Ambiguous)
    } else {
        let found = candidate_positions(configs, input, inv.services, protocol, client_selectable, which, 0);
        if found.len() == 0 {
            Err(ErrorKind::NoMatchingService)
        } else if found.len() > 1 {
            Err(ErrorKind::MultipleServices)
        } else {
            Ok(found[0])
        }
    }
}


/// Whether TLS and Reality are both enabled on an endpoint.
pub fn reality_enabled(configs: &ConfigSet, endpoint: &EndpointRef) -> (r: bool)
    ensures
        r == reality_on(*configs, endpoint@),
{
    match configs.value(endpoint.config.file.as_str(), endpoint.config.pointer.as_str()) {
        Ok(v) => {
            let tls = match v.pointer("/tls/enabled") {
                Some(Json::Bool(b)) => *b,
                _ => false,
            };
            let reality = match v.pointer("/tls/reality/enabled") {
                Some(Json::Bool(b)) => *b,
                _ => false,
            };
            tls && reality
        },
        Err(_) => false,
    }
}

fn any_reality(configs: &ConfigSet, input: &Input, clients: &Vec<EndpointRef>, require_selected: bool) -> (r: bool)
    ensures
        r == some_reality_client(*configs, *input, endpoints_view(clients@), require_selected),
{
    let ghost cs = endpoints_view(clients@);
    let mut i: usize = 0;
    while i < clients.len()
        invariant
            i <= clients@.len(),
            cs == endpoints_view(clients@),
            forall|k: int| 0 <= k < i ==> !(reality_on(*configs, #[trigger] cs[k])
                && (!require_selected || selected_by(*configs, *input, cs[k]))),
        decreases clients@.len() - i,
    {
        assert(cs[i as int] == clients@[i as int]@);
        if reality_enabled(configs, &clients[i]) && (!require_selected || client_selected(&clients[i], configs, input)) {
            return true;
        }
        i = i + 1;
    }
    false
}

pub(crate) fn any_selected(configs: &ConfigSet, input: &Input, clients: &Vec<EndpointRef>, client_selectable: bool) -> (r: bool)
    ensures
        r == some_selected_client(*configs, *input, endpoints_view(clients@), client_selectable),
{
    let ghost cs = endpoints_view(clients@);
    let mut i: usize = 0;
    while i < clients.len()
        invariant
            i <= clients@.len(),
            cs == endpoints_view(clients@),
            !client_selectable ==> i == 0,
            forall|k: int| 0 <= k < i ==> !(!client_selectable || selected_by(*configs, *input, #[trigger] cs[k])),
        decreases clients@.len() - i,
    {
        assert(cs[i as int] == clients@[i as int]@);
        if !client_selectable || client_selected(&clients[i], configs, input) {
            return true;
        }
        i = i + 1;
    }
    false
}

pub(crate) fn is_candidate(configs: &ConfigSet, input: &Input, svc: &ServiceBinding, protocol: Option<Protocol>, client_selectable: bool, which: Eligibility) -> (r: bool)
    ensures
        r == candidate(*configs, *input, svc@, protocol, client_selectable, which),
{
    let clients = svc.clients();
    let protocol_ok = match protocol {
        Some(p) => svc.protocol == p,
        None => true,
    };
    if !protocol_ok {
        return false;
    }
    let eligible_ok = match which {
        Eligibility::Any => true,
        Eligibility::RealityClients => reality_enabled(configs, &svc.inbound) && any_reality(configs, input, &clients, false),
        Eligibility::SelectedRealityClients => reality_enabled(configs, &svc.inbound) && any_reality(configs, input, &clients, true),
    };
    if !eligible_ok {
        return false;
    }
    any_selected(configs, input, &clients, client_selectable)
}

/// The one service that a service-level operation applies to.
pub fn one_service(configs: &ConfigSet, inventory: &Inventory, input: &Input, protocol: Option<Protocol>, client_selectable: bool, which: Eligibility) -> (r: Result<usize, Error>)
    ensures
        match r {
            Ok(i) => chosen_service(*configs, inventory@, *input, protocol, client_selectable, which) == Ok::<int, ErrorKind>(i as int),
            Err(e) => chosen_service(*configs, inventory@, *input, protocol, client_selectable, which) == Err::<int, ErrorKind>(e.kind),
        },
{
    if !client_selectable && (input.client.len() > 0 || input.client_tag.len() > 0) {
        return Err(Error::plain(ErrorKind::ServiceWideSelectors));
    }
    let check_vless = match protocol {
        Some(p) => p == Protocol::Vless,
        None => true,
    };
    if check_vless {
        inventory.ensure_unambiguous(Protocol::Vless)?;
    }
    let check_hysteria = match protocol {
        Some(p) => p == Protocol::Hysteria2,
        None => true,
    };
    if check_hysteria {
        inventory.ensure_unambiguous(Protocol::Hysteria2)?;
    }
    let ghost svcs = services_view(inventory.services@);
    let ghost total = candidate_positions(*configs, *input, svcs, protocol, client_selectable, which, 0);
    let mut found: Vec<usize> = Vec::new();
    let mut i: usize = 0;
    assert(found@.map_values(|x: usize| x as int) + total =~= total);
    while i < inventory.services.len()
        invariant
            svcs == services_view(inventory.services@),
            total == candidate_positions(*configs, *input, svcs, protocol, client_selectable, which, 0),
            i <= svcs.len(),
            found@.map_values(|x: usize| x as int) + candidate_positions(*configs, *input, svcs, protocol, client_selectable, which, i as nat) == total,
        decreases svcs.len() - i,
    {
        assert(svcs[i as int] == inventory.services@[i as int]@);
        let ghost before = found@.map_values(|x: usize| x as int);
        let ghost rest = candidate_positions(*configs, *input, svcs, protocol, client_selectable, which, (i + 1) as nat);
        if is_candidate(configs, input, &inventory.services[i], protocol, client_selectable, which) {
            found.push(i);
            assert(found@.map_values(|x: usize| x as int) =~= before.push(i as int));
            assert(found@.map_values(|x: usize| x as int) + rest =~= before + (seq![i as int] + rest));
        } else {
            assert(candidate_positions(*configs, *input, svcs, protocol, client_selectable, which, i as nat) =~= rest);
        }
        i = i + 1;
    }
    assert(found@.map_values(|x: usize| x as int) =~= total);
    if found.len() == 0 {
        return Err(Error::plain(ErrorKind::NoMatchingService));
    }
    if found.len() > 1 {
        return Err(Error::plain(ErrorKind::MultipleServices));
    }
    assert(total[0] == found@[0] as int);
    Ok(found[0])
}


/// The string at `field` of an endpoint.
pub open spec fn string_at(configs: ConfigSet, ep: EndpointView, field: Seq<char>) -> Result<Seq<char>, ErrorKind> {
    let r = field_ref(ep, field);
    match configs.spec_value(r.file, r.pointer) {
        None => Err(ErrorKind::MissingLocation),
        Some(JsonView::String(s)) => Ok(s),
        Some(_) => Err(ErrorKind::NotAString),
    }
}

/// The string at `field` (a '/'-separated path) of an endpoint.
pub fn string_field<'a>(configs: &'a ConfigSet, endpoint: &EndpointRef, field: &str) -> (r: Result<&'a String, Error>)
    ensures
        match r {
            Ok(s) => string_at(*configs, endpoint@, field@) == Ok::<Seq<char>, ErrorKind>(s@),
            Err(e) => string_at(*configs, endpoint@, field@) == Err::<Seq<char>, ErrorKind>(e.kind)
                && e.context@ == (if e.kind == ErrorKind::NotAString {
                    label_text(endpoint@) + ": "@ + field@ + " must be a string"@
                } else {
                    field_ref(endpoint@, field@).file + "#"@ + field_ref(endpoint@, field@).pointer
                }),
        },
{
    let target = endpoint.field(field);
    match configs.value(target.file.as_str(), target.pointer.as_str()) {
        Ok(v) => match v.as_string() {
            Some(s) => Ok(s),
            None => {
                let mut context = endpoint.label();
                append_str(&mut context, ": ");
                append_str(&mut context, field);
                append_str(&mut context, " must be a string");
                Err(Error::new(ErrorKind::NotAString, context))
            },
        },
        Err(e) => Err(e),
    }
}

/// The context line of a plan on one service: its protocol, its inbound and how
/// many client outbounds are bound to it.
pub open spec fn service_context(s: ServiceView) -> Seq<char> {
    s.protocol.spec_name() + " inbound="@ + label_text(s.inbound) + ", "@
        + crate::text::decimal(service_clients(s).len()) + " bound client occurrence(s)"@
}

/// The context line of a plan on one service.
pub fn service_context_line(service: &ServiceBinding) -> (r: String)
    ensures
        r@ == service_context(service@),
{
    let mut line = String::new();
    append_str(&mut line, service.protocol.name());
    append_str(&mut line, " inbound=");
    let label = service.inbound.label();
    append_str(&mut line, label.as_str());
    append_str(&mut line, ", ");
    let clients = service.clients();
    assert(service_clients(service@).len() == clients@.len());
    let n = u64_text(clients.len() as u64);
    append_str(&mut line, n.as_str());
    append_str(&mut line, " bound client occurrence(s)");
    line
}

/// An empty plan whose context line names the service.
pub fn service_plan(service: &ServiceBinding, operation: OperationKind) -> (r: RotationPlan)
    ensures
        r.operation == operation,
        r@ == Seq::<crate::plan::EditView>::empty(),
        strings_of(r.contexts@) == seq![service_context(service@)],
{
    let mut plan = RotationPlan::new(operation);
    let line = service_context_line(service);
    plan.contexts.push(line);
    assert(strings_of(plan.contexts@) =~= seq![service_context(service@)]);
    plan
}


proof fn lemma_candidate_positions_bounds(configs: ConfigSet, input: Input, svcs: Seq<ServiceView>, protocol: Option<Protocol>, client_selectable: bool, which: Eligibility, i: nat)
    ensures
        forall|k: int| 0 <= k < candidate_positions(configs, input, svcs, protocol, client_selectable, which, i).len() ==>
            i <= #[trigger] candidate_positions(configs, input, svcs, protocol, client_selectable, which, i)[k] < svcs.len(),
    decreases svcs.len() - i,
{
    if i < svcs.len() {
        lemma_candidate_positions_bounds(configs, input, svcs, protocol, client_selectable, which, i + 1);
        let head: Seq<int> = if candidate(configs, input, svcs[i as int], protocol, client_selectable, which) { seq![i as int] } else { Seq::empty() };
        let rest = candidate_positions(configs, input, svcs, protocol, client_selectable, which, i + 1);
        let all = candidate_positions(configs, input, svcs, protocol, client_selectable, which, i);
        assert(all == head + rest);
        assert forall|k: int| 0 <= k < all.len() implies i <= #[trigger] all[k] < svcs.len() by {
            if k < head.len() {
                assert(all[k] == head[k]);
            } else {
                assert(all[k] == rest[k - head.len()]);
            }
        }
    }
}

pub proof fn lemma_chosen_service_bounds(configs: ConfigSet, inv: InventoryView, input: Input, protocol: Option<Protocol>, client_selectable: bool, which: Eligibility)
    ensures
        chosen_service(configs, inv, input, protocol, client_selectable, which) matches Ok(i) ==> 0 <= i < inv.services.len(),
{
    lemma_candidate_positions_bounds(configs, input, inv.services, protocol, client_selectable, which, 0);
}

} // verus!
