//! Service properties set on every bound client: the server address, its port or
//! port ranges, and the TLS server name. The server's listen port never changes.
use vstd::prelude::*;
use crate::binding::{ConfigRefView, EndpointRef, EndpointView, Inventory, InventoryView, endpoints_view, field_ref, service_clients};
use crate::cli::{Input, PropertyKind, Protocol};
use crate::config::{ConfigSet, strings_of};
use crate::error::{Error, ErrorKind};
use crate::json::{Json, JsonNumber, JsonView, NumberView, items_view, lemma_array_view, lookup_pointer, member_of};
use crate::plan::{EditView, OperationKind, RotationPlan, plan_edits};
use crate::text::{all_digits, any_whitespace, append_str, chars_of, decimal, decimal_value, has_white_space,
    lemma_decimal_value_prefix, split_on, split_once, split_once_chars, string_of, trim, trim_chars, u64_text};
use super::{Eligibility, chosen_service, endpoint_json, one_service, service_context, service_plan};

verus! {

/// A port number: a nonempty decimal numeral (leading zeros allowed) of a value
/// from 1 through 65535.
pub open spec fn port_of(t: Seq<char>) -> Option<u16> {
    if t.len() > 0 && all_digits(t) && 0 < decimal_value(t) <= 65535 {
        Some(decimal_value(t) as u16)
    } else {
        None
    }
}

/// Why a text is no port: a numeral of zero is out of range; anything else is
/// not a port number at all.
pub open spec fn port_refusal(t: Seq<char>) -> ErrorKind {
    if t.len() > 0 && all_digits(t) && decimal_value(t) == 0 {
        ErrorKind::ZeroPort
    } else {
        ErrorKind::InvalidPort
    }
}

/// One entry of a port list: a range `start:end` with `start <= end`, or a single
/// port `p`, which stands for `p:p`. White space around the entry is ignored.
pub open spec fn port_entry(e: Seq<char>) -> Result<Seq<char>, ErrorKind> {
    let t = trim(e);
    match split_once(t, ':') {
        Some((a, b)) => match (port_of(a), port_of(b)) {
            (Some(x), Some(y)) => if x <= y {
                Ok(decimal(x as nat) + ":"@ + decimal(y as nat))
            } else {
                Err(ErrorKind::InvalidPortRange)
            },
            (None, _) => Err(port_refusal(a)),
            (_, None) => Err(port_refusal(b)),
        },
        None => match port_of(t) {
            Some(p) => Ok(decimal(p as nat) + ":"@ + decimal(p as nat)),
            None => Err(port_refusal(t)),
        },
    }
}

/// The ranges of a list of entries, or the first entry's failure.
pub open spec fn port_entries(es: Seq<Seq<char>>) -> Result<Seq<Seq<char>>, ErrorKind>
    decreases es.len(),
{
    if es.len() == 0 {
        Ok(Seq::empty())
    } else {
        match port_entry(es[0]) {
            Err(e) => Err(e),
            Ok(x) => match port_entries(es.drop_first()) {
                Err(e) => Err(e),
                Ok(rest) => Ok(seq![x] + rest),
            },
        }
    }
}

pub open spec fn strings_json(xs: Seq<Seq<char>>) -> Seq<JsonView> {
    xs.map_values(|x: Seq<char>| JsonView::String(x))
}

/// The JSON value a property is set to, from the text the user gave.
pub open spec fn spec_property_value(kind: PropertyKind, v: Seq<char>) -> Result<JsonView, ErrorKind> {
    match kind {
        PropertyKind::Server | PropertyKind::TlsServerName => if v.len() > 0 && !has_white_space(v) {
            Ok(JsonView::String(v))
        } else {
            Err(ErrorKind::InvalidName)
        },
        PropertyKind::ServerPort => match port_of(v) {
            Some(p) => Ok(JsonView::Number(NumberView::Unsigned(p as u64))),
            None => Err(port_refusal(v)),
        },
        PropertyKind::ServerPorts => match port_entries(split_on(v, ',')) {
            Ok(xs) => Ok(JsonView::Array(strings_json(xs))),
            Err(e) => Err(e),
        },
    }
}

fn port_chars(cs: &Vec<char>) -> (r: Result<u16, Error>)
    ensures
        match r {
            Ok(p) => port_of(cs@) == Some(p),
            Err(e) => port_of(cs@) is None && e.kind == port_refusal(cs@) && e.context@ == Seq::<char>::empty(),
        },
{
    let n = cs.len();
    if n == 0 {
        return Err(Error::plain(ErrorKind::InvalidPort));
    }
    let mut value: u32 = 0;
    let mut i: usize = 0;
    while i < n
        invariant
            n == cs@.len(),
            i <= n,
            forall|k: int| 0 <= k < i ==> crate::text::is_digit(#[trigger] cs@[k]),
            value == decimal_value(cs@.take(i as int)),
            value <= 65535,
        decreases n - i,
    {
        let c = cs[i];
        if !('0' <= c && c <= '9') {
            assert(!all_digits(cs@));
            return Err(Error::plain(ErrorKind::InvalidPort));
        }
        let d = (c as u32) - ('0' as u32);
        assert(cs@.take(i + 1).drop_last() =~= cs@.take(i as int));
        let next = value * 10 + d;
        if next > 65535 {
            proof {
                assert(decimal_value(cs@.take(i + 1)) == next);
                if all_digits(cs@) {
                    lemma_decimal_value_prefix(cs@, i + 1);
                }
            }
            return Err(Error::plain(ErrorKind::InvalidPort));
        }
        value = next;
        i = i + 1;
    }
    assert(cs@.take(n as int) =~= cs@);
    if value == 0 {
        return Err(Error::plain(ErrorKind::ZeroPort));
    }
    Ok(value as u16)
}

/// A port number given as text: only decimal digits, from 1 through 65535; zero
/// is refused as out of range, anything else as no port number.
pub fn port(value: &str) -> (r: Result<u16, Error>)
    ensures
        match r {
            Ok(p) => port_of(value@) == Some(p),
            Err(e) => port_of(value@) is None && e.kind == port_refusal(value@),
        },
{
    let cs = chars_of(value);
    port_chars(&cs)
}

/// "start:end" in decimal.
fn range_text(start: u16, end: u16) -> (r: String)
    ensures
        r@ == decimal(start as nat) + ":"@ + decimal(end as nat),
{
    let mut s = u64_text(start as u64);
    append_str(&mut s, ":");
    let e = u64_text(end as u64);
    append_str(&mut s, e.as_str());
    s
}

fn port_entry_of(e: &Vec<char>) -> (r: Result<String, Error>)
    ensures
        match r {
            Ok(x) => port_entry(e@) == Ok::<Seq<char>, ErrorKind>(x@),
            Err(err) => port_entry(e@) == Err::<Seq<char>, ErrorKind>(err.kind) && err.context@ == Seq::<char>::empty(),
        },
{
    let t = trim_chars(e);
    match split_once_chars(&t, ':') {
        Some((a, b)) => {
            let start = port_chars(&a)?;
            let end = port_chars(&b)?;
            if start > end {
                return Err(Error::plain(ErrorKind::InvalidPortRange));
            }
            Ok(range_text(start, end))
        },
        None => {
            let p = port_chars(&t)?;
            Ok(range_text(p, p))
        },
    }
}

fn port_list(s: &Vec<char>) -> (r: Result<Vec<String>, Error>)
    ensures
        match r {
            Ok(v) => port_entries(split_on(s@, ',')) == Ok::<Seq<Seq<char>>, ErrorKind>(crate::config::strings_of(v@)),
            Err(err) => port_entries(split_on(s@, ',')) == Err::<Seq<Seq<char>>, ErrorKind>(err.kind)
                && err.context@ == Seq::<char>::empty(),
        },
    decreases s@.len(),
{
    match split_once_chars(s, ',') {
        None => {
            let x = port_entry_of(s)?;
            let mut out: Vec<String> = Vec::new();
            out.push(x);
            assert(split_on(s@, ',') == seq![s@]);
            assert(seq![s@].drop_first() =~= Seq::<Seq<char>>::empty());
            assert(seq![s@][0] == s@);
            assert(port_entries(Seq::<Seq<char>>::empty()) == Ok::<Seq<Seq<char>>, ErrorKind>(Seq::empty()));
            assert(crate::config::strings_of(out@) =~= seq![x@] + Seq::<Seq<char>>::empty());
            Ok(out)
        },
        Some((a, b)) => {
            proof {
                crate::text::lemma_position_of_bounds(s@, ',', 0);
            }
            assert(split_on(s@, ',') == seq![a@] + split_on(b@, ','));
            assert((seq![a@] + split_on(b@, ',')).drop_first() =~= split_on(b@, ','));
            assert((seq![a@] + split_on(b@, ','))[0] == a@);
            let x = port_entry_of(&a)?;
            let rest = port_list(&b)?;
            let mut out: Vec<String> = Vec::new();
            out.push(x);
            let mut k: usize = 0;
            while k < rest.len()
                invariant
                    k <= rest@.len(),
                    crate::config::strings_of(out@) == seq![x@] + crate::config::strings_of(rest@).take(k as int),
                decreases rest@.len() - k,
            {
                let ghost before = crate::config::strings_of(out@);
                out.push(rest[k].clone());
                assert(crate::config::strings_of(out@) =~= before.push(rest@[k as int]@));
                assert(crate::config::strings_of(rest@).take(k + 1) =~= crate::config::strings_of(rest@).take(k as int).push(rest@[k as int]@));
                k = k + 1;
            }
            assert(crate::config::strings_of(rest@).take(k as int) =~= crate::config::strings_of(rest@));
            assert(port_entries(split_on(s@, ',')) == Ok::<Seq<Seq<char>>, ErrorKind>(seq![x@] + crate::config::strings_of(rest@)));
            Ok(out)
        },
    }
}

/// The JSON value of a property, from the text the user gave: a name without
/// white space, a port, or a comma-separated list of ports and `start:end` ranges
/// (each written as a range).
pub fn property_value(kind: PropertyKind, value: &str) -> (r: Result<Json, Error>)
    ensures
        match r {
            Ok(j) => spec_property_value(kind, value@) == Ok::<JsonView, ErrorKind>(j@),
            Err(e) => spec_property_value(kind, value@) == Err::<JsonView, ErrorKind>(e.kind)
                && e.context@ == Seq::<char>::empty(),
        },
{
    let cs = chars_of(value);
    match kind {
        PropertyKind::Server | PropertyKind::TlsServerName => {
            if cs.len() == 0 || any_whitespace(&cs) {
                return Err(Error::plain(ErrorKind::InvalidName));
            }
            Ok(Json::String(string_of(&cs)))
        },
        PropertyKind::ServerPort => {
            let p = port_chars(&cs)?;
            Ok(Json::Number(JsonNumber::Unsigned(p as u64)))
        },
        PropertyKind::ServerPorts => {
            let entries = port_list(&cs)?;
            let mut items: Vec<Json> = Vec::new();
            let mut k: usize = 0;
            while k < entries.len()
                invariant
                    k <= entries@.len(),
                    items_view(items@) == strings_json(crate::config::strings_of(entries@).take(k as int)),
                decreases entries@.len() - k,
            {
                let ghost before = items_view(items@);
                let item = Json::String(entries[k].clone());
                items.push(item);
                assert(items_view(items@) =~= before.push(item@));
                assert(strings_json(crate::config::strings_of(entries@).take(k + 1))
                    =~= strings_json(crate::config::strings_of(entries@).take(k as int)).push(JsonView::String(entries@[k as int]@)));
                k = k + 1;
            }
            assert(crate::config::strings_of(entries@).take(k as int) =~= crate::config::strings_of(entries@));
            proof {
                lemma_array_view(items);
            }
            Ok(Json::Array(items))
        },
    }
}

/// The outbound lists port ranges (a nonempty or non-array `server_ports`).
pub open spec fn uses_port_list(ob: JsonView) -> bool {
    match member_of(ob, "server_ports"@) {
        Some(JsonView::Array(items)) => items.len() > 0,
        Some(_) => true,
        None => false,
    }
}

/// The outbound has an unsigned integer `server_port`.
pub open spec fn has_scalar_port(ob: JsonView) -> bool {
    member_of(ob, "server_port"@) matches Some(JsonView::Number(NumberView::Unsigned(_)))
}

/// The edits that setting a property to `value` asks of the client outbound `ob`
/// at `ep`, or why the client refuses it. A Hysteria2 client that hops over port
/// ranges, or has no scalar port, refuses a scalar port; switching to port ranges
/// removes the scalar port; a TLS server name needs TLS already enabled.
pub open spec fn client_property_requests(kind: PropertyKind, protocol: Protocol, ep: EndpointView, ob: JsonView, value: JsonView)
    -> Result<Seq<(ConfigRefView, Option<JsonView>)>, ErrorKind> {
    match kind {
        PropertyKind::Server => Ok(seq![(field_ref(ep, "server"@), Some(value))]),
        PropertyKind::ServerPort => if protocol == Protocol::Hysteria2 && uses_port_list(ob) {
            Err(ErrorKind::ServerPortsInUse)
        } else if protocol == Protocol::Hysteria2 && !has_scalar_port(ob) {
            Err(ErrorKind::NoScalarPort)
        } else {
            Ok(seq![(field_ref(ep, "server_port"@), Some(value))])
        },
        PropertyKind::ServerPorts => Ok(seq![(field_ref(ep, "server_port"@), None), (field_ref(ep, "server_ports"@), Some(value))]),
        PropertyKind::TlsServerName => if lookup_pointer(ob, "/tls/enabled"@) == Some(JsonView::Bool(true)) {
            Ok(seq![(field_ref(ep, "tls/server_name"@), Some(value))])
        } else {
            Err(ErrorKind::TlsNotEnabled)
        },
    }
}

/// Setting a property on the clients `cs[i..]`, client by client, after `edits`.
pub open spec fn property_edits(configs: ConfigSet, kind: PropertyKind, protocol: Protocol, cs: Seq<EndpointView>, value: JsonView,
    i: nat, edits: Seq<EditView>) -> Result<Seq<EditView>, ErrorKind>
    decreases cs.len() - i,
{
    if i >= cs.len() {
        Ok(edits)
    } else {
        match endpoint_json(configs, cs[i as int]) {
            None => Err(ErrorKind::MissingLocation),
            Some(ob) => match client_property_requests(kind, protocol, cs[i as int], ob, value) {
                Err(e) => Err(e),
                Ok(reqs) => match plan_edits(edits, configs, reqs, 0) {
                    Err(e) => Err(e),
                    Ok(next) => property_edits(configs, kind, protocol, cs, value, i + 1, next),
                },
            },
        }
    }
}

/// The protocol a property belongs to: port ranges exist only for Hysteria2.
pub open spec fn property_protocol(kind: PropertyKind) -> Option<Protocol> {
    if kind == PropertyKind::ServerPorts {
        Some(Protocol::Hysteria2)
    } else {
        None
    }
}

/// Setting a property of the one selected service on every bound client.
pub open spec fn set_outcome(configs: ConfigSet, inv: InventoryView, input: Input, kind: PropertyKind, v: Seq<char>) -> Result<Seq<EditView>, ErrorKind> {
    match chosen_service(configs, inv, input, property_protocol(kind), false, Eligibility::Any) {
        Err(e) => Err(e),
        Ok(si) => match spec_property_value(kind, v) {
            Err(e) => Err(e),
            Ok(value) => property_edits(configs, kind, inv.services[si].protocol, service_clients(inv.services[si]), value, 0, Seq::empty()),
        },
    }
}

/// The context line of a property change: that of the selected service.
pub open spec fn set_context(configs: ConfigSet, inv: InventoryView, input: Input, kind: PropertyKind) -> Option<Seq<Seq<char>>> {
    match chosen_service(configs, inv, input, property_protocol(kind), false, Eligibility::Any) {
        Ok(si) => Some(seq![service_context(inv.services[si])]),
        Err(_) => None,
    }
}

fn check_port_client(ob: &Json, protocol: Protocol) -> (r: Result<(), Error>)
    ensures
        match r {
            Ok(()) => !(protocol == Protocol::Hysteria2 && uses_port_list(ob@))
                && !(protocol == Protocol::Hysteria2 && !has_scalar_port(ob@)),
            Err(e) => (e.kind == ErrorKind::ServerPortsInUse && protocol == Protocol::Hysteria2 && uses_port_list(ob@))
                || (e.kind == ErrorKind::NoScalarPort && !(protocol == Protocol::Hysteria2 && uses_port_list(ob@))
                    && protocol == Protocol::Hysteria2 && !has_scalar_port(ob@)),
        },
{
    if protocol != Protocol::Hysteria2 {
        return Ok(());
    }
    match ob.get_member("server_ports") {
        Some(ports) => match ports {
            Json::Array(items) => {
                proof {
                    lemma_array_view(*items);
                }
                if items.len() > 0 {
                    return Err(Error::plain(ErrorKind::ServerPortsInUse));
                }
            },
            _ => {
                return Err(Error::plain(ErrorKind::ServerPortsInUse));
            },
        },
        None => {},
    }
    match ob.get_member("server_port") {
        Some(Json::Number(JsonNumber::Unsigned(_))) => Ok(()),
        _ => Err(Error::plain(ErrorKind::NoScalarPort)),
    }
}

/// Sets a property of the one selected service on every bound client outbound.
/// Port ranges apply to Hysteria2 services only and replace the scalar port.
pub fn set(configs: &ConfigSet, inventory: &Inventory, input: &Input, kind: PropertyKind, value: &str) -> (r: Result<RotationPlan, Error>)
    ensures
        match r {
            Ok(p) => set_outcome(*configs, inventory@, *input, kind, value@) == Ok::<Seq<EditView>, ErrorKind>(p@)
                && p.operation == OperationKind::Property(kind)
                && set_context(*configs, inventory@, *input, kind) == Some(strings_of(p.contexts@)),
            Err(e) => set_outcome(*configs, inventory@, *input, kind, value@) == Err::<Seq<EditView>, ErrorKind>(e.kind),
        },
{
    let protocol = if kind == PropertyKind::ServerPorts { Some(Protocol::Hysteria2) } else { None };
    let si = one_service(configs, inventory, input, protocol, false, Eligibility::Any)?;
    proof {
        crate::protocol::lemma_chosen_service_bounds(*configs, inventory@, *input, protocol, false, Eligibility::Any);
    }
    let service = &inventory.services[si];
    assert(inventory@.services[si as int] == service@);
    let v = property_value(kind, value)?;
    let mut plan = service_plan(service, OperationKind::Property(kind));
    let clients = service.clients();
    let ghost cs = endpoints_view(clients@);
    let ghost total = set_outcome(*configs, inventory@, *input, kind, value@);
    let mut i: usize = 0;
    while i < clients.len()
        invariant
            cs == endpoints_view(clients@),
            i <= cs.len(),
            plan.operation == OperationKind::Property(kind),
            strings_of(plan.contexts@) == seq![service_context(service@)],
            chosen_service(*configs, inventory@, *input, property_protocol(kind), false, Eligibility::Any) == Ok::<int, ErrorKind>(si as int),
            inventory@.services[si as int] == service@,
            total == set_outcome(*configs, inventory@, *input, kind, value@),
            total == property_edits(*configs, kind, service@.protocol, cs, v@, i as nat, plan@),
        decreases cs.len() - i,
    {
        let client = &clients[i];
        assert(cs[i as int] == client@);
        let ob = match configs.value(client.config.file.as_str(), client.config.pointer.as_str()) {
            Ok(o) => o,
            Err(e) => {
                return Err(e);
            },
        };
        let ghost before = plan@;
        match kind {
            PropertyKind::Server => {
                let target = client.field("server");
                proof {
                    crate::plan::lemma_plan_edits_single(before, *configs, (target@, Some(v@)));
                }
                plan.edit(configs, target, Some(v.duplicate()))?;
            },
            PropertyKind::ServerPort => {
                match check_port_client(ob, service.protocol) {
                    Ok(()) => {},
                    Err(e) => {
                        let context = client.label();
                        return Err(Error::new(e.kind, context));
                    },
                }
                let target = client.field("server_port");
                proof {
                    crate::plan::lemma_plan_edits_single(before, *configs, (target@, Some(v@)));
                }
                plan.edit(configs, target, Some(v.duplicate()))?;
            },
            PropertyKind::ServerPorts => {
                let ghost reqs = seq![(field_ref(client@, "server_port"@), None::<JsonView>),
                    (field_ref(client@, "server_ports"@), Some(v@))];
                assert(client_property_requests(kind, service@.protocol, client@, ob@, v@) == Ok::<Seq<(ConfigRefView, Option<JsonView>)>, ErrorKind>(reqs));
                plan.edit(configs, client.field("server_port"), None)?;
                let ghost mid = plan@;
                assert(plan_edits(before, *configs, reqs, 0) == plan_edits(mid, *configs, reqs, 1));
                let replacement = v.duplicate();
                plan.edit(configs, client.field("server_ports"), Some(replacement))?;
                assert(plan_edits(mid, *configs, reqs, 1) == plan_edits(plan@, *configs, reqs, 2));
                assert(plan_edits(plan@, *configs, reqs, 2) == Ok::<Seq<EditView>, ErrorKind>(plan@));
                assert(property_edits(*configs, kind, service@.protocol, cs, v@, i as nat, before)
                    == property_edits(*configs, kind, service@.protocol, cs, v@, (i + 1) as nat, plan@));
            },
            PropertyKind::TlsServerName => {
                let enabled = match ob.pointer("/tls/enabled") {
                    Some(Json::Bool(b)) => *b,
                    _ => false,
                };
                if !enabled {
                    let context = client.label();
                    return Err(Error::new(ErrorKind::TlsNotEnabled, context));
                }
                let target = client.field("tls/server_name");
                proof {
                    crate::plan::lemma_plan_edits_single(before, *configs, (target@, Some(v@)));
                }
                plan.edit(configs, target, Some(v.duplicate()))?;
            },
        }
        assert(property_edits(*configs, kind, service@.protocol, cs, v@, i as nat, before)
            == property_edits(*configs, kind, service@.protocol, cs, v@, (i + 1) as nat, plan@));
        i = i + 1;
    }
    Ok(plan)
}

} // verus!
