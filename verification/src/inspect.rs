//! The inventory as text: services with their identities and selected clients,
//! Reality short-ID counts, and clients that matched no inbound or several.
use vstd::prelude::*;
use crate::binding::{EndpointRef, EndpointView, IdentityBinding, IdentityView, Inventory, InventoryView, ServiceBinding, ServiceView,
    UnboundClient, UnboundView, client_selected, contains_string, endpoints_view, field_ref, label_text, seq_contains_str, service_clients};
use crate::cli::{Input, Protocol};
use crate::config::{ConfigSet, strings_of};
use crate::json::{Json, JsonView, items_view, lemma_array_view};
use crate::plan::joined;
use crate::protocol::{reality_enabled, reality_on, selected_by};
use crate::protocol::vless::{client_short_id, client_short_id_of, normalize_short_id, normalized_short_id, reality_client_list, reality_clients};
use crate::text::{append_str, decimal, u64_text};

verus! {

/// Parts joined by a separator.
pub open spec fn join_sep(parts: Seq<Seq<char>>, sep: Seq<char>) -> Seq<char>
    decreases parts.len(),
{
    if parts.len() == 0 {
        Seq::empty()
    } else if parts.len() == 1 {
        parts[0]
    } else {
        join_sep(parts.drop_last(), sep) + sep + parts.last()
    }
}

/// Some client selector (`--client`, `--client-tag`) was given.
pub open spec fn narrowed(input: Input) -> bool {
    input.client@.len() > 0 || input.client_tag@.len() > 0
}

/// The selected clients among `cs[i..]`.
pub open spec fn selected_from(configs: ConfigSet, input: Input, cs: Seq<EndpointView>, i: nat) -> Seq<EndpointView>
    decreases cs.len() - i,
{
    if i >= cs.len() {
        Seq::empty()
    } else {
        (if selected_by(configs, input, cs[i as int]) { seq![cs[i as int]] } else { Seq::empty() })
            + selected_from(configs, input, cs, i + 1)
    }
}

/// Passwords are masked; UUIDs are shown.
pub open spec fn shown_credential(protocol: Protocol, value: Seq<char>) -> Seq<char> {
    if protocol == Protocol::Vless {
        value
    } else {
        "********"@
    }
}

pub open spec fn identity_line(svc: ServiceView, id: IdentityView) -> Seq<char> {
    "  identity "@ + svc.protocol.spec_credential() + "="@ + shown_credential(svc.protocol, id.value) + " users=["@
        + join_sep(id.user_names, ", "@) + "]"@
        + (if id.clients.len() == 0 { " (unmatched server identity)"@ } else { Seq::empty() })
}

pub open spec fn client_line(c: EndpointView) -> Seq<char> {
    "    "@ + label_text(c)
}

/// An identity and its selected clients; under client selectors, an identity
/// without a selected client is left out.
pub open spec fn identity_block(configs: ConfigSet, input: Input, svc: ServiceView, id: IdentityView) -> Seq<Seq<char>> {
    let sel = selected_from(configs, input, id.clients, 0);
    if narrowed(input) && sel.len() == 0 {
        Seq::empty()
    } else {
        seq![identity_line(svc, id)] + sel.map_values(|c: EndpointView| client_line(c))
    }
}

pub open spec fn identity_blocks(configs: ConfigSet, input: Input, svc: ServiceView, k: nat) -> Seq<Seq<char>>
    decreases svc.identities.len() - k,
{
    if k >= svc.identities.len() {
        Seq::empty()
    } else {
        identity_block(configs, input, svc, svc.identities[k as int]) + identity_blocks(configs, input, svc, k + 1)
    }
}

/// The number of entries of the server's accepted short-ID list.
pub open spec fn accepted_count(configs: ConfigSet, svc: ServiceView) -> nat {
    let r = field_ref(svc.inbound, "tls/reality/short_id"@);
    match configs.spec_value(r.file, r.pointer) {
        Some(JsonView::Array(items)) => items.len(),
        _ => 0,
    }
}

/// The valid short IDs of the clients `cs[i..]`, normalized.
pub open spec fn observed_ids(configs: ConfigSet, cs: Seq<EndpointView>, i: nat) -> Seq<Seq<char>>
    decreases cs.len() - i,
{
    if i >= cs.len() {
        Seq::empty()
    } else {
        (match client_short_id_of(configs, cs[i as int]) {
            Ok(raw) => match normalize_short_id(raw) {
                Some(id) => seq![id],
                None => Seq::empty(),
            },
            Err(_) => Seq::empty(),
        }) + observed_ids(configs, cs, i + 1)
    }
}

/// The number of distinct entries.
pub open spec fn distinct_count(s: Seq<Seq<char>>) -> nat
    decreases s.len(),
{
    if s.len() == 0 {
        0
    } else {
        distinct_count(s.drop_last()) + (if seq_contains_str(s.drop_last(), s.last()) { 0nat } else { 1nat })
    }
}

/// The Reality summary of a VLESS service with Reality enabled: accepted short
/// IDs, distinct IDs its Reality clients use, and the number of those clients.
pub open spec fn reality_lines(configs: ConfigSet, svc: ServiceView) -> Seq<Seq<char>> {
    if svc.protocol == Protocol::Vless && reality_on(configs, svc.inbound) {
        let cs = reality_clients(configs, service_clients(svc), 0);
        seq!["  reality short_ids: "@ + decimal(accepted_count(configs, svc)) + " accepted / "@
            + decimal(distinct_count(observed_ids(configs, cs, 0))) + " observed; clients: "@ + decimal(cs.len())]
    } else {
        Seq::empty()
    }
}

pub open spec fn service_block(configs: ConfigSet, input: Input, svc: ServiceView) -> Seq<Seq<char>> {
    seq![svc.protocol.spec_name() + " inbound="@ + label_text(svc.inbound)] + identity_blocks(configs, input, svc, 0)
        + reality_lines(configs, svc)
}

pub open spec fn service_blocks(configs: ConfigSet, input: Input, svcs: Seq<ServiceView>, protocol: Option<Protocol>, s: nat) -> Seq<Seq<char>>
    decreases svcs.len() - s,
{
    if s >= svcs.len() {
        Seq::empty()
    } else {
        (if protocol matches Some(p) && p != svcs[s as int].protocol {
            Seq::empty()
        } else {
            service_block(configs, input, svcs[s as int])
        }) + service_blocks(configs, input, svcs, protocol, s + 1)
    }
}

/// A selected unbound client: unmatched or ambiguous, with its candidate inbounds.
pub open spec fn unbound_block(configs: ConfigSet, input: Input, u: UnboundView, protocol: Option<Protocol>) -> Seq<Seq<char>> {
    if (protocol matches Some(p) && p != u.protocol) || !selected_by(configs, input, u.outbound) {
        Seq::empty()
    } else {
        seq![(if u.candidates.len() == 0 { "unmatched"@ } else { "ambiguous"@ }) + " "@ + u.protocol.spec_name() + " client="@
            + label_text(u.outbound)]
            + u.candidates.map_values(|c: EndpointView| "  candidate "@ + label_text(c))
    }
}

pub open spec fn unbound_blocks(configs: ConfigSet, input: Input, us: Seq<UnboundView>, protocol: Option<Protocol>, k: nat) -> Seq<Seq<char>>
    decreases us.len() - k,
{
    if k >= us.len() {
        Seq::empty()
    } else {
        unbound_block(configs, input, us[k as int], protocol) + unbound_blocks(configs, input, us, protocol, k + 1)
    }
}

/// The lines of the inventory, narrowed to one protocol when given.
pub open spec fn inventory_lines(configs: ConfigSet, inv: InventoryView, input: Input, protocol: Option<Protocol>) -> Seq<Seq<char>> {
    let ls = service_blocks(configs, input, inv.services, protocol, 0) + unbound_blocks(configs, input, inv.unbound, protocol, 0);
    if ls.len() == 0 {
        seq!["No supported bindings found."@]
    } else {
        ls
    }
}

/// Parts joined by a separator.
pub fn join_strings(parts: &Vec<String>, sep: &str) -> (r: String)
    ensures
        r@ == join_sep(strings_of(parts@), sep@),
{
    let mut out = String::new();
    let mut i: usize = 0;
    while i < parts.len()
        invariant
            i <= parts@.len(),
            out@ == join_sep(strings_of(parts@).take(i as int), sep@),
        decreases parts@.len() - i,
    {
        if i > 0 {
            append_str(&mut out, sep);
        }
        append_str(&mut out, parts[i].as_str());
        let ghost t = strings_of(parts@).take(i + 1);
        assert(t.drop_last() =~= strings_of(parts@).take(i as int));
        if i == 0 {
            assert(out@ =~= t[0]);
        }
        i = i + 1;
    }
    assert(strings_of(parts@).take(i as int) =~= strings_of(parts@));
    out
}

/// Lines joined by line breaks.
pub fn join_lines(lines: &Vec<String>) -> (r: String)
    ensures
        r@ == joined(strings_of(lines@)),
{
    let r = join_strings(lines, "\n");
    proof {
        lemma_join_sep_lines(strings_of(lines@));
    }
    r
}

proof fn lemma_join_sep_lines(ls: Seq<Seq<char>>)
    ensures
        join_sep(ls, "\n"@) == joined(ls),
    decreases ls.len(),
{
    if ls.len() > 1 {
        lemma_join_sep_lines(ls.drop_last());
    }
}

fn push_all(out: &mut Vec<String>, more: Vec<String>)
    ensures
        strings_of(final(out)@) == strings_of(old(out)@) + strings_of(more@),
{
    let ghost start = strings_of(out@);
    let mut i: usize = 0;
    while i < more.len()
        invariant
            i <= more@.len(),
            strings_of(out@) == start + strings_of(more@).take(i as int),
        decreases more@.len() - i,
    {
        let ghost before = strings_of(out@);
        let line = more[i].clone();
        out.push(line);
        assert(strings_of(out@) =~= before.push(line@));
        assert(strings_of(more@).take(i + 1) =~= strings_of(more@).take(i as int).push(more@[i as int]@));
        i = i + 1;
    }
    assert(strings_of(more@).take(i as int) =~= strings_of(more@));
}

fn selected_clients(configs: &ConfigSet, input: &Input, cs: &Vec<EndpointRef>) -> (r: Vec<EndpointRef>)
    ensures
        endpoints_view(r@) == selected_from(*configs, *input, endpoints_view(cs@), 0),
{
    let ghost v = endpoints_view(cs@);
    let mut out: Vec<EndpointRef> = Vec::new();
    let mut i: usize = 0;
    assert(endpoints_view(out@) + selected_from(*configs, *input, v, 0) =~= selected_from(*configs, *input, v, 0));
    while i < cs.len()
        invariant
            v == endpoints_view(cs@),
            i <= cs@.len(),
            endpoints_view(out@) + selected_from(*configs, *input, v, i as nat) == selected_from(*configs, *input, v, 0),
        decreases cs@.len() - i,
    {
        assert(v[i as int] == cs@[i as int]@);
        let ghost before = endpoints_view(out@);
        let ghost rest = selected_from(*configs, *input, v, (i + 1) as nat);
        if client_selected(&cs[i], configs, input) {
            let c = cs[i].clone();
            out.push(c);
            assert(endpoints_view(out@) =~= before.push(c@));
            assert(endpoints_view(out@) + rest =~= before + (seq![v[i as int]] + rest));
        } else {
            assert(selected_from(*configs, *input, v, i as nat) =~= rest);
        }
        i = i + 1;
    }
    assert(endpoints_view(out@) =~= selected_from(*configs, *input, v, 0));
    out
}

fn identity_lines(configs: &ConfigSet, input: &Input, service: &ServiceBinding, identity: &IdentityBinding) -> (r: Vec<String>)
    ensures
        strings_of(r@) == identity_block(*configs, *input, service@, identity@),
{
    let sel = selected_clients(configs, input, &identity.clients);
    let mut out: Vec<String> = Vec::new();
    if (input.client.len() > 0 || input.client_tag.len() > 0) && sel.len() == 0 {
        assert(strings_of(out@) =~= Seq::<Seq<char>>::empty());
        return out;
    }
    let mut line = String::new();
    append_str(&mut line, "  identity ");
    append_str(&mut line, service.protocol.credential());
    append_str(&mut line, "=");
    match service.protocol {
        Protocol::Vless => append_str(&mut line, identity.value.as_str()),
        Protocol::Hysteria2 => append_str(&mut line, "********"),
    }
    append_str(&mut line, " users=[");
    let names = join_strings(&identity.user_names, ", ");
    append_str(&mut line, names.as_str());
    append_str(&mut line, "]");
    if identity.clients.len() == 0 {
        append_str(&mut line, " (unmatched server identity)");
    }
    assert(line@ =~= identity_line(service@, identity@));
    out.push(line);
    let ghost head = strings_of(out@);
    let ghost sv = endpoints_view(sel@);
    let mut i: usize = 0;
    while i < sel.len()
        invariant
            sv == endpoints_view(sel@),
            i <= sel@.len(),
            strings_of(out@) == head + sv.take(i as int).map_values(|c: EndpointView| client_line(c)),
        decreases sel@.len() - i,
    {
        let mut l = String::new();
        append_str(&mut l, "    ");
        let label = sel[i].label();
        append_str(&mut l, label.as_str());
        let ghost before = strings_of(out@);
        out.push(l);
        assert(strings_of(out@) =~= before.push(l@));
        assert(sv.take(i + 1).map_values(|c: EndpointView| client_line(c))
            =~= sv.take(i as int).map_values(|c: EndpointView| client_line(c)).push(client_line(sv[i as int])));
        i = i + 1;
    }
    assert(sv.take(i as int) =~= sv);
    out
}

fn observed_id_list(configs: &ConfigSet, cs: &Vec<EndpointRef>) -> (r: Vec<String>)
    ensures
        strings_of(r@) == observed_ids(*configs, endpoints_view(cs@), 0),
{
    let ghost v = endpoints_view(cs@);
    let mut out: Vec<String> = Vec::new();
    let mut i: usize = 0;
    assert(strings_of(out@) + observed_ids(*configs, v, 0) =~= observed_ids(*configs, v, 0));
    while i < cs.len()
        invariant
            v == endpoints_view(cs@),
            i <= cs@.len(),
            strings_of(out@) + observed_ids(*configs, v, i as nat) == observed_ids(*configs, v, 0),
        decreases cs@.len() - i,
    {
        assert(v[i as int] == cs@[i as int]@);
        let ghost before = strings_of(out@);
        match client_short_id(configs, &cs[i]) {
            Ok(raw) => match normalized_short_id(raw.as_str()) {
                Ok(id) => {
                    out.push(id);
                    assert(strings_of(out@) =~= before.push(id@));
                },
                Err(_) => {},
            },
            Err(_) => {},
        }
        assert(strings_of(out@) + observed_ids(*configs, v, (i + 1) as nat) =~= before + observed_ids(*configs, v, i as nat));
        i = i + 1;
    }
    assert(strings_of(out@) =~= strings_of(out@) + observed_ids(*configs, v, i as nat));
    out
}

fn count_distinct(s: &Vec<String>) -> (r: u64)
    ensures
        r == distinct_count(strings_of(s@)),
{
    let ghost v = strings_of(s@);
    let mut count: u64 = 0;
    let mut seen: Vec<String> = Vec::new();
    let mut i: usize = 0;
    while i < s.len()
        invariant
            v == strings_of(s@),
            i <= s@.len(),
            count == distinct_count(v.take(i as int)),
            count <= i,
            forall|x: Seq<char>| seq_contains_str(strings_of(seen@), x) <==> seq_contains_str(v.take(i as int), x),
        decreases s@.len() - i,
    {
        let ghost t1 = v.take(i + 1);
        let ghost t0 = v.take(i as int);
        let ghost item = s@[i as int]@;
        assert(t1.drop_last() =~= t0);
        assert(t1.last() == item);
        let ghost before = strings_of(seen@);
        assert(forall|x: Seq<char>| seq_contains_str(before, x) <==> seq_contains_str(t0, x));
        let present = contains_string(&seen, s[i].as_str());
        assert(present == seq_contains_str(t0, item));
        if !present {
            count = count + 1;
            let c = s[i].clone();
            seen.push(c);
            assert(strings_of(seen@) =~= before.push(item));
        }
        assert forall|x: Seq<char>| seq_contains_str(strings_of(seen@), x) <==> seq_contains_str(t1, x) by {
            if seq_contains_str(t1, x) {
                let k = choose|k: int| 0 <= k < t1.len() && #[trigger] t1[k] == x;
                if k < i {
                    assert(t0[k] == x);
                    assert(seq_contains_str(before, x));
                    let m = choose|m: int| 0 <= m < before.len() && #[trigger] before[m] == x;
                    assert(strings_of(seen@)[m] == x);
                } else {
                    assert(x == item);
                    if present {
                        let m = choose|m: int| 0 <= m < before.len() && #[trigger] before[m] == x;
                        assert(strings_of(seen@)[m] == x);
                    } else {
                        assert(strings_of(seen@)[before.len() as int] == x);
                    }
                }
            }
            if seq_contains_str(strings_of(seen@), x) {
                let m = choose|m: int| 0 <= m < strings_of(seen@).len() && #[trigger] strings_of(seen@)[m] == x;
                if m < before.len() {
                    assert(before[m] == x);
                    assert(seq_contains_str(t0, x));
                    let k = choose|k: int| 0 <= k < t0.len() && #[trigger] t0[k] == x;
                    assert(t1[k] == x);
                } else {
                    assert(x == item);
                    assert(t1[i as int] == x);
                }
            }
        }
        i = i + 1;
    }
    assert(v.take(i as int) =~= v);
    count
}

fn reality_summary(configs: &ConfigSet, service: &ServiceBinding) -> (r: Vec<String>)
    ensures
        strings_of(r@) == reality_lines(*configs, service@),
{
    let mut out: Vec<String> = Vec::new();
    if !(service.protocol == Protocol::Vless && reality_enabled(configs, &service.inbound)) {
        assert(strings_of(out@) =~= Seq::<Seq<char>>::empty());
        return out;
    }
    let target = service.inbound.field("tls/reality/short_id");
    let accepted: u64 = match configs.value(target.file.as_str(), target.pointer.as_str()) {
        Ok(Json::Array(items)) => {
            proof {
                lemma_array_view(*items);
            }
            items.len() as u64
        },
        _ => 0,
    };
    let all = service.clients();
    let clients = reality_client_list(configs, &all);
    let ids = observed_id_list(configs, &clients);
    let observed = count_distinct(&ids);
    let mut line = String::new();
    append_str(&mut line, "  reality short_ids: ");
    let a = u64_text(accepted);
    append_str(&mut line, a.as_str());
    append_str(&mut line, " accepted / ");
    let o = u64_text(observed);
    append_str(&mut line, o.as_str());
    append_str(&mut line, " observed; clients: ");
    let n = u64_text(clients.len() as u64);
    append_str(&mut line, n.as_str());
    out.push(line);
    assert(strings_of(out@) =~= reality_lines(*configs, service@));
    out
}

fn service_lines(configs: &ConfigSet, input: &Input, service: &ServiceBinding) -> (r: Vec<String>)
    ensures
        strings_of(r@) == service_block(*configs, *input, service@),
{
    let mut out: Vec<String> = Vec::new();
    let mut head = String::new();
    append_str(&mut head, service.protocol.name());
    append_str(&mut head, " inbound=");
    let label = service.inbound.label();
    append_str(&mut head, label.as_str());
    out.push(head);
    let ghost first = strings_of(out@);
    let ghost sv = service@;
    let mut k: usize = 0;
    assert(first + identity_blocks(*configs, *input, sv, 0) =~= strings_of(out@) + identity_blocks(*configs, *input, sv, 0));
    while k < service.identities.len()
        invariant
            sv == service@,
            k <= sv.identities.len(),
            strings_of(out@) + identity_blocks(*configs, *input, sv, k as nat) == first + identity_blocks(*configs, *input, sv, 0),
        decreases sv.identities.len() - k,
    {
        assert(sv.identities[k as int] == service.identities@[k as int]@);
        let ghost before = strings_of(out@);
        let more = identity_lines(configs, input, service, &service.identities[k]);
        push_all(&mut out, more);
        assert(strings_of(out@) + identity_blocks(*configs, *input, sv, (k + 1) as nat)
            =~= before + identity_blocks(*configs, *input, sv, k as nat));
        k = k + 1;
    }
    assert(strings_of(out@) =~= first + identity_blocks(*configs, *input, sv, 0));
    let reality = reality_summary(configs, service);
    push_all(&mut out, reality);
    out
}

fn unbound_lines(configs: &ConfigSet, input: &Input, client: &UnboundClient, protocol: Option<Protocol>) -> (r: Vec<String>)
    ensures
        strings_of(r@) == unbound_block(*configs, *input, client@, protocol),
{
    let mut out: Vec<String> = Vec::new();
    let other = match protocol {
        Some(p) => p != client.protocol,
        None => false,
    };
    if other || !client_selected(&client.outbound, configs, input) {
        assert(strings_of(out@) =~= Seq::<Seq<char>>::empty());
        return out;
    }
    let mut head = String::new();
    if client.candidates.len() == 0 {
        append_str(&mut head, "unmatched");
    } else {
        append_str(&mut head, "ambiguous");
    }
    append_str(&mut head, " ");
    append_str(&mut head, client.protocol.name());
    append_str(&mut head, " client=");
    let label = client.outbound.label();
    append_str(&mut head, label.as_str());
    out.push(head);
    let ghost first = strings_of(out@);
    let ghost cv = endpoints_view(client.candidates@);
    let mut i: usize = 0;
    while i < client.candidates.len()
        invariant
            cv == endpoints_view(client.candidates@),
            i <= cv.len(),
            strings_of(out@) == first + cv.take(i as int).map_values(|c: EndpointView| "  candidate "@ + label_text(c)),
        decreases cv.len() - i,
    {
        let mut l = String::new();
        append_str(&mut l, "  candidate ");
        let lab = client.candidates[i].label();
        append_str(&mut l, lab.as_str());
        let ghost before = strings_of(out@);
        out.push(l);
        assert(strings_of(out@) =~= before.push(l@));
        assert(cv.take(i + 1).map_values(|c: EndpointView| "  candidate "@ + label_text(c))
            =~= cv.take(i as int).map_values(|c: EndpointView| "  candidate "@ + label_text(c)).push("  candidate "@ + label_text(cv[i as int])));
        i = i + 1;
    }
    assert(cv.take(i as int) =~= cv);
    out
}

impl Inventory {
    /// The inventory as text (see `inventory_lines`).
    pub fn render(&self, configs: &ConfigSet, input: &Input, protocol: Option<Protocol>) -> (r: String)
        ensures
            r@ == joined(inventory_lines(*configs, self@, *input, protocol)),
    {
        let ghost iv = self@;
        let mut lines: Vec<String> = Vec::new();
        let mut s: usize = 0;
        assert(strings_of(lines@) + service_blocks(*configs, *input, iv.services, protocol, 0)
            =~= service_blocks(*configs, *input, iv.services, protocol, 0));
        while s < self.services.len()
            invariant
                iv == self@,
                s <= iv.services.len(),
                strings_of(lines@) + service_blocks(*configs, *input, iv.services, protocol, s as nat)
                    == service_blocks(*configs, *input, iv.services, protocol, 0),
            decreases iv.services.len() - s,
        {
            let service = &self.services[s];
            assert(iv.services[s as int] == service@);
            let ghost before = strings_of(lines@);
            let skip = match protocol {
                Some(p) => p != service.protocol,
                None => false,
            };
            if !skip {
                let more = service_lines(configs, input, service);
                push_all(&mut lines, more);
            }
            assert(strings_of(lines@) + service_blocks(*configs, *input, iv.services, protocol, (s + 1) as nat)
                =~= before + service_blocks(*configs, *input, iv.services, protocol, s as nat));
            s = s + 1;
        }
        let ghost svc_lines = strings_of(lines@);
        assert(svc_lines =~= service_blocks(*configs, *input, iv.services, protocol, 0));
        let mut k: usize = 0;
        assert(svc_lines + unbound_blocks(*configs, *input, iv.unbound, protocol, 0)
            =~= strings_of(lines@) + unbound_blocks(*configs, *input, iv.unbound, protocol, 0));
        while k < self.unbound.len()
            invariant
                iv == self@,
                k <= iv.unbound.len(),
                strings_of(lines@) + unbound_blocks(*configs, *input, iv.unbound, protocol, k as nat)
                    == svc_lines + unbound_blocks(*configs, *input, iv.unbound, protocol, 0),
            decreases iv.unbound.len() - k,
        {
            assert(iv.unbound[k as int] == self.unbound@[k as int]@);
            let ghost before = strings_of(lines@);
            let more = unbound_lines(configs, input, &self.unbound[k], protocol);
            push_all(&mut lines, more);
            assert(strings_of(lines@) + unbound_blocks(*configs, *input, iv.unbound, protocol, (k + 1) as nat)
                =~= before + unbound_blocks(*configs, *input, iv.unbound, protocol, k as nat));
            k = k + 1;
        }
        assert(strings_of(lines@) =~= svc_lines + unbound_blocks(*configs, *input, iv.unbound, protocol, 0));
        if lines.len() == 0 {
            lines.push("No supported bindings found.".to_string());
            assert(strings_of(lines@) =~= seq!["No supported bindings found."@]);
        }
        join_lines(&lines)
    }
}

} // verus!
