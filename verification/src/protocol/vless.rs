//! VLESS Reality planners: the service keypair and per-client short IDs.
use vstd::prelude::*;
use crate::binding::{ConfigRef, contains_string, ConfigRefView, EndpointRef, EndpointView, Inventory, InventoryView, ServiceBinding, ServiceView,
    endpoints_view, field_ref, service_clients, services_view};
use crate::cli::{Input, Protocol, RotationKind};
use crate::config::{ConfigSet, strings_of};
use crate::error::{Error, ErrorKind};
use crate::json::{Json, JsonView, lookup_pointer, items_view, lemma_array_view};
use crate::text::{is_hex_digit, push_char, chars_of};
use crate::plan::{EditView, OperationKind, RotationPlan, plan_edits};
use crate::singbox::{RealityKeyPair, SHORT_ID_BYTES, SingBox, generator_failure, hex_text};
use super::{Eligibility, endpoint_json, selected_by, chosen_service, one_service, reality_enabled, reality_on, service_context, service_plan, string_at, string_field};

verus! {

/// The clients among `cs[i..]` with Reality enabled.
pub open spec fn reality_clients(configs: ConfigSet, cs: Seq<EndpointView>, i: nat) -> Seq<EndpointView>
    decreases cs.len() - i,
{
    if i >= cs.len() {
        Seq::empty()
    } else {
        (if reality_on(configs, cs[i as int]) { seq![cs[i as int]] } else { Seq::empty() })
            + reality_clients(configs, cs, i + 1)
    }
}

/// The current Reality public keys of `cs[i..]`, or the first failure to read one.
pub open spec fn public_keys(configs: ConfigSet, cs: Seq<EndpointView>, i: nat) -> Result<Seq<Seq<char>>, ErrorKind>
    decreases cs.len() - i,
{
    if i >= cs.len() {
        Ok(Seq::empty())
    } else {
        match string_at(configs, cs[i as int], "tls/reality/public_key"@) {
            Err(e) => Err(e),
            Ok(k) => match public_keys(configs, cs, i + 1) {
                Err(e) => Err(e),
                Ok(rest) => Ok(seq![k] + rest),
            },
        }
    }
}

/// The context line of a keypair rotation: that of the selected service, once
/// the preflight passes.
pub open spec fn keypair_context(configs: ConfigSet, inv: InventoryView, input: Input) -> Option<Seq<Seq<char>>> {
    match keypair_preflight(configs, inv, input) {
        Ok((si, _, _, _)) => Some(seq![service_context(inv.services[si])]),
        Err(_) => None,
    }
}

/// What a keypair rotation of one service checks before generating: its private
/// key, its Reality clients (at least one) and their public keys.
pub open spec fn service_keypair_preflight(configs: ConfigSet, svc: ServiceView)
    -> Result<(Seq<char>, Seq<EndpointView>, Seq<Seq<char>>), ErrorKind> {
    match string_at(configs, svc.inbound, "tls/reality/private_key"@) {
        Err(e) => Err(e),
        Ok(old) => {
            let cs = reality_clients(configs, service_clients(svc), 0);
            if cs.len() == 0 {
                Err(ErrorKind::NoRealityClients)
            } else {
                match public_keys(configs, cs, 0) {
                    Err(e) => Err(e),
                    Ok(pubs) => Ok((old, cs, pubs)),
                }
            }
        },
    }
}

/// What a keypair rotation checks before generating: the one selected VLESS
/// service with Reality on the inbound and a bound Reality client, and what its
/// own rotation checks.
pub open spec fn keypair_preflight(configs: ConfigSet, inv: InventoryView, input: Input)
    -> Result<(int, Seq<char>, Seq<EndpointView>, Seq<Seq<char>>), ErrorKind> {
    match chosen_service(configs, inv, input, Some(Protocol::Vless), false, Eligibility::RealityClients) {
        Err(e) => Err(e),
        Ok(si) => match service_keypair_preflight(configs, inv.services[si]) {
            Err(e) => Err(e),
            Ok((old, cs, pubs)) => Ok((si, old, cs, pubs)),
        },
    }
}

pub open spec fn string_json(s: Seq<char>) -> Option<JsonView> {
    Some(JsonView::String(s))
}

/// The edits of a keypair rotation to `private`/`public`: the server private key,
/// then the public key of every bound Reality client.
pub open spec fn keypair_requests(svc: ServiceView, cs: Seq<EndpointView>, private: Seq<char>, public: Seq<char>)
    -> Seq<(ConfigRefView, Option<JsonView>)> {
    seq![(field_ref(svc.inbound, "tls/reality/private_key"@), string_json(private))]
        + Seq::new(cs.len(), |i: int| (field_ref(cs[i], "tls/reality/public_key"@), string_json(public)))
}

/// The keypair rotation of one service to `private`/`public`.
pub open spec fn service_keypair_outcome(configs: ConfigSet, svc: ServiceView, private: Seq<char>, public: Seq<char>)
    -> Result<Seq<EditView>, ErrorKind> {
    match service_keypair_preflight(configs, svc) {
        Err(e) => Err(e),
        Ok((old, cs, pubs)) => if private.len() == 0 || public.len() == 0 {
            Err(ErrorKind::EmptyGenerated)
        } else if private == old {
            Err(ErrorKind::GeneratedUnchanged)
        } else if pubs.contains(public) {
            Err(ErrorKind::GeneratedUnchanged)
        } else {
            plan_edits(Seq::empty(), configs, keypair_requests(svc, cs, private, public), 0)
        },
    }
}

/// A keypair rotation given the generated keys.
pub open spec fn keypair_outcome(configs: ConfigSet, inv: InventoryView, input: Input, private: Seq<char>, public: Seq<char>)
    -> Result<Seq<EditView>, ErrorKind> {
    match chosen_service(configs, inv, input, Some(Protocol::Vless), false, Eligibility::RealityClients) {
        Err(e) => Err(e),
        Ok(si) => service_keypair_outcome(configs, inv.services[si], private, public),
    }
}

/// The result of a keypair rotation preflight.
pub struct KeypairPreflight {
    pub service: usize,
    pub old_private: String,
    pub clients: Vec<EndpointRef>,
    pub old_publics: Vec<String>,
}


pub(crate) fn reality_client_list(configs: &ConfigSet, clients: &Vec<EndpointRef>) -> (r: Vec<EndpointRef>)
    ensures
        endpoints_view(r@) == reality_clients(*configs, endpoints_view(clients@), 0),
{
    let ghost cs = endpoints_view(clients@);
    let mut out: Vec<EndpointRef> = Vec::new();
    let mut i: usize = 0;
    assert(endpoints_view(out@) + reality_clients(*configs, cs, 0) =~= reality_clients(*configs, cs, 0));
    while i < clients.len()
        invariant
            cs == endpoints_view(clients@),
            i <= clients@.len(),
            endpoints_view(out@) + reality_clients(*configs, cs, i as nat) == reality_clients(*configs, cs, 0),
        decreases clients@.len() - i,
    {
        assert(cs[i as int] == clients@[i as int]@);
        let ghost before = endpoints_view(out@);
        let ghost rest = reality_clients(*configs, cs, (i + 1) as nat);
        if reality_enabled(configs, &clients[i]) {
            let c = clients[i].clone();
            out.push(c);
            assert(endpoints_view(out@) =~= before.push(c@));
            assert(endpoints_view(out@) + rest =~= before + (seq![cs[i as int]] + rest));
        } else {
            assert(reality_clients(*configs, cs, i as nat) =~= rest);
        }
        i = i + 1;
    }
    assert(endpoints_view(out@) =~= reality_clients(*configs, cs, 0));
    out
}

fn public_key_list(configs: &ConfigSet, clients: &Vec<EndpointRef>) -> (r: Result<Vec<String>, Error>)
    ensures
        match r {
            Ok(v) => public_keys(*configs, endpoints_view(clients@), 0) == Ok::<Seq<Seq<char>>, ErrorKind>(strings_of(v@)),
            Err(e) => public_keys(*configs, endpoints_view(clients@), 0) == Err::<Seq<Seq<char>>, ErrorKind>(e.kind),
        },
{
    let ghost cs = endpoints_view(clients@);
    let mut out: Vec<String> = Vec::new();
    let mut i: usize = 0;
    while i < clients.len()
        invariant
            cs == endpoints_view(clients@),
            i <= clients@.len(),
            public_keys(*configs, cs, 0) == match public_keys(*configs, cs, i as nat) {
                Err(e) => Err(e),
                Ok(rest) => Ok::<Seq<Seq<char>>, ErrorKind>(strings_of(out@) + rest),
            },
        decreases clients@.len() - i,
    {
        assert(cs[i as int] == clients@[i as int]@);
        let k = string_field(configs, &clients[i], "tls/reality/public_key")?;
        let ghost before = strings_of(out@);
        out.push(k.clone());
        assert(strings_of(out@) =~= before.push(k@));
        proof {
            match public_keys(*configs, cs, (i + 1) as nat) {
                Err(e) => {},
                Ok(rest) => {
                    assert(before + (seq![k@] + rest) =~= strings_of(out@) + rest);
                },
            }
        }
        i = i + 1;
    }
    assert(strings_of(out@) + Seq::<Seq<char>>::empty() =~= strings_of(out@));
    Ok(out)
}

impl KeypairPreflight {
    pub open spec fn view(&self) -> (int, Seq<char>, Seq<EndpointView>, Seq<Seq<char>>) {
        (self.service as int, self.old_private@, endpoints_view(self.clients@), strings_of(self.old_publics@))
    }
}

/// Everything a keypair rotation of one service checks before generating keys.
pub(crate) fn keypair_check_at(configs: &ConfigSet, service: &ServiceBinding, si: usize) -> (r: Result<KeypairPreflight, Error>)
    ensures
        match r {
            Ok(p) => service_keypair_preflight(*configs, service@)
                    == Ok::<(Seq<char>, Seq<EndpointView>, Seq<Seq<char>>), ErrorKind>((p@.1, p@.2, p@.3))
                && p.service == si,
            Err(e) => service_keypair_preflight(*configs, service@)
                == Err::<(Seq<char>, Seq<EndpointView>, Seq<Seq<char>>), ErrorKind>(e.kind),
        },
{
    let old = string_field(configs, &service.inbound, "tls/reality/private_key")?;
    let all = service.clients();
    let clients = reality_client_list(configs, &all);
    if clients.len() == 0 {
        return Err(Error::plain(ErrorKind::NoRealityClients));
    }
    let publics = public_key_list(configs, &clients)?;
    Ok(KeypairPreflight { service: si, old_private: old.clone(), clients, old_publics: publics })
}

/// Everything a keypair rotation checks before generating keys.
pub fn keypair_preflight_check(configs: &ConfigSet, inventory: &Inventory, input: &Input) -> (r: Result<KeypairPreflight, Error>)
    ensures
        match r {
            Ok(p) => keypair_preflight(*configs, inventory@, *input) == Ok::<(int, Seq<char>, Seq<EndpointView>, Seq<Seq<char>>), ErrorKind>(p@)
                && p.service < inventory.services@.len(),
            Err(e) => keypair_preflight(*configs, inventory@, *input) == Err::<(int, Seq<char>, Seq<EndpointView>, Seq<Seq<char>>), ErrorKind>(e.kind),
        },
{
    let si = one_service(configs, inventory, input, Some(Protocol::Vless), false, Eligibility::RealityClients)?;
    proof {
        crate::protocol::lemma_chosen_service_bounds(*configs, inventory@, *input, Some(Protocol::Vless), false, Eligibility::RealityClients);
    }
    let service = &inventory.services[si];
    assert(inventory@.services[si as int] == service@);
    keypair_check_at(configs, service, si)
}

/// The string value `s`.
pub fn string_value(s: &String) -> (r: Json)
    ensures
        r@ == JsonView::String(s@),
{
    Json::String(s.clone())
}

/// The keypair rotation of one service to `keys`, after its checks.
pub(crate) fn keypair_finish_at(configs: &ConfigSet, service: &ServiceBinding, pre: &KeypairPreflight, keys: &RealityKeyPair) -> (r: Result<RotationPlan, Error>)
    requires
        service_keypair_preflight(*configs, service@)
            == Ok::<(Seq<char>, Seq<EndpointView>, Seq<Seq<char>>), ErrorKind>((pre@.1, pre@.2, pre@.3)),
    ensures
        match r {
            Ok(p) => service_keypair_outcome(*configs, service@, keys.private_key@, keys.public_key@) == Ok::<Seq<EditView>, ErrorKind>(p@)
                && p.operation == OperationKind::Rotate(RotationKind::VlessRealityKeypair)
                && strings_of(p.contexts@) == seq![service_context(service@)],
            Err(e) => service_keypair_outcome(*configs, service@, keys.private_key@, keys.public_key@) == Err::<Seq<EditView>, ErrorKind>(e.kind),
        },
{
    if keys.private_key.unicode_len() == 0 || keys.public_key.unicode_len() == 0 {
        return Err(Error::plain(ErrorKind::EmptyGenerated));
    }
    if keys.private_key == pre.old_private {
        return Err(Error::plain(ErrorKind::GeneratedUnchanged));
    }
    if contains_string(&pre.old_publics, keys.public_key.as_str()) {
        return Err(Error::plain(ErrorKind::GeneratedUnchanged));
    }
    let ghost reqs = keypair_requests(service@, endpoints_view(pre.clients@), keys.private_key@, keys.public_key@);
    let ghost cs = endpoints_view(pre.clients@);
    assert(service_keypair_outcome(*configs, service@, keys.private_key@, keys.public_key@) == plan_edits(Seq::empty(), *configs, reqs, 0));
    let mut plan = service_plan(service, OperationKind::Rotate(RotationKind::VlessRealityKeypair));
    let private = string_value(&keys.private_key);
    plan.edit(configs, service.inbound.field("tls/reality/private_key"), Some(private))?;
    let mut i: usize = 0;
    while i < pre.clients.len()
        invariant
            reqs == keypair_requests(service@, cs, keys.private_key@, keys.public_key@),
            cs == endpoints_view(pre.clients@),
            i <= cs.len(),
            plan.operation == OperationKind::Rotate(RotationKind::VlessRealityKeypair),
            strings_of(plan.contexts@) == seq![service_context(service@)],
            plan_edits(Seq::empty(), *configs, reqs, 0) == plan_edits(plan@, *configs, reqs, (i + 1) as nat),
            service_keypair_outcome(*configs, service@, keys.private_key@, keys.public_key@) == plan_edits(Seq::empty(), *configs, reqs, 0),
        decreases cs.len() - i,
    {
        assert(reqs[i + 1] == (crate::binding::field_ref(cs[i as int], "tls/reality/public_key"@), string_json(keys.public_key@)));
        assert(cs[i as int] == pre.clients@[i as int]@);
        let public = string_value(&keys.public_key);
        plan.edit(configs, pre.clients[i].field("tls/reality/public_key"), Some(public))?;
        i = i + 1;
    }
    Ok(plan)
}

fn keypair_finish(configs: &ConfigSet, inventory: &Inventory, input: &Input, pre: &KeypairPreflight, keys: &RealityKeyPair) -> (r: Result<RotationPlan, Error>)
    requires
        keypair_preflight(*configs, inventory@, *input) == Ok::<(int, Seq<char>, Seq<EndpointView>, Seq<Seq<char>>), ErrorKind>(pre@),
        pre.service < inventory.services@.len(),
    ensures
        match r {
            Ok(p) => keypair_outcome(*configs, inventory@, *input, keys.private_key@, keys.public_key@) == Ok::<Seq<EditView>, ErrorKind>(p@)
                && p.operation == OperationKind::Rotate(RotationKind::VlessRealityKeypair)
                && strings_of(p.contexts@) == seq![service_context(inventory@.services[pre@.0])],
            Err(e) => keypair_outcome(*configs, inventory@, *input, keys.private_key@, keys.public_key@) == Err::<Seq<EditView>, ErrorKind>(e.kind),
        },
{
    let service = &inventory.services[pre.service];
    assert(inventory@.services[pre.service as int] == service@);
    keypair_finish_at(configs, service, pre, keys)
}

/// A keypair rotation to the given keys: the server private key and the public
/// key of every bound client with Reality enabled.
pub fn keypair_with_keys(configs: &ConfigSet, inventory: &Inventory, input: &Input, keys: &RealityKeyPair) -> (r: Result<RotationPlan, Error>)
    ensures
        match r {
            Ok(p) => keypair_outcome(*configs, inventory@, *input, keys.private_key@, keys.public_key@) == Ok::<Seq<EditView>, ErrorKind>(p@)
                && p.operation == OperationKind::Rotate(RotationKind::VlessRealityKeypair)
                && keypair_context(*configs, inventory@, *input) == Some(strings_of(p.contexts@)),
            Err(e) => keypair_outcome(*configs, inventory@, *input, keys.private_key@, keys.public_key@) == Err::<Seq<EditView>, ErrorKind>(e.kind),
        },
{
    let pre = keypair_preflight_check(configs, inventory, input)?;
    keypair_finish(configs, inventory, input, &pre, keys)
}

/// Rotates the Reality keypair of the one selected VLESS service. Every check
/// that does not need the new keys runs before the generator is called.
pub fn keypair<S: SingBox>(configs: &ConfigSet, inventory: &Inventory, input: &Input, singbox: &S) -> (r: Result<RotationPlan, Error>)
    ensures
        keypair_preflight(*configs, inventory@, *input) matches Err(k) ==> (r matches Err(e) && e.kind == k),
        r matches Err(e) ==> (keypair_preflight(*configs, inventory@, *input) matches Err(k) && e.kind == k)
            || (keypair_preflight(*configs, inventory@, *input) is Ok && (generator_failure(e.kind)
                || exists|private: Seq<char>, public: Seq<char>|
                    keypair_outcome(*configs, inventory@, *input, private, public) == Err::<Seq<EditView>, ErrorKind>(e.kind))),
        r matches Ok(p) ==> p.operation == OperationKind::Rotate(RotationKind::VlessRealityKeypair)
            && keypair_context(*configs, inventory@, *input) == Some(strings_of(p.contexts@))
            && exists|private: Seq<char>, public: Seq<char>|
                keypair_outcome(*configs, inventory@, *input, private, public) == Ok::<Seq<EditView>, ErrorKind>(p@),
{
    let pre = keypair_preflight_check(configs, inventory, input)?;
    let keys = singbox.generate_reality_keypair()?;
    let r = keypair_finish(configs, inventory, input, &pre, &keys);
    assert(r matches Err(e) ==> keypair_outcome(*configs, inventory@, *input, keys.private_key@, keys.public_key@)
        == Err::<Seq<EditView>, ErrorKind>(e.kind));
    r
}


// ---------------------------------------------------------------------------
// Reality short IDs.

pub open spec fn hex_lower(c: char) -> char {
    if 'A' <= c <= 'F' {
        ((c as nat) + 32) as char
    } else {
        c
    }
}

/// Reality decodes a hex short ID into an eight-byte, zero-padded buffer, so IDs
/// are compared by that meaning: lower-case and padded to 16 digits ("ab", "AB"
/// and "ab00000000000000" agree). `None` for an odd-length, overlong or non-hex ID.
pub open spec fn normalize_short_id(v: Seq<char>) -> Option<Seq<char>> {
    if v.len() <= 16 && v.len() % 2 == 0 && (forall|i: int| 0 <= i < v.len() ==> is_hex_digit(#[trigger] v[i])) {
        Some(v.map_values(|c: char| hex_lower(c)) + Seq::new((16 - v.len()) as nat, |i: int| '0'))
    } else {
        None
    }
}

/// The normalized form of a Reality short ID.
pub fn normalized_short_id(value: &str) -> (r: Result<String, Error>)
    ensures
        match r {
            Ok(s) => normalize_short_id(value@) == Some(s@),
            Err(e) => normalize_short_id(value@) is None && e.kind == ErrorKind::InvalidShortId,
        },
{
    let cs = chars_of(value);
    let n = cs.len();
    if n > 16 || n % 2 != 0 {
        return Err(Error::plain(ErrorKind::InvalidShortId));
    }
    let mut out = String::new();
    let mut i: usize = 0;
    while i < n
        invariant
            n == cs@.len(),
            cs@ == value@,
            n <= 16,
            i <= n,
            forall|k: int| 0 <= k < i ==> is_hex_digit(#[trigger] cs@[k]),
            out@ == cs@.take(i as int).map_values(|c: char| hex_lower(c)),
        decreases n - i,
    {
        let c = cs[i];
        let hex = ('0' <= c && c <= '9') || ('a' <= c && c <= 'f') || ('A' <= c && c <= 'F');
        if !hex {
            assert(!is_hex_digit(value@[i as int]));
            return Err(Error::plain(ErrorKind::InvalidShortId));
        }
        let lower = if 'A' <= c && c <= 'F' { ((c as u32) + 32) as u8 as char } else { c };
        assert(lower == hex_lower(c)) by {
            if 'A' <= c && c <= 'F' {
                assert(((c as u32) + 32) as u8 as char == ((c as nat) + 32) as char);
            }
        }
        push_char(&mut out, lower);
        assert(cs@.take(i + 1).map_values(|c: char| hex_lower(c)) =~= cs@.take(i as int).map_values(|c: char| hex_lower(c)).push(lower));
        i = i + 1;
    }
    assert(cs@.take(n as int) =~= cs@);
    let ghost body = out@;
    let mut j: usize = n;
    while j < 16
        invariant
            n <= j <= 16,
            out@ == body + Seq::new((j - n) as nat, |k: int| '0'),
        decreases 16 - j,
    {
        push_char(&mut out, '0');
        assert(out@ =~= body + Seq::new((j + 1 - n) as nat, |k: int| '0'));
        j = j + 1;
    }
    Ok(out)
}


/// The normalized accepted IDs of the server's `short_id` entries from `i` on.
pub open spec fn accepted_short_ids(entries: Seq<JsonView>, i: nat) -> Result<Seq<Seq<char>>, ErrorKind>
    decreases entries.len() - i,
{
    if i >= entries.len() {
        Ok(Seq::empty())
    } else {
        match entries[i as int] {
            JsonView::String(s) => match normalize_short_id(s) {
                None => Err(ErrorKind::InvalidShortId),
                Some(id) => match accepted_short_ids(entries, i + 1) {
                    Err(e) => Err(e),
                    Ok(rest) => Ok(seq![id] + rest),
                },
            },
            _ => Err(ErrorKind::ShortIdsNotAnArray),
        }
    }
}

/// A client's short ID: an absent one is the empty (all-zero) ID.
pub open spec fn client_short_id_of(configs: ConfigSet, ep: EndpointView) -> Result<Seq<char>, ErrorKind> {
    match endpoint_json(configs, ep) {
        None => Err(ErrorKind::MissingLocation),
        Some(v) => match lookup_pointer(v, "/tls/reality/short_id"@) {
            None => Ok(Seq::empty()),
            Some(JsonView::String(s)) => Ok(s),
            Some(_) => Err(ErrorKind::NotAString),
        },
    }
}

/// Selected Reality clients, the IDs they give up, and the IDs unselected clients keep.
pub struct ShortIdSplit {
    pub selected: Seq<EndpointView>,
    pub retired: Seq<Seq<char>>,
    pub retained: Seq<Seq<char>>,
}

pub open spec fn split_clients(configs: ConfigSet, input: Input, accepted: Seq<Seq<char>>, cs: Seq<EndpointView>, i: nat, st: ShortIdSplit) -> Result<ShortIdSplit, ErrorKind>
    decreases cs.len() - i,
{
    if i >= cs.len() {
        Ok(st)
    } else {
        match client_short_id_of(configs, cs[i as int]) {
            Err(e) => Err(e),
            Ok(raw) => match normalize_short_id(raw) {
                None => Err(ErrorKind::InvalidShortId),
                Some(id) => if !accepted.contains(id) {
                    Err(ErrorKind::ShortIdNotAccepted)
                } else if selected_by(configs, input, cs[i as int]) {
                    split_clients(configs, input, accepted, cs, i + 1, ShortIdSplit {
                        selected: st.selected.push(cs[i as int]),
                        retired: st.retired.push(id),
                        retained: st.retained,
                    })
                } else {
                    split_clients(configs, input, accepted, cs, i + 1, ShortIdSplit { retained: st.retained.push(id), ..st })
                },
            },
        }
    }
}

/// The context line of a short-ID rotation: that of the selected service, once
/// the preflight passes.
pub open spec fn short_id_context(configs: ConfigSet, inv: InventoryView, input: Input) -> Option<Seq<Seq<char>>> {
    match short_id_preflight(configs, inv, input) {
        Ok((si, _, _, _)) => Some(seq![service_context(inv.services[si])]),
        Err(_) => None,
    }
}

/// What a short-ID rotation of one service checks before generating: the
/// server's accepted IDs, and the split of its Reality clients into selected and
/// unselected (at least one selected).
pub open spec fn service_short_id_preflight(configs: ConfigSet, input: Input, svc: ServiceView)
    -> Result<(Seq<JsonView>, Seq<Seq<char>>, ShortIdSplit), ErrorKind> {
    let target = field_ref(svc.inbound, "tls/reality/short_id"@);
    match configs.spec_value(target.file, target.pointer) {
        None => Err(ErrorKind::MissingLocation),
        Some(JsonView::Array(entries)) => match accepted_short_ids(entries, 0) {
            Err(e) => Err(e),
            Ok(accepted) => match split_clients(configs, input, accepted,
                reality_clients(configs, service_clients(svc), 0), 0,
                ShortIdSplit { selected: Seq::empty(), retired: Seq::empty(), retained: Seq::empty() }) {
                Err(e) => Err(e),
                Ok(split) => if split.selected.len() == 0 {
                    Err(ErrorKind::NoRealitySelected)
                } else {
                    Ok((entries, accepted, split))
                },
            },
        },
        Some(_) => Err(ErrorKind::ShortIdsNotAnArray),
    }
}

/// What a short-ID rotation checks before generating: the one VLESS service with
/// Reality on the inbound and a selected bound Reality client, and what its own
/// rotation checks.
pub open spec fn short_id_preflight(configs: ConfigSet, inv: InventoryView, input: Input)
    -> Result<(int, Seq<JsonView>, Seq<Seq<char>>, ShortIdSplit), ErrorKind> {
    match chosen_service(configs, inv, input, Some(Protocol::Vless), true, Eligibility::SelectedRealityClients) {
        Err(e) => Err(e),
        Ok(si) => match service_short_id_preflight(configs, input, inv.services[si]) {
            Err(e) => Err(e),
            Ok((entries, accepted, split)) => Ok((si, entries, accepted, split)),
        },
    }
}

/// Accepting one generated value: 16 bytes, a valid ID, and new.
pub open spec fn new_short_id(used: Seq<Seq<char>>, v: Seq<char>) -> Result<Seq<char>, ErrorKind> {
    if vstd::utf8::encode_utf8(v).len() != 16 {
        Err(ErrorKind::InvalidGenerated)
    } else {
        match normalize_short_id(v) {
            None => Err(ErrorKind::InvalidShortId),
            Some(id) => if used.contains(id) {
                Err(ErrorKind::GeneratedCollision)
            } else {
                Ok(id)
            },
        }
    }
}

/// The IDs made of the first `n` generated values, each new among the accepted IDs
/// and the IDs made before it.
pub open spec fn new_short_ids(accepted: Seq<Seq<char>>, gens: Seq<Seq<char>>, n: nat) -> Result<Seq<Seq<char>>, ErrorKind>
    decreases n,
{
    if n == 0 {
        Ok(Seq::empty())
    } else {
        match new_short_ids(accepted, gens, (n - 1) as nat) {
            Err(e) => Err(e),
            Ok(prev) => if n > gens.len() {
                Err(ErrorKind::Generator)
            } else {
                match new_short_id(accepted + prev, gens[n - 1]) {
                    Err(e) => Err(e),
                    Ok(id) => Ok(prev.push(id)),
                }
            },
        }
    }
}

/// An accepted ID stays unless a selected client gave it up and no unselected
/// client still uses it.
pub open spec fn keeps(split: ShortIdSplit, id: Seq<char>) -> bool {
    !split.retired.contains(id) || split.retained.contains(id)
}

/// The server entries that stay, in order, from entry `i` on.
pub open spec fn kept_entries(entries: Seq<JsonView>, accepted: Seq<Seq<char>>, split: ShortIdSplit, i: nat) -> Seq<JsonView>
    decreases entries.len() - i,
{
    if i >= entries.len() {
        Seq::empty()
    } else {
        (if keeps(split, accepted[i as int]) { seq![entries[i as int]] } else { Seq::empty() })
            + kept_entries(entries, accepted, split, i + 1)
    }
}

/// The edits of a short-ID rotation: each selected client's new ID, then the
/// server's accepted list (the kept entries followed by the new IDs).
pub open spec fn short_id_requests(svc: ServiceView, entries: Seq<JsonView>, accepted: Seq<Seq<char>>, split: ShortIdSplit, ids: Seq<Seq<char>>)
    -> Seq<(ConfigRefView, Option<JsonView>)> {
    Seq::new(split.selected.len(), |j: int| (field_ref(split.selected[j], "tls/reality/short_id"@), string_json(ids[j])))
        + seq![(field_ref(svc.inbound, "tls/reality/short_id"@), Some(JsonView::Array(
            kept_entries(entries, accepted, split, 0) + ids.map_values(|id: Seq<char>| JsonView::String(id)))))]
}

/// The short-ID rotation of one service given the generated values, one per
/// selected client.
pub open spec fn service_short_ids_outcome(configs: ConfigSet, input: Input, svc: ServiceView, gens: Seq<Seq<char>>)
    -> Result<Seq<EditView>, ErrorKind> {
    match service_short_id_preflight(configs, input, svc) {
        Err(e) => Err(e),
        Ok((entries, accepted, split)) => match new_short_ids(accepted, gens, split.selected.len()) {
            Err(e) => Err(e),
            Ok(ids) => plan_edits(Seq::empty(), configs, short_id_requests(svc, entries, accepted, split, ids), 0),
        },
    }
}

/// A short-ID rotation given the generated values, one per selected client.
pub open spec fn short_ids_outcome(configs: ConfigSet, inv: InventoryView, input: Input, gens: Seq<Seq<char>>) -> Result<Seq<EditView>, ErrorKind> {
    match chosen_service(configs, inv, input, Some(Protocol::Vless), true, Eligibility::SelectedRealityClients) {
        Err(e) => Err(e),
        Ok(si) => service_short_ids_outcome(configs, input, inv.services[si], gens),
    }
}

fn accepted_id_list(entries: &Vec<Json>) -> (r: Result<Vec<String>, Error>)
    ensures
        match r {
            Ok(v) => accepted_short_ids(items_view(entries@), 0) == Ok::<Seq<Seq<char>>, ErrorKind>(strings_of(v@)),
            Err(e) => accepted_short_ids(items_view(entries@), 0) == Err::<Seq<Seq<char>>, ErrorKind>(e.kind),
        },
{
    let ghost es = items_view(entries@);
    let mut out: Vec<String> = Vec::new();
    let mut i: usize = 0;
    while i < entries.len()
        invariant
            es == items_view(entries@),
            i <= entries@.len(),
            accepted_short_ids(es, 0) == match accepted_short_ids(es, i as nat) {
                Err(e) => Err(e),
                Ok(rest) => Ok::<Seq<Seq<char>>, ErrorKind>(strings_of(out@) + rest),
            },
        decreases entries@.len() - i,
    {
        assert(es[i as int] == entries@[i as int]@);
        let text = match entries[i].as_string() {
            Some(t) => t,
            None => {
                return Err(Error::plain(ErrorKind::ShortIdsNotAnArray));
            },
        };
        let id = normalized_short_id(text.as_str())?;
        let ghost before = strings_of(out@);
        out.push(id);
        assert(strings_of(out@) =~= before.push(id@));
        proof {
            match accepted_short_ids(es, (i + 1) as nat) {
                Err(e) => {},
                Ok(rest) => {
                    assert(before + (seq![id@] + rest) =~= strings_of(out@) + rest);
                },
            }
        }
        i = i + 1;
    }
    assert(strings_of(out@) + Seq::<Seq<char>>::empty() =~= strings_of(out@));
    Ok(out)
}

pub(crate) fn client_short_id(configs: &ConfigSet, ep: &EndpointRef) -> (r: Result<String, Error>)
    ensures
        match r {
            Ok(s) => client_short_id_of(*configs, ep@) == Ok::<Seq<char>, ErrorKind>(s@),
            Err(e) => client_short_id_of(*configs, ep@) == Err::<Seq<char>, ErrorKind>(e.kind),
        },
{
    let v = configs.value(ep.config.file.as_str(), ep.config.pointer.as_str())?;
    match v.pointer("/tls/reality/short_id") {
        None => Ok(String::new()),
        Some(j) => match j.as_string() {
            Some(s) => Ok(s.clone()),
            None => Err(Error::new(ErrorKind::NotAString, "client Reality short_id must be a string".to_string())),
        },
    }
}

/// The result of a short-ID rotation preflight.
pub struct ShortIdPreflight {
    pub service: usize,
    pub entries: Vec<Json>,
    pub accepted: Vec<String>,
    pub selected: Vec<EndpointRef>,
    pub retired: Vec<String>,
    pub retained: Vec<String>,
}

impl ShortIdPreflight {
    pub open spec fn split(&self) -> ShortIdSplit {
        ShortIdSplit {
            selected: endpoints_view(self.selected@),
            retired: strings_of(self.retired@),
            retained: strings_of(self.retained@),
        }
    }

    pub open spec fn view(&self) -> (int, Seq<JsonView>, Seq<Seq<char>>, ShortIdSplit) {
        (self.service as int, items_view(self.entries@), strings_of(self.accepted@), self.split())
    }
}

fn clone_items(items: &Vec<Json>) -> (r: Vec<Json>)
    ensures
        items_view(r@) == items_view(items@),
{
    let mut out: Vec<Json> = Vec::new();
    let mut i: usize = 0;
    while i < items.len()
        invariant
            i <= items@.len(),
            out@.len() == i,
            forall|k: int| 0 <= k < i ==> #[trigger] out@[k]@ == items@[k]@,
        decreases items@.len() - i,
    {
        out.push(items[i].duplicate());
        i = i + 1;
    }
    assert(items_view(out@) =~= items_view(items@));
    out
}

/// Everything a short-ID rotation of one service checks before generating IDs.
pub(crate) fn short_id_check_at(configs: &ConfigSet, input: &Input, service: &ServiceBinding, si: usize) -> (r: Result<ShortIdPreflight, Error>)
    ensures
        match r {
            Ok(p) => service_short_id_preflight(*configs, *input, service@)
                    == Ok::<(Seq<JsonView>, Seq<Seq<char>>, ShortIdSplit), ErrorKind>((p@.1, p@.2, p@.3))
                && p.service == si,
            Err(e) => service_short_id_preflight(*configs, *input, service@)
                == Err::<(Seq<JsonView>, Seq<Seq<char>>, ShortIdSplit), ErrorKind>(e.kind),
        },
{
    let target = service.inbound.field("tls/reality/short_id");
    let value = match configs.value(target.file.as_str(), target.pointer.as_str()) {
        Ok(v) => v,
        Err(e) => {
            return Err(e);
        },
    };
    let entries = match value {
        Json::Array(items) => {
            proof {
                lemma_array_view(*items);
            }
            items
        },
        _ => {
            return Err(Error::plain(ErrorKind::ShortIdsNotAnArray));
        },
    };
    let accepted = accepted_id_list(entries)?;
    let all = service.clients();
    let clients = reality_client_list(configs, &all);
    let ghost cs = endpoints_view(clients@);
    let ghost acc = strings_of(accepted@);
    let mut selected: Vec<EndpointRef> = Vec::new();
    let mut retired: Vec<String> = Vec::new();
    let mut retained: Vec<String> = Vec::new();
    let ghost start = ShortIdSplit { selected: Seq::empty(), retired: Seq::empty(), retained: Seq::empty() };
    assert(endpoints_view(selected@) =~= start.selected);
    assert(strings_of(retired@) =~= start.retired);
    assert(strings_of(retained@) =~= start.retained);
    let ghost outcome = match split_clients(*configs, *input, acc, cs, 0, start) {
        Err(e) => Err(e),
        Ok(split) => if split.selected.len() == 0 {
            Err(ErrorKind::NoRealitySelected)
        } else {
            Ok((items_view(entries@), acc, split))
        },
    };
    assert(service_short_id_preflight(*configs, *input, service@) == outcome);
    let mut i: usize = 0;
    while i < clients.len()
        invariant
            service_short_id_preflight(*configs, *input, service@) == outcome,
            outcome == match split_clients(*configs, *input, acc, cs, 0, start) {
                Err(e) => Err(e),
                Ok(split) => if split.selected.len() == 0 {
                    Err(ErrorKind::NoRealitySelected)
                } else {
                    Ok((items_view(entries@), acc, split))
                },
            },
            cs == endpoints_view(clients@),
            acc == strings_of(accepted@),
            i <= clients@.len(),
            split_clients(*configs, *input, acc, cs, 0, start) == split_clients(*configs, *input, acc, cs, i as nat,
                ShortIdSplit { selected: endpoints_view(selected@), retired: strings_of(retired@), retained: strings_of(retained@) }),
        decreases clients@.len() - i,
    {
        assert(cs[i as int] == clients@[i as int]@);
        let raw = client_short_id(configs, &clients[i])?;
        let id = normalized_short_id(raw.as_str())?;
        if !contains_string(&accepted, id.as_str()) {
            let context = clients[i].label();
            return Err(Error::new(ErrorKind::ShortIdNotAccepted, context));
        }
        if crate::binding::client_selected(&clients[i], configs, input) {
            let ghost (s0, r0) = (endpoints_view(selected@), strings_of(retired@));
            let c = clients[i].clone();
            selected.push(c);
            retired.push(id);
            assert(endpoints_view(selected@) =~= s0.push(c@));
            assert(strings_of(retired@) =~= r0.push(id@));
        } else {
            let ghost k0 = strings_of(retained@);
            retained.push(id);
            assert(strings_of(retained@) =~= k0.push(id@));
        }
        i = i + 1;
    }
    if selected.len() == 0 {
        return Err(Error::plain(ErrorKind::NoRealitySelected));
    }
    let copied = clone_items(entries);
    Ok(ShortIdPreflight { service: si, entries: copied, accepted, selected, retired, retained })
}

/// Everything a short-ID rotation checks before generating IDs.
pub fn short_id_preflight_check(configs: &ConfigSet, inventory: &Inventory, input: &Input) -> (r: Result<ShortIdPreflight, Error>)
    ensures
        match r {
            Ok(p) => short_id_preflight(*configs, inventory@, *input) == Ok::<(int, Seq<JsonView>, Seq<Seq<char>>, ShortIdSplit), ErrorKind>(p@)
                && p.service < inventory.services@.len(),
            Err(e) => short_id_preflight(*configs, inventory@, *input) == Err::<(int, Seq<JsonView>, Seq<Seq<char>>, ShortIdSplit), ErrorKind>(e.kind),
        },
{
    let si = one_service(configs, inventory, input, Some(Protocol::Vless), true, Eligibility::SelectedRealityClients)?;
    proof {
        crate::protocol::lemma_chosen_service_bounds(*configs, inventory@, *input, Some(Protocol::Vless), true, Eligibility::SelectedRealityClients);
    }
    let service = &inventory.services[si];
    assert(inventory@.services[si as int] == service@);
    short_id_check_at(configs, input, service, si)
}


fn check_new_id(accepted: &Vec<String>, made: &Vec<String>, v: &String) -> (r: Result<String, Error>)
    ensures
        match r {
            Ok(id) => new_short_id(strings_of(accepted@) + strings_of(made@), v@) == Ok::<Seq<char>, ErrorKind>(id@),
            Err(e) => new_short_id(strings_of(accepted@) + strings_of(made@), v@) == Err::<Seq<char>, ErrorKind>(e.kind),
        },
{
    let bytes = v.as_str().as_bytes();
    if bytes.len() != 16 {
        return Err(Error::plain(ErrorKind::InvalidGenerated));
    }
    let id = normalized_short_id(v.as_str())?;
    let ghost used = strings_of(accepted@) + strings_of(made@);
    let in_accepted = contains_string(accepted, id.as_str());
    let in_made = contains_string(made, id.as_str());
    proof {
        if in_accepted {
            let k = choose|k: int| 0 <= k < strings_of(accepted@).len() && strings_of(accepted@)[k] == id@;
            assert(used[k] == id@);
        }
        if in_made {
            let k = choose|k: int| 0 <= k < strings_of(made@).len() && strings_of(made@)[k] == id@;
            assert(used[strings_of(accepted@).len() + k] == id@);
        }
        if used.contains(id@) {
            let k = choose|k: int| 0 <= k < used.len() && used[k] == id@;
            if k < strings_of(accepted@).len() {
                assert(strings_of(accepted@)[k] == id@);
            } else {
                assert(strings_of(made@)[k - strings_of(accepted@).len()] == id@);
            }
        }
    }
    if in_accepted || in_made {
        return Err(Error::plain(ErrorKind::GeneratedCollision));
    }
    Ok(id)
}

fn kept_entry_list(pre: &ShortIdPreflight) -> (r: Vec<Json>)
    requires
        pre.accepted@.len() == pre.entries@.len(),
    ensures
        items_view(r@) == kept_entries(items_view(pre.entries@), strings_of(pre.accepted@), pre.split(), 0),
{
    let ghost es = items_view(pre.entries@);
    let ghost acc = strings_of(pre.accepted@);
    let ghost sp = pre.split();
    let mut out: Vec<Json> = Vec::new();
    let mut i: usize = 0;
    assert(items_view(out@) + kept_entries(es, acc, sp, 0) =~= kept_entries(es, acc, sp, 0));
    while i < pre.entries.len()
        invariant
            es == items_view(pre.entries@),
            acc == strings_of(pre.accepted@),
            sp == pre.split(),
            pre.accepted@.len() == pre.entries@.len(),
            i <= pre.entries@.len(),
            items_view(out@) + kept_entries(es, acc, sp, i as nat) == kept_entries(es, acc, sp, 0),
        decreases pre.entries@.len() - i,
    {
        let id = &pre.accepted[i];
        assert(acc[i as int] == id@);
        assert(es[i as int] == pre.entries@[i as int]@);
        let retired = contains_string(&pre.retired, id.as_str());
        let retained = contains_string(&pre.retained, id.as_str());
        let ghost before = items_view(out@);
        let ghost rest = kept_entries(es, acc, sp, (i + 1) as nat);
        if !retired || retained {
            let e = pre.entries[i].duplicate();
            out.push(e);
            assert(items_view(out@) =~= before.push(e@));
            assert(items_view(out@) + rest =~= before + (seq![es[i as int]] + rest));
        } else {
            assert(kept_entries(es, acc, sp, i as nat) =~= rest);
        }
        i = i + 1;
    }
    assert(items_view(out@) =~= kept_entries(es, acc, sp, 0));
    out
}


proof fn lemma_accepted_len(entries: Seq<JsonView>, i: nat)
    ensures
        accepted_short_ids(entries, i) matches Ok(v) ==> v.len() == entries.len() - i || (i > entries.len() && v.len() == 0),
    decreases entries.len() - i,
{
    if i < entries.len() {
        lemma_accepted_len(entries, i + 1);
    }
}

proof fn lemma_new_short_ids_err(accepted: Seq<Seq<char>>, gens: Seq<Seq<char>>, n: nat, m: nat)
    requires
        n <= m,
        new_short_ids(accepted, gens, n) is Err,
    ensures
        new_short_ids(accepted, gens, m) == new_short_ids(accepted, gens, n),
    decreases m - n,
{
    if n < m {
        lemma_new_short_ids_err(accepted, gens, n, (m - 1) as nat);
    }
}

proof fn lemma_new_short_ids_extend(accepted: Seq<Seq<char>>, gens: Seq<Seq<char>>, v: Seq<char>, n: nat)
    requires
        n <= gens.len(),
    ensures
        new_short_ids(accepted, gens.push(v), n) == new_short_ids(accepted, gens, n),
    decreases n,
{
    if n > 0 {
        lemma_new_short_ids_extend(accepted, gens, v, (n - 1) as nat);
        assert(gens.push(v)[n - 1] == gens[n - 1]);
    }
}

/// The short-ID rotation of one service to the new IDs `ids`, after its checks.
pub(crate) fn short_ids_finish_at(configs: &ConfigSet, input: &Input, service: &ServiceBinding, pre: &ShortIdPreflight, ids: &Vec<String>) -> (r: Result<RotationPlan, Error>)
    requires
        service_short_id_preflight(*configs, *input, service@)
            == Ok::<(Seq<JsonView>, Seq<Seq<char>>, ShortIdSplit), ErrorKind>((pre@.1, pre@.2, pre@.3)),
        ids@.len() == pre.selected@.len(),
    ensures
        r matches Ok(p) ==> p.operation == OperationKind::Rotate(RotationKind::VlessRealityShortId)
            && strings_of(p.contexts@) == seq![service_context(service@)],
        match r {
            Ok(p) => plan_edits(Seq::empty(), *configs, short_id_requests(service@,
                items_view(pre.entries@), strings_of(pre.accepted@), pre.split(), strings_of(ids@)), 0) == Ok::<Seq<EditView>, ErrorKind>(p@),
            Err(e) => plan_edits(Seq::empty(), *configs, short_id_requests(service@,
                items_view(pre.entries@), strings_of(pre.accepted@), pre.split(), strings_of(ids@)), 0) == Err::<Seq<EditView>, ErrorKind>(e.kind),
        },
{
    proof {
        lemma_accepted_len(items_view(pre.entries@), 0);
    }
    let ghost reqs = short_id_requests(service@, items_view(pre.entries@), strings_of(pre.accepted@), pre.split(), strings_of(ids@));
    let ghost total = plan_edits(Seq::empty(), *configs, reqs, 0);
    let ghost sel = endpoints_view(pre.selected@);
    let mut plan = service_plan(service, OperationKind::Rotate(RotationKind::VlessRealityShortId));
    let mut j: usize = 0;
    while j < pre.selected.len()
        invariant
            reqs == short_id_requests(service@, items_view(pre.entries@), strings_of(pre.accepted@), pre.split(), strings_of(ids@)),
            total == plan_edits(Seq::empty(), *configs, reqs, 0),
            sel == endpoints_view(pre.selected@),
            ids@.len() == pre.selected@.len(),
            j <= pre.selected@.len(),
            plan.operation == OperationKind::Rotate(RotationKind::VlessRealityShortId),
            strings_of(plan.contexts@) == seq![service_context(service@)],
            total == plan_edits(plan@, *configs, reqs, j as nat),
        decreases pre.selected@.len() - j,
    {
        assert(reqs[j as int] == (field_ref(sel[j as int], "tls/reality/short_id"@), string_json(strings_of(ids@)[j as int])));
        assert(sel[j as int] == pre.selected@[j as int]@);
        let value = string_value(&ids[j]);
        plan.edit(configs, pre.selected[j].field("tls/reality/short_id"), Some(value))?;
        j = j + 1;
    }
    let mut next = kept_entry_list(pre);
    let ghost kept = items_view(next@);
    let mut k: usize = 0;
    while k < ids.len()
        invariant
            k <= ids@.len(),
            items_view(next@) == kept + strings_of(ids@).take(k as int).map_values(|id: Seq<char>| JsonView::String(id)),
        decreases ids@.len() - k,
    {
        let ghost before = items_view(next@);
        let value = string_value(&ids[k]);
        next.push(value);
        assert(items_view(next@) =~= before.push(value@));
        assert(strings_of(ids@).take(k + 1).map_values(|id: Seq<char>| JsonView::String(id))
            =~= strings_of(ids@).take(k as int).map_values(|id: Seq<char>| JsonView::String(id)).push(JsonView::String(ids@[k as int]@)));
        k = k + 1;
    }
    assert(strings_of(ids@).take(k as int) =~= strings_of(ids@));
    let target = service.inbound.field("tls/reality/short_id");
    let array = Json::Array(next);
    proof {
        lemma_array_view(next);
        assert(reqs[j as int] == (target@, Some(array@)));
        assert(reqs.len() == j + 1);
    }
    let ghost before = plan@;
    plan.edit(configs, target, Some(array))?;
    assert(plan_edits(plan@, *configs, reqs, (j + 1) as nat) == Ok::<Seq<EditView>, ErrorKind>(plan@));
    assert(total == plan_edits(before, *configs, reqs, j as nat));
    Ok(plan)
}

/// The new IDs made of the generated values from position `off` on, one per
/// selected client of a short-ID rotation.
pub(crate) fn short_ids_made(pre: &ShortIdPreflight, generated: &Vec<String>, off: usize) -> (r: Result<Vec<String>, Error>)
    requires
        off <= generated@.len(),
    ensures
        match r {
            Ok(made) => new_short_ids(strings_of(pre.accepted@), strings_of(generated@).skip(off as int), pre.selected@.len())
                    == Ok::<Seq<Seq<char>>, ErrorKind>(strings_of(made@))
                && made@.len() == pre.selected@.len(),
            Err(e) => new_short_ids(strings_of(pre.accepted@), strings_of(generated@).skip(off as int), pre.selected@.len())
                == Err::<Seq<Seq<char>>, ErrorKind>(e.kind),
        },
{
    let ghost gens = strings_of(generated@).skip(off as int);
    let ghost acc = strings_of(pre.accepted@);
    let ghost count = pre.selected@.len();
    let mut made: Vec<String> = Vec::new();
    let mut j: usize = 0;
    assert(strings_of(made@) =~= Seq::<Seq<char>>::empty());
    while j < pre.selected.len()
        invariant
            count == pre.selected@.len(),
            off <= generated@.len(),
            gens == strings_of(generated@).skip(off as int),
            acc == strings_of(pre.accepted@),
            j <= pre.selected@.len(),
            new_short_ids(acc, gens, j as nat) == Ok::<Seq<Seq<char>>, ErrorKind>(strings_of(made@)),
            made@.len() == j,
        decreases pre.selected@.len() - j,
    {
        if j >= generated.len() - off {
            proof {
                lemma_new_short_ids_err(acc, gens, (j + 1) as nat, count);
            }
            return Err(Error::plain(ErrorKind::Generator));
        }
        assert(gens[j as int] == generated@[off + j]@);
        let checked = check_new_id(&pre.accepted, &made, &generated[off + j]);
        let id = match checked {
            Ok(id) => id,
            Err(e) => {
                proof {
                    lemma_new_short_ids_err(acc, gens, (j + 1) as nat, count);
                }
                return Err(e);
            },
        };
        let ghost before = strings_of(made@);
        made.push(id);
        assert(strings_of(made@) =~= before.push(id@));
        j = j + 1;
    }
    Ok(made)
}

/// A short-ID rotation with the given generated values, used in order, one per
/// selected client.
pub fn short_ids_with(configs: &ConfigSet, inventory: &Inventory, input: &Input, generated: &Vec<String>) -> (r: Result<RotationPlan, Error>)
    ensures
        r matches Ok(p) ==> p.operation == OperationKind::Rotate(RotationKind::VlessRealityShortId)
            && short_id_context(*configs, inventory@, *input) == Some(strings_of(p.contexts@)),
        match r {
            Ok(p) => short_ids_outcome(*configs, inventory@, *input, strings_of(generated@)) == Ok::<Seq<EditView>, ErrorKind>(p@),
            Err(e) => short_ids_outcome(*configs, inventory@, *input, strings_of(generated@)) == Err::<Seq<EditView>, ErrorKind>(e.kind),
        },
{
    let pre = short_id_preflight_check(configs, inventory, input)?;
    assert(strings_of(generated@).skip(0) =~= strings_of(generated@));
    let made = short_ids_made(&pre, generated, 0)?;
    let service = &inventory.services[pre.service];
    assert(inventory@.services[pre.service as int] == service@);
    short_ids_finish_at(configs, input, service, &pre, &made)
}

/// Rotates the short ID of every selected Reality client of the one selected VLESS
/// service; unselected clients keep theirs, and the server keeps every accepted ID
/// that is not given up by a selected client alone. Every check that does not need
/// the new IDs runs before the generator is called.
pub fn short_ids<S: SingBox>(configs: &ConfigSet, inventory: &Inventory, input: &Input, singbox: &S) -> (r: Result<RotationPlan, Error>)
    ensures
        short_id_preflight(*configs, inventory@, *input) matches Err(k) ==> (r matches Err(e) && e.kind == k),
        r matches Err(e) ==> (short_id_preflight(*configs, inventory@, *input) matches Err(k) && e.kind == k)
            || (short_id_preflight(*configs, inventory@, *input) is Ok && (generator_failure(e.kind)
                || exists|gens: Seq<Seq<char>>| short_ids_outcome(*configs, inventory@, *input, gens) == Err::<Seq<EditView>, ErrorKind>(e.kind))),
        r matches Ok(p) ==> p.operation == OperationKind::Rotate(RotationKind::VlessRealityShortId)
            && short_id_context(*configs, inventory@, *input) == Some(strings_of(p.contexts@))
            && exists|gens: Seq<Seq<char>>| (forall|i: int| 0 <= i < gens.len() ==> hex_text(#[trigger] gens[i], SHORT_ID_BYTES as nat))
                && short_ids_outcome(*configs, inventory@, *input, gens) == Ok::<Seq<EditView>, ErrorKind>(p@),
{
    let pre = short_id_preflight_check(configs, inventory, input)?;
    let ghost acc = strings_of(pre.accepted@);
    let ghost mut gens: Seq<Seq<char>> = Seq::empty();
    let mut made: Vec<String> = Vec::new();
    let mut j: usize = 0;
    assert(strings_of(made@) =~= Seq::<Seq<char>>::empty());
    while j < pre.selected.len()
        invariant
            short_id_preflight(*configs, inventory@, *input) == Ok::<(int, Seq<JsonView>, Seq<Seq<char>>, ShortIdSplit), ErrorKind>(pre@),
            acc == strings_of(pre.accepted@),
            j <= pre.selected@.len(),
            gens.len() == j,
            new_short_ids(acc, gens, j as nat) == Ok::<Seq<Seq<char>>, ErrorKind>(strings_of(made@)),
            made@.len() == j,
            forall|i: int| 0 <= i < gens.len() ==> hex_text(#[trigger] gens[i], SHORT_ID_BYTES as nat),
        decreases pre.selected@.len() - j,
    {
        let v = singbox.generate_random_hex(SHORT_ID_BYTES)?;
        proof {
            lemma_new_short_ids_extend(acc, gens, v@, j as nat);
            gens = gens.push(v@);
        }
        let id = match check_new_id(&pre.accepted, &made, &v) {
            Ok(id) => id,
            Err(e) => {
                proof {
                    assert(new_short_ids(acc, gens, (j + 1) as nat) == Err::<Seq<Seq<char>>, ErrorKind>(e.kind));
                    lemma_new_short_ids_err(acc, gens, (j + 1) as nat, pre.split().selected.len());
                    assert(short_ids_outcome(*configs, inventory@, *input, gens) == Err::<Seq<EditView>, ErrorKind>(e.kind));
                }
                return Err(e);
            },
        };
        let ghost before = strings_of(made@);
        made.push(id);
        assert(strings_of(made@) =~= before.push(id@));
        j = j + 1;
    }
    let service = &inventory.services[pre.service];
    assert(inventory@.services[pre.service as int] == service@);
    let r = short_ids_finish_at(configs, input, service, &pre, &made);
    assert(r matches Ok(p) ==> short_ids_outcome(*configs, inventory@, *input, gens) == Ok::<Seq<EditView>, ErrorKind>(p@));
    assert(r matches Err(e) ==> short_ids_outcome(*configs, inventory@, *input, gens) == Err::<Seq<EditView>, ErrorKind>(e.kind));
    r
}

} // verus!
