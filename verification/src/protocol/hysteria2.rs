//! Hysteria2 planners: the obfuscation password shared by a server and its clients.
use vstd::prelude::*;
use crate::binding::{ConfigRefView, EndpointRef, EndpointView, Inventory, InventoryView, ServiceBinding, ServiceView,
    contains_string, endpoints_view, field_ref, seq_contains_str, service_clients};
use crate::cli::{Input, Protocol, RotationKind};
use crate::config::{ConfigSet, strings_of};
use crate::error::{Error, ErrorKind};
use crate::plan::{EditView, OperationKind, RotationPlan, plan_edits};
use crate::singbox::{PASSWORD_BYTES, SingBox, base64_text, generator_failure};
use super::{Eligibility, chosen_service, one_service, service_context, service_plan, string_at, string_field};
use super::vless::{string_json, string_value};

verus! {

/// The obfs passwords of `cs[i..]`, each client's obfs type checked against
/// the server's first; or the first failure.
pub open spec fn client_obfs_passwords(configs: ConfigSet, cs: Seq<EndpointView>, server_type: Seq<char>, i: nat)
    -> Result<Seq<Seq<char>>, ErrorKind>
    decreases cs.len() - i,
{
    if i >= cs.len() {
        Ok(Seq::empty())
    } else {
        match string_at(configs, cs[i as int], "obfs/type"@) {
            Err(e) => Err(e),
            Ok(t) => if t != server_type {
                Err(ErrorKind::ObfsTypeMismatch)
            } else {
                match string_at(configs, cs[i as int], "obfs/password"@) {
                    Err(e) => Err(e),
                    Ok(p) => match client_obfs_passwords(configs, cs, server_type, i + 1) {
                        Err(e) => Err(e),
                        Ok(rest) => Ok(seq![p] + rest),
                    },
                }
            },
        }
    }
}

/// What an obfs rotation of one service checks before generating: a configured
/// server obfs type shared by every bound client, and the current passwords (the
/// server's first, then each client's).
pub open spec fn service_obfs_preflight(configs: ConfigSet, svc: ServiceView) -> Result<Seq<Seq<char>>, ErrorKind> {
    match string_at(configs, svc.inbound, "obfs/type"@) {
        Err(e) => Err(e),
        Ok(t) => if t.len() == 0 {
            Err(ErrorKind::ObfsNotConfigured)
        } else {
            match string_at(configs, svc.inbound, "obfs/password"@) {
                Err(e) => Err(e),
                Ok(p) => match client_obfs_passwords(configs, service_clients(svc), t, 0) {
                    Err(e) => Err(e),
                    Ok(rest) => Ok(seq![p] + rest),
                },
            }
        },
    }
}

/// What an obfs rotation checks before generating: the one selected Hysteria2
/// service, and what its own rotation checks.
pub open spec fn obfs_preflight(configs: ConfigSet, inv: InventoryView, input: Input) -> Result<(int, Seq<Seq<char>>), ErrorKind> {
    match chosen_service(configs, inv, input, Some(Protocol::Hysteria2), false, Eligibility::Any) {
        Err(e) => Err(e),
        Ok(si) => match service_obfs_preflight(configs, inv.services[si]) {
            Err(e) => Err(e),
            Ok(old) => Ok((si, old)),
        },
    }
}

/// The edits of an obfs rotation to `v`: the server's password, then every bound
/// client's.
pub open spec fn obfs_requests(svc: ServiceView, v: Seq<char>) -> Seq<(ConfigRefView, Option<crate::json::JsonView>)> {
    let cs = service_clients(svc);
    seq![(field_ref(svc.inbound, "obfs/password"@), string_json(v))]
        + Seq::new(cs.len(), |i: int| (field_ref(cs[i], "obfs/password"@), string_json(v)))
}

/// The context line of an obfs rotation: that of the selected service, once the
/// preflight passes.
pub open spec fn obfs_context(configs: ConfigSet, inv: InventoryView, input: Input) -> Option<Seq<Seq<char>>> {
    match obfs_preflight(configs, inv, input) {
        Ok((si, _)) => Some(seq![service_context(inv.services[si])]),
        Err(_) => None,
    }
}

/// The obfs rotation of one service to `v`.
pub open spec fn service_obfs_outcome(configs: ConfigSet, svc: ServiceView, v: Seq<char>) -> Result<Seq<EditView>, ErrorKind> {
    match service_obfs_preflight(configs, svc) {
        Err(e) => Err(e),
        Ok(old) => if v.len() == 0 {
            Err(ErrorKind::EmptyGenerated)
        } else if seq_contains_str(old, v) {
            Err(ErrorKind::GeneratedUnchanged)
        } else {
            plan_edits(Seq::empty(), configs, obfs_requests(svc, v), 0)
        },
    }
}

/// An obfs rotation given the generated password.
pub open spec fn obfs_outcome(configs: ConfigSet, inv: InventoryView, input: Input, v: Seq<char>) -> Result<Seq<EditView>, ErrorKind> {
    match chosen_service(configs, inv, input, Some(Protocol::Hysteria2), false, Eligibility::Any) {
        Err(e) => Err(e),
        Ok(si) => service_obfs_outcome(configs, inv.services[si], v),
    }
}

fn client_obfs_list(configs: &ConfigSet, clients: &Vec<EndpointRef>, server_type: &String, passwords: &mut Vec<String>) -> (r: Result<(), Error>)
    ensures
        match r {
            Ok(()) => client_obfs_passwords(*configs, endpoints_view(clients@), server_type@, 0)
                == Ok::<Seq<Seq<char>>, ErrorKind>(strings_of(final(passwords)@).skip(old(passwords)@.len() as int))
                && final(passwords)@.len() >= old(passwords)@.len()
                && strings_of(final(passwords)@).take(old(passwords)@.len() as int) == strings_of(old(passwords)@),
            Err(e) => client_obfs_passwords(*configs, endpoints_view(clients@), server_type@, 0)
                == Err::<Seq<Seq<char>>, ErrorKind>(e.kind),
        },
{
    let ghost cs = endpoints_view(clients@);
    let ghost start = strings_of(passwords@);
    let ghost n0 = passwords@.len();
    let mut i: usize = 0;
    assert(strings_of(passwords@).skip(n0 as int) =~= Seq::<Seq<char>>::empty());
    while i < clients.len()
        invariant
            cs == endpoints_view(clients@),
            start.len() == n0,
            i <= clients@.len(),
            strings_of(passwords@).take(n0 as int) == start,
            passwords@.len() >= n0,
            client_obfs_passwords(*configs, cs, server_type@, 0) == match client_obfs_passwords(*configs, cs, server_type@, i as nat) {
                Err(e) => Err(e),
                Ok(rest) => Ok::<Seq<Seq<char>>, ErrorKind>(strings_of(passwords@).skip(n0 as int) + rest),
            },
        decreases clients@.len() - i,
    {
        assert(cs[i as int] == clients@[i as int]@);
        let t = string_field(configs, &clients[i], "obfs/type")?;
        if !crate::text::str_equal(t.as_str(), server_type.as_str()) {
            let context = clients[i].label();
            return Err(Error::new(ErrorKind::ObfsTypeMismatch, context));
        }
        let p = string_field(configs, &clients[i], "obfs/password")?;
        let ghost before = strings_of(passwords@);
        passwords.push(p.clone());
        assert(strings_of(passwords@) =~= before.push(p@));
        assert(strings_of(passwords@).take(n0 as int) =~= before.take(n0 as int));
        proof {
            match client_obfs_passwords(*configs, cs, server_type@, (i + 1) as nat) {
                Err(e) => {},
                Ok(rest) => {
                    assert(before.skip(n0 as int) + (seq![p@] + rest) =~= strings_of(passwords@).skip(n0 as int) + rest);
                },
            }
        }
        i = i + 1;
    }
    assert(strings_of(passwords@).skip(n0 as int) + Seq::<Seq<char>>::empty() =~= strings_of(passwords@).skip(n0 as int));
    Ok(())
}

/// The result of an obfs rotation preflight.
pub struct ObfsPreflight {
    pub service: usize,
    pub old: Vec<String>,
}

impl ObfsPreflight {
    pub open spec fn view(&self) -> (int, Seq<Seq<char>>) {
        (self.service as int, strings_of(self.old@))
    }
}

/// Everything an obfs rotation of one service checks before generating a password.
pub(crate) fn obfs_check_at(configs: &ConfigSet, service: &ServiceBinding, si: usize) -> (r: Result<ObfsPreflight, Error>)
    ensures
        match r {
            Ok(p) => service_obfs_preflight(*configs, service@) == Ok::<Seq<Seq<char>>, ErrorKind>(p@.1) && p.service == si,
            Err(e) => service_obfs_preflight(*configs, service@) == Err::<Seq<Seq<char>>, ErrorKind>(e.kind),
        },
{
    let obfs_type = string_field(configs, &service.inbound, "obfs/type")?;
    if obfs_type.unicode_len() == 0 {
        let context = service.inbound.label();
        return Err(Error::new(ErrorKind::ObfsNotConfigured, context));
    }
    let password = string_field(configs, &service.inbound, "obfs/password")?;
    let mut old: Vec<String> = Vec::new();
    old.push(password.clone());
    let clients = service.clients();
    let ghost first = strings_of(old@);
    assert(first =~= seq![password@]);
    client_obfs_list(configs, &clients, obfs_type, &mut old)?;
    assert(strings_of(old@) =~= strings_of(old@).take(1) + strings_of(old@).skip(1));
    Ok(ObfsPreflight { service: si, old })
}

/// Everything an obfs rotation checks before generating a password.
pub fn obfs_preflight_check(configs: &ConfigSet, inventory: &Inventory, input: &Input) -> (r: Result<ObfsPreflight, Error>)
    ensures
        match r {
            Ok(p) => obfs_preflight(*configs, inventory@, *input) == Ok::<(int, Seq<Seq<char>>), ErrorKind>(p@)
                && p.service < inventory.services@.len(),
            Err(e) => obfs_preflight(*configs, inventory@, *input) == Err::<(int, Seq<Seq<char>>), ErrorKind>(e.kind),
        },
{
    let si = one_service(configs, inventory, input, Some(Protocol::Hysteria2), false, Eligibility::Any)?;
    proof {
        crate::protocol::lemma_chosen_service_bounds(*configs, inventory@, *input, Some(Protocol::Hysteria2), false, Eligibility::Any);
    }
    let service = &inventory.services[si];
    assert(inventory@.services[si as int] == service@);
    obfs_check_at(configs, service, si)
}

/// The obfs rotation of one service to `replacement`, after its checks.
pub(crate) fn obfs_finish_at(configs: &ConfigSet, service: &ServiceBinding, pre: &ObfsPreflight, replacement: &String) -> (r: Result<RotationPlan, Error>)
    requires
        service_obfs_preflight(*configs, service@) == Ok::<Seq<Seq<char>>, ErrorKind>(pre@.1),
    ensures
        match r {
            Ok(p) => service_obfs_outcome(*configs, service@, replacement@) == Ok::<Seq<EditView>, ErrorKind>(p@)
                && p.operation == OperationKind::Rotate(RotationKind::Hysteria2ObfsPassword)
                && strings_of(p.contexts@) == seq![service_context(service@)],
            Err(e) => service_obfs_outcome(*configs, service@, replacement@) == Err::<Seq<EditView>, ErrorKind>(e.kind),
        },
{
    if replacement.unicode_len() == 0 {
        return Err(Error::plain(ErrorKind::EmptyGenerated));
    }
    if contains_string(&pre.old, replacement.as_str()) {
        return Err(Error::plain(ErrorKind::GeneratedUnchanged));
    }
    let clients = service.clients();
    let ghost cs = endpoints_view(clients@);
    let ghost reqs = obfs_requests(service@, replacement@);
    assert(service_obfs_outcome(*configs, service@, replacement@) == plan_edits(Seq::empty(), *configs, reqs, 0));
    let mut plan = service_plan(service, OperationKind::Rotate(RotationKind::Hysteria2ObfsPassword));
    let first = string_value(replacement);
    plan.edit(configs, service.inbound.field("obfs/password"), Some(first))?;
    let mut i: usize = 0;
    while i < clients.len()
        invariant
            reqs == obfs_requests(service@, replacement@),
            cs == endpoints_view(clients@),
            cs == service_clients(service@),
            i <= cs.len(),
            plan.operation == OperationKind::Rotate(RotationKind::Hysteria2ObfsPassword),
            strings_of(plan.contexts@) == seq![service_context(service@)],
            plan_edits(Seq::empty(), *configs, reqs, 0) == plan_edits(plan@, *configs, reqs, (i + 1) as nat),
            service_obfs_outcome(*configs, service@, replacement@) == plan_edits(Seq::empty(), *configs, reqs, 0),
        decreases cs.len() - i,
    {
        assert(reqs[i + 1] == (field_ref(cs[i as int], "obfs/password"@), string_json(replacement@)));
        assert(cs[i as int] == clients@[i as int]@);
        let value = string_value(replacement);
        plan.edit(configs, clients[i].field("obfs/password"), Some(value))?;
        i = i + 1;
    }
    Ok(plan)
}

fn obfs_finish(configs: &ConfigSet, inventory: &Inventory, input: &Input, pre: &ObfsPreflight, replacement: &String) -> (r: Result<RotationPlan, Error>)
    requires
        obfs_preflight(*configs, inventory@, *input) == Ok::<(int, Seq<Seq<char>>), ErrorKind>(pre@),
        pre.service < inventory.services@.len(),
    ensures
        match r {
            Ok(p) => obfs_outcome(*configs, inventory@, *input, replacement@) == Ok::<Seq<EditView>, ErrorKind>(p@)
                && p.operation == OperationKind::Rotate(RotationKind::Hysteria2ObfsPassword)
                && strings_of(p.contexts@) == seq![service_context(inventory@.services[pre@.0])],
            Err(e) => obfs_outcome(*configs, inventory@, *input, replacement@) == Err::<Seq<EditView>, ErrorKind>(e.kind),
        },
{
    let service = &inventory.services[pre.service];
    assert(inventory@.services[pre.service as int] == service@);
    obfs_finish_at(configs, service, pre, replacement)
}

/// An obfs rotation to the given password: the server's obfs password and that
/// of every bound client.
pub fn obfs_password_with(configs: &ConfigSet, inventory: &Inventory, input: &Input, replacement: &String) -> (r: Result<RotationPlan, Error>)
    ensures
        match r {
            Ok(p) => obfs_outcome(*configs, inventory@, *input, replacement@) == Ok::<Seq<EditView>, ErrorKind>(p@)
                && p.operation == OperationKind::Rotate(RotationKind::Hysteria2ObfsPassword)
                && obfs_context(*configs, inventory@, *input) == Some(strings_of(p.contexts@)),
            Err(e) => obfs_outcome(*configs, inventory@, *input, replacement@) == Err::<Seq<EditView>, ErrorKind>(e.kind),
        },
{
    let pre = obfs_preflight_check(configs, inventory, input)?;
    obfs_finish(configs, inventory, input, &pre, replacement)
}

/// Rotates the obfs password shared by the one selected Hysteria2 service and its
/// bound clients. Every check that does not need the new password runs before
/// the generator is called.
pub fn obfs_password<S: SingBox>(configs: &ConfigSet, inventory: &Inventory, input: &Input, singbox: &S) -> (r: Result<RotationPlan, Error>)
    ensures
        obfs_preflight(*configs, inventory@, *input) matches Err(k) ==> (r matches Err(e) && e.kind == k),
        r matches Err(e) ==> (obfs_preflight(*configs, inventory@, *input) matches Err(k) && e.kind == k)
            || (obfs_preflight(*configs, inventory@, *input) is Ok && (generator_failure(e.kind)
                || exists|v: Seq<char>| obfs_outcome(*configs, inventory@, *input, v) == Err::<Seq<EditView>, ErrorKind>(e.kind))),
        r matches Ok(p) ==> p.operation == OperationKind::Rotate(RotationKind::Hysteria2ObfsPassword)
            && obfs_context(*configs, inventory@, *input) == Some(strings_of(p.contexts@))
            && exists|v: Seq<char>| base64_text(v, PASSWORD_BYTES as nat)
                && obfs_outcome(*configs, inventory@, *input, v) == Ok::<Seq<EditView>, ErrorKind>(p@),
{
    let pre = obfs_preflight_check(configs, inventory, input)?;
    let replacement = singbox.generate_random_base64(PASSWORD_BYTES)?;
    let r = obfs_finish(configs, inventory, input, &pre, &replacement);
    assert(r matches Err(e) ==> obfs_outcome(*configs, inventory@, *input, replacement@) == Err::<Seq<EditView>, ErrorKind>(e.kind));
    assert(r matches Ok(p) ==> base64_text(replacement@, PASSWORD_BYTES as nat)
        && obfs_outcome(*configs, inventory@, *input, replacement@) == Ok::<Seq<EditView>, ErrorKind>(p@));
    r
}

} // verus!
