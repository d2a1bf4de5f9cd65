//! Type-driven rotation: every kind of material of one protocol, or one kind of
//! it, over every service that has it, planned as one change. User credentials
//! rotate as in an identity rotation; each eligible service then contributes its
//! own Reality keypair and short IDs, or its obfs password, each generated for
//! that service alone.
use vstd::prelude::*;
use crate::binding::{EndpointView, Inventory, InventoryView, ServiceBinding, ServiceView, has_ambiguity};
use crate::cli::{IdentityKind, Input, Protocol, RotationKind, RotationMaterial, rotation_of_identity};
use crate::config::{ConfigSet, strings_of};
use crate::error::{Error, ErrorKind};
use crate::plan::{EditView, OperationKind, RotationPlan, credential_text, identities_contexts, identities_outcome, identities_with};
use crate::protocol::{Eligibility, candidate, is_candidate, service_context, service_context_line, string_at, string_field};
use crate::protocol::hysteria2::{ObfsPreflight, obfs_check_at, obfs_finish_at, service_obfs_outcome, service_obfs_preflight};
use crate::protocol::vless::{KeypairPreflight, ShortIdPreflight, ShortIdSplit, keypair_check_at, keypair_finish_at,
    service_keypair_outcome, service_keypair_preflight, service_short_id_preflight, service_short_ids_outcome,
    short_id_check_at, short_ids_finish_at, short_ids_made};
use crate::inspect::narrowed;
use crate::json::JsonView;
use crate::singbox::{PASSWORD_BYTES, RealityKeyPair, SHORT_ID_BYTES, SingBox, base64_text, generator_failure, hex_text};

verus! {

/// A type-driven rotation of `protocol`, limited to `only` when given, rotates
/// the material of `kind`.
pub open spec fn rotates(protocol: Protocol, only: Option<RotationMaterial>, kind: RotationKind) -> bool {
    kind.spec_protocol() == protocol && (only matches Some(m) ==> m.spec_kind() == kind)
}

/// Material shared by a whole service, for which client selectors are refused:
/// all material together, the Reality keypair and the obfs password.
pub open spec fn service_wide(only: Option<RotationMaterial>) -> bool {
    match only {
        None => true,
        Some(RotationMaterial::RealityKeypair) => true,
        Some(RotationMaterial::ObfsPassword) => true,
        _ => false,
    }
}

/// The user credentials of a protocol.
pub open spec fn identity_of(protocol: Protocol) -> IdentityKind {
    match protocol {
        Protocol::Vless => IdentityKind::VlessUuid,
        Protocol::Hysteria2 => IdentityKind::Hysteria2Password,
    }
}

/// obfs is configured on the service's inbound: its obfs type is a nonempty string.
pub open spec fn obfs_configured(configs: ConfigSet, svc: ServiceView) -> bool {
    string_at(configs, svc.inbound, "obfs/type"@) matches Ok(t) && t.len() > 0
}

/// The service contributes its Reality keypair: it has Reality on the inbound and
/// on a bound client.
pub open spec fn keypair_step(configs: ConfigSet, input: Input, protocol: Protocol, only: Option<RotationMaterial>, svc: ServiceView) -> bool {
    rotates(protocol, only, RotationKind::VlessRealityKeypair)
        && candidate(configs, input, svc, Some(Protocol::Vless), false, Eligibility::RealityClients)
}

/// The service contributes short IDs: it has Reality on the inbound and on a
/// selected bound client.
pub open spec fn short_id_step(configs: ConfigSet, input: Input, protocol: Protocol, only: Option<RotationMaterial>, svc: ServiceView) -> bool {
    rotates(protocol, only, RotationKind::VlessRealityShortId)
        && candidate(configs, input, svc, Some(Protocol::Vless), true, Eligibility::SelectedRealityClients)
}

/// The service contributes its obfs password: obfs is configured and a client is bound.
pub open spec fn obfs_step(configs: ConfigSet, input: Input, protocol: Protocol, only: Option<RotationMaterial>, svc: ServiceView) -> bool {
    rotates(protocol, only, RotationKind::Hysteria2ObfsPassword)
        && candidate(configs, input, svc, Some(Protocol::Hysteria2), false, Eligibility::Any)
        && obfs_configured(configs, svc)
}

/// One check: nothing when the step does not apply, else the step's own checks.
pub open spec fn step_check<T>(active: bool, r: Result<T, ErrorKind>) -> Result<nat, ErrorKind> {
    if !active {
        Ok(0)
    } else {
        match r {
            Err(e) => Err(e),
            Ok(_) => Ok(1),
        }
    }
}

/// What a service's steps check before generating, in order (keypair, short IDs,
/// obfs): the number of its steps, or the first failure.
pub open spec fn service_checks(configs: ConfigSet, input: Input, protocol: Protocol, only: Option<RotationMaterial>, svc: ServiceView)
    -> Result<nat, ErrorKind> {
    match step_check(keypair_step(configs, input, protocol, only, svc), service_keypair_preflight(configs, svc)) {
        Err(e) => Err(e),
        Ok(a) => match step_check(short_id_step(configs, input, protocol, only, svc), service_short_id_preflight(configs, input, svc)) {
            Err(e) => Err(e),
            Ok(b) => match step_check(obfs_step(configs, input, protocol, only, svc), service_obfs_preflight(configs, svc)) {
                Err(e) => Err(e),
                Ok(c) => Ok(a + b + c),
            },
        },
    }
}

/// The checks of the first `k` services: the number of their steps, or the first failure.
pub open spec fn material_checks(configs: ConfigSet, inv: InventoryView, input: Input, protocol: Protocol, only: Option<RotationMaterial>, k: nat)
    -> Result<nat, ErrorKind>
    decreases k,
{
    if k == 0 {
        Ok(0)
    } else {
        match material_checks(configs, inv, input, protocol, only, (k - 1) as nat) {
            Err(e) => Err(e),
            Ok(n) => if k > inv.services.len() {
                Ok(n)
            } else {
                match service_checks(configs, input, protocol, only, inv.services[k - 1]) {
                    Err(e) => Err(e),
                    Ok(m) => Ok(n + m),
                }
            },
        }
    }
}

/// Why a type-driven rotation is refused before anything is generated: material
/// of another protocol, client selectors for service-wide material, an ambiguous
/// binding, a failed check of some service, (for one kind of service material)
/// no service that has it, or (when user credentials rotate) no selected identity.
pub open spec fn material_refusal(configs: ConfigSet, inv: InventoryView, input: Input, protocol: Protocol, only: Option<RotationMaterial>)
    -> Option<ErrorKind> {
    if only matches Some(m) && m.spec_kind().spec_protocol() != protocol {
        Some(ErrorKind::ProtocolMismatch)
    } else if service_wide(only) && narrowed(input) {
        Some(ErrorKind::ServiceWideSelectors)
    } else if has_ambiguity(inv, protocol) {
        Some(ErrorKind::Ambiguous)
    } else {
        match material_checks(configs, inv, input, protocol, only, inv.services.len()) {
            Err(e) => Some(e),
            Ok(n) => if only matches Some(m) && m.spec_kind().spec_identity() is None && n == 0 {
                Some(ErrorKind::NoMatchingService)
            } else if rotates(protocol, only, rotation_of_identity(identity_of(protocol))) {
                match identities_outcome(configs, inv, input, identity_of(protocol), Seq::empty()) {
                    Err(k) => if k == ErrorKind::Generator { None } else { Some(k) },
                    Ok(_) => None,
                }
            } else {
                None
            },
        }
    }
}

/// The generated values a type-driven rotation uses, each kind in order: user
/// credentials, Reality keypairs (one per service), short IDs (one per selected
/// client) and obfs passwords (one per service).
pub struct MaterialValues {
    pub credentials: Vec<String>,
    pub keypairs: Vec<RealityKeyPair>,
    pub short_ids: Vec<String>,
    pub obfs_passwords: Vec<String>,
}

pub struct MaterialValuesView {
    pub credentials: Seq<Seq<char>>,
    pub keypairs: Seq<(Seq<char>, Seq<char>)>,
    pub short_ids: Seq<Seq<char>>,
    pub obfs_passwords: Seq<Seq<char>>,
}

pub open spec fn keypairs_view(v: Seq<RealityKeyPair>) -> Seq<(Seq<char>, Seq<char>)> {
    v.map_values(|k: RealityKeyPair| (k.private_key@, k.public_key@))
}

/// Generated values of the forms sing-box promises: credentials of the
/// protocol's kind, short IDs of `SHORT_ID_BYTES` and obfs passwords of
/// `PASSWORD_BYTES` random bytes.
pub open spec fn values_form(protocol: Protocol, vals: MaterialValuesView) -> bool {
    &&& forall|i: int| 0 <= i < vals.credentials.len() ==> credential_text(identity_of(protocol), #[trigger] vals.credentials[i])
    &&& forall|i: int| 0 <= i < vals.short_ids.len() ==> hex_text(#[trigger] vals.short_ids[i], SHORT_ID_BYTES as nat)
    &&& forall|i: int| 0 <= i < vals.obfs_passwords.len() ==> base64_text(#[trigger] vals.obfs_passwords[i], PASSWORD_BYTES as nat)
}

impl MaterialValues {
    pub open spec fn view(&self) -> MaterialValuesView {
        MaterialValuesView {
            credentials: strings_of(self.credentials@),
            keypairs: keypairs_view(self.keypairs@),
            short_ids: strings_of(self.short_ids@),
            obfs_passwords: strings_of(self.obfs_passwords@),
        }
    }
}

/// The edits so far, and how many values of each kind they used.
pub struct MaterialState {
    pub edits: Seq<EditView>,
    pub keypairs: nat,
    pub short_ids: nat,
    pub obfs: nat,
}

/// The keypair step of one service, with the next generated keypair.
pub open spec fn keypair_part(configs: ConfigSet, svc: ServiceView, vals: MaterialValuesView, st: MaterialState)
    -> Result<MaterialState, ErrorKind> {
    if st.keypairs >= vals.keypairs.len() {
        Err(ErrorKind::Generator)
    } else {
        let (private, public) = vals.keypairs[st.keypairs as int];
        match service_keypair_outcome(configs, svc, private, public) {
            Err(e) => Err(e),
            Ok(edits) => Ok(MaterialState { edits: st.edits + edits, keypairs: st.keypairs + 1, ..st }),
        }
    }
}

/// The short-ID step of one service, with the next generated values, one per
/// selected client.
pub open spec fn short_id_part(configs: ConfigSet, input: Input, svc: ServiceView, vals: MaterialValuesView, st: MaterialState)
    -> Result<MaterialState, ErrorKind> {
    if st.short_ids > vals.short_ids.len() {
        Err(ErrorKind::Generator)
    } else {
        match service_short_id_preflight(configs, input, svc) {
            Err(e) => Err(e),
            Ok((_, _, split)) => match service_short_ids_outcome(configs, input, svc, vals.short_ids.skip(st.short_ids as int)) {
                Err(e) => Err(e),
                Ok(edits) => Ok(MaterialState { edits: st.edits + edits, short_ids: st.short_ids + split.selected.len(), ..st }),
            },
        }
    }
}

/// The obfs step of one service, with the next generated password.
pub open spec fn obfs_part(configs: ConfigSet, svc: ServiceView, vals: MaterialValuesView, st: MaterialState)
    -> Result<MaterialState, ErrorKind> {
    if st.obfs >= vals.obfs_passwords.len() {
        Err(ErrorKind::Generator)
    } else {
        match service_obfs_outcome(configs, svc, vals.obfs_passwords[st.obfs as int]) {
            Err(e) => Err(e),
            Ok(edits) => Ok(MaterialState { edits: st.edits + edits, obfs: st.obfs + 1, ..st }),
        }
    }
}

/// One service's steps, in order.
#[verifier::opaque]
pub open spec fn service_part(configs: ConfigSet, input: Input, protocol: Protocol, only: Option<RotationMaterial>, svc: ServiceView,
    vals: MaterialValuesView, st: MaterialState) -> Result<MaterialState, ErrorKind> {
    let a = if keypair_step(configs, input, protocol, only, svc) { keypair_part(configs, svc, vals, st) } else { Ok(st) };
    match a {
        Err(e) => Err(e),
        Ok(st1) => {
            let b = if short_id_step(configs, input, protocol, only, svc) { short_id_part(configs, input, svc, vals, st1) } else { Ok(st1) };
            match b {
                Err(e) => Err(e),
                Ok(st2) => if obfs_step(configs, input, protocol, only, svc) { obfs_part(configs, svc, vals, st2) } else { Ok(st2) },
            }
        },
    }
}

/// The steps of the first `k` services.
pub open spec fn material_parts(configs: ConfigSet, inv: InventoryView, input: Input, protocol: Protocol, only: Option<RotationMaterial>,
    vals: MaterialValuesView, init: MaterialState, k: nat) -> Result<MaterialState, ErrorKind>
    decreases k,
{
    if k == 0 {
        Ok(init)
    } else {
        match material_parts(configs, inv, input, protocol, only, vals, init, (k - 1) as nat) {
            Err(e) => Err(e),
            Ok(prev) => if k > inv.services.len() {
                Ok(prev)
            } else {
                service_part(configs, input, protocol, only, inv.services[k - 1], vals, prev)
            },
        }
    }
}

/// A type-driven rotation given the generated values: unless refused, the user
/// credentials (when rotated) as in an identity rotation, then the steps of each
/// service in order.
pub open spec fn material_outcome(configs: ConfigSet, inv: InventoryView, input: Input, protocol: Protocol, only: Option<RotationMaterial>,
    vals: MaterialValuesView) -> Result<Seq<EditView>, ErrorKind> {
    match material_refusal(configs, inv, input, protocol, only) {
        Some(e) => Err(e),
        None => {
            let users = if rotates(protocol, only, rotation_of_identity(identity_of(protocol))) {
                identities_outcome(configs, inv, input, identity_of(protocol), vals.credentials)
            } else {
                Ok(Seq::empty())
            };
            match users {
                Err(e) => Err(e),
                Ok(edits) => match material_parts(configs, inv, input, protocol, only, vals,
                    MaterialState { edits, keypairs: 0, short_ids: 0, obfs: 0 }, inv.services.len()) {
                    Err(e) => Err(e),
                    Ok(st) => Ok(st.edits),
                },
            }
        },
    }
}

/// The context lines of the services with a step among the first `k`.
pub open spec fn part_contexts(configs: ConfigSet, inv: InventoryView, input: Input, protocol: Protocol, only: Option<RotationMaterial>, k: nat)
    -> Seq<Seq<char>>
    decreases k,
{
    if k == 0 {
        Seq::empty()
    } else {
        let prev = part_contexts(configs, inv, input, protocol, only, (k - 1) as nat);
        if k <= inv.services.len() && has_step(configs, input, protocol, only, inv.services[k - 1]) {
            prev.push(service_context(inv.services[k - 1]))
        } else {
            prev
        }
    }
}

#[verifier::opaque]
pub open spec fn has_step(configs: ConfigSet, input: Input, protocol: Protocol, only: Option<RotationMaterial>, svc: ServiceView) -> bool {
    keypair_step(configs, input, protocol, only, svc) || short_id_step(configs, input, protocol, only, svc)
        || obfs_step(configs, input, protocol, only, svc)
}

/// The context lines of a type-driven rotation: the rotated identities', then one
/// per service with a step.
pub open spec fn material_contexts(configs: ConfigSet, inv: InventoryView, input: Input, protocol: Protocol, only: Option<RotationMaterial>)
    -> Seq<Seq<char>> {
    (if rotates(protocol, only, rotation_of_identity(identity_of(protocol))) {
        identities_contexts(configs, inv, input, identity_of(protocol))
    } else {
        Seq::empty()
    }) + part_contexts(configs, inv, input, protocol, only, inv.services.len())
}


proof fn lemma_material_checks_err(configs: ConfigSet, inv: InventoryView, input: Input, protocol: Protocol, only: Option<RotationMaterial>,
    k: nat, m: nat)
    requires
        k <= m,
        material_checks(configs, inv, input, protocol, only, k) is Err,
    ensures
        material_checks(configs, inv, input, protocol, only, m) == material_checks(configs, inv, input, protocol, only, k),
    decreases m - k,
{
    if k < m {
        lemma_material_checks_err(configs, inv, input, protocol, only, k, (m - 1) as nat);
    }
}

/// What the steps of one service checked before generating.
pub struct ServiceChecks {
    pub keypair: Option<KeypairPreflight>,
    pub short_ids: Option<ShortIdPreflight>,
    pub obfs: Option<ObfsPreflight>,
}

pub open spec fn checks_count(c: ServiceChecks) -> nat {
    (if c.keypair is Some { 1nat } else { 0nat }) + (if c.short_ids is Some { 1nat } else { 0nat })
        + (if c.obfs is Some { 1nat } else { 0nat })
}

/// `c` holds the checks of `svc`: a step's check is there exactly when the step
/// applies, with what its preflight gives.
#[verifier::opaque]
pub open spec fn checks_of(configs: ConfigSet, input: Input, protocol: Protocol, only: Option<RotationMaterial>, svc: ServiceView,
    c: ServiceChecks) -> bool {
    &&& (c.keypair is Some <==> keypair_step(configs, input, protocol, only, svc))
    &&& (c.keypair matches Some(p) ==> service_keypair_preflight(configs, svc)
            == Ok::<(Seq<char>, Seq<EndpointView>, Seq<Seq<char>>), ErrorKind>((p@.1, p@.2, p@.3)))
    &&& (c.short_ids is Some <==> short_id_step(configs, input, protocol, only, svc))
    &&& (c.short_ids matches Some(p) ==> service_short_id_preflight(configs, input, svc)
            == Ok::<(Seq<JsonView>, Seq<Seq<char>>, ShortIdSplit), ErrorKind>((p@.1, p@.2, p@.3)))
    &&& (c.obfs is Some <==> obfs_step(configs, input, protocol, only, svc))
    &&& (c.obfs matches Some(p) ==> service_obfs_preflight(configs, svc) == Ok::<Seq<Seq<char>>, ErrorKind>(p@.1))
}

fn rotates_kind(protocol: Protocol, only: Option<RotationMaterial>, kind: RotationKind) -> (r: bool)
    ensures
        r == rotates(protocol, only, kind),
{
    kind.protocol() == protocol && match only {
        Some(m) => m.kind() == kind,
        None => true,
    }
}

fn obfs_is_configured(configs: &ConfigSet, service: &ServiceBinding) -> (r: bool)
    ensures
        r == obfs_configured(*configs, service@),
{
    match string_field(configs, &service.inbound, "obfs/type") {
        Ok(t) => t.unicode_len() > 0,
        Err(_) => false,
    }
}

/// The checks of one service's steps.
fn service_checks_at(configs: &ConfigSet, input: &Input, protocol: Protocol, only: Option<RotationMaterial>, service: &ServiceBinding,
    si: usize) -> (r: Result<ServiceChecks, Error>)
    ensures
        match r {
            Ok(c) => service_checks(*configs, *input, protocol, only, service@) == Ok::<nat, ErrorKind>(checks_count(c))
                && checks_of(*configs, *input, protocol, only, service@, c),
            Err(e) => service_checks(*configs, *input, protocol, only, service@) == Err::<nat, ErrorKind>(e.kind),
        },
{
    reveal(checks_of);
    let keypair = if rotates_kind(protocol, only, RotationKind::VlessRealityKeypair)
        && is_candidate(configs, input, service, Some(Protocol::Vless), false, Eligibility::RealityClients) {
        match keypair_check_at(configs, service, si) {
            Ok(p) => Some(p),
            Err(e) => {
                return Err(e);
            },
        }
    } else {
        None
    };
    let short_ids = if rotates_kind(protocol, only, RotationKind::VlessRealityShortId)
        && is_candidate(configs, input, service, Some(Protocol::Vless), true, Eligibility::SelectedRealityClients) {
        match short_id_check_at(configs, input, service, si) {
            Ok(p) => Some(p),
            Err(e) => {
                return Err(e);
            },
        }
    } else {
        None
    };
    let obfs = if rotates_kind(protocol, only, RotationKind::Hysteria2ObfsPassword)
        && is_candidate(configs, input, service, Some(Protocol::Hysteria2), false, Eligibility::Any)
        && obfs_is_configured(configs, service) {
        match obfs_check_at(configs, service, si) {
            Ok(p) => Some(p),
            Err(e) => {
                return Err(e);
            },
        }
    } else {
        None
    };
    Ok(ServiceChecks { keypair, short_ids, obfs })
}

/// Everything a type-driven rotation checks before generating: the checks of
/// every service, in order.
#[verifier::rlimit(40)]
pub fn material_checks_all(configs: &ConfigSet, inventory: &Inventory, input: &Input, protocol: Protocol, only: Option<RotationMaterial>)
    -> (r: Result<Vec<ServiceChecks>, Error>)
    ensures
        match r {
            Ok(v) => material_refusal(*configs, inventory@, *input, protocol, only) is None
                && v@.len() == inventory@.services.len()
                && forall|k: int| 0 <= k < v@.len() ==> checks_of(*configs, *input, protocol, only, inventory@.services[k], #[trigger] v@[k]),
            Err(e) => material_refusal(*configs, inventory@, *input, protocol, only) == Some(e.kind),
        },
{
    match only {
        Some(m) => {
            if m.kind().protocol() != protocol {
                return Err(Error::plain(ErrorKind::ProtocolMismatch));
            }
        },
        None => {},
    }
    let wide = match only {
        None => true,
        Some(RotationMaterial::RealityKeypair) => true,
        Some(RotationMaterial::ObfsPassword) => true,
        _ => false,
    };
    if wide && (input.client.len() > 0 || input.client_tag.len() > 0) {
        return Err(Error::plain(ErrorKind::ServiceWideSelectors));
    }
    inventory.ensure_unambiguous(protocol)?;
    let ghost svcs = inventory@.services;
    let ghost mut n: nat = 0;
    let mut found = false;
    let mut out: Vec<ServiceChecks> = Vec::new();
    let mut k: usize = 0;
    while k < inventory.services.len()
        invariant
            svcs == inventory@.services,
            !has_ambiguity(inventory@, protocol),
            !(service_wide(only) && narrowed(*input)),
            !(only matches Some(m) && m.spec_kind().spec_protocol() != protocol),
            k <= svcs.len(),
            out@.len() == k,
            material_checks(*configs, inventory@, *input, protocol, only, k as nat) == Ok::<nat, ErrorKind>(n),
            found <==> n > 0,
            forall|j: int| 0 <= j < k ==> checks_of(*configs, *input, protocol, only, svcs[j], #[trigger] out@[j]),
        decreases svcs.len() - k,
    {
        let service = &inventory.services[k];
        assert(svcs[k as int] == service@);
        let c = match service_checks_at(configs, input, protocol, only, service, k) {
            Ok(c) => c,
            Err(e) => {
                proof {
                    lemma_material_checks_err(*configs, inventory@, *input, protocol, only, (k + 1) as nat, svcs.len());
                }
                return Err(e);
            },
        };
        let some = c.keypair.is_some() || c.short_ids.is_some() || c.obfs.is_some();
        proof {
            n = n + checks_count(c);
        }
        found = found || some;
        let ghost before = out@;
        out.push(c);
        assert forall|j: int| 0 <= j < k + 1 implies checks_of(*configs, *input, protocol, only, svcs[j], #[trigger] out@[j]) by {
            if j < k {
                assert(out@[j] == before[j]);
            }
        }
        k = k + 1;
    }
    let service_only = match only {
        Some(m) => m.kind().identity().is_none(),
        None => false,
    };
    if service_only && !found {
        return Err(Error::plain(ErrorKind::NoMatchingService));
    }
    let kind = match protocol {
        Protocol::Vless => IdentityKind::VlessUuid,
        Protocol::Hysteria2 => IdentityKind::Hysteria2Password,
    };
    assert(kind == identity_of(protocol));
    if rotates_kind(protocol, only, RotationKind::from(kind)) {
        let none: Vec<String> = Vec::new();
        assert(strings_of(none@) =~= Seq::<Seq<char>>::empty());
        match identities_with(configs, inventory, input, kind, &none) {
            Ok(_) => {},
            Err(e) => {
                if e.kind != ErrorKind::Generator {
                    return Err(e);
                }
            },
        }
    }
    Ok(out)
}

proof fn lemma_material_parts_err(configs: ConfigSet, inv: InventoryView, input: Input, protocol: Protocol, only: Option<RotationMaterial>,
    vals: MaterialValuesView, init: MaterialState, k: nat, m: nat)
    requires
        k <= m,
        material_parts(configs, inv, input, protocol, only, vals, init, k) is Err,
    ensures
        material_parts(configs, inv, input, protocol, only, vals, init, m) == material_parts(configs, inv, input, protocol, only, vals, init, k),
    decreases m - k,
{
    if k < m {
        lemma_material_parts_err(configs, inv, input, protocol, only, vals, init, k, (m - 1) as nat);
    }
}

proof fn lemma_new_short_ids_len(accepted: Seq<Seq<char>>, gens: Seq<Seq<char>>, n: nat)
    requires
        crate::protocol::vless::new_short_ids(accepted, gens, n) is Ok,
    ensures
        n <= gens.len(),
    decreases n,
{
    if n > 0 {
        lemma_new_short_ids_len(accepted, gens, (n - 1) as nat);
    }
}

/// Appends the edits of `sub` to `plan`.
fn append_edits(plan: &mut RotationPlan, sub: RotationPlan)
    ensures
        final(plan)@ == old(plan)@ + sub@,
        final(plan).operation == old(plan).operation,
        final(plan).contexts == old(plan).contexts,
{
    let ghost before = plan@;
    let mut edits = sub.edits;
    let ghost added = crate::plan::edits_view(edits@);
    plan.edits.append(&mut edits);
    assert(plan@ =~= before + added);
}

pub open spec fn state_at(edits: Seq<EditView>, kp: usize, sid: usize, ob: usize) -> MaterialState {
    MaterialState { edits, keypairs: kp as nat, short_ids: sid as nat, obfs: ob as nat }
}

/// The steps of one service with the generated values, after its checks.
fn service_part_with(configs: &ConfigSet, input: &Input, protocol: Protocol, only: Option<RotationMaterial>, service: &ServiceBinding,
    c: &ServiceChecks, values: &MaterialValues, plan: &mut RotationPlan, kp: &mut usize, sid: &mut usize, ob: &mut usize)
    -> (r: Result<(), Error>)
    requires
        checks_of(*configs, *input, protocol, only, service@, *c),
        *old(sid) <= values.short_ids@.len(),
    ensures
        final(plan).operation == old(plan).operation,
        *final(sid) <= values.short_ids@.len(),
        match r {
            Ok(()) => service_part(*configs, *input, protocol, only, service@, values@, state_at(old(plan)@, *old(kp), *old(sid), *old(ob)))
                    == Ok::<MaterialState, ErrorKind>(state_at(final(plan)@, *final(kp), *final(sid), *final(ob)))
                && strings_of(final(plan).contexts@) == strings_of(old(plan).contexts@)
                    + (if has_step(*configs, *input, protocol, only, service@) { seq![service_context(service@)] } else { Seq::empty() }),
            Err(e) => service_part(*configs, *input, protocol, only, service@, values@, state_at(old(plan)@, *old(kp), *old(sid), *old(ob)))
                == Err::<MaterialState, ErrorKind>(e.kind),
        },
{
    reveal(service_part);
    reveal(checks_of);
    reveal(has_step);
    let ghost vals = values@;
    let ghost ctx0 = strings_of(plan.contexts@);
    let ghost st0 = state_at(plan@, *kp, *sid, *ob);
    if c.keypair.is_some() || c.short_ids.is_some() || c.obfs.is_some() {
        let line = service_context_line(service);
        plan.contexts.push(line);
    }
    assert(strings_of(plan.contexts@) =~= ctx0
        + (if has_step(*configs, *input, protocol, only, service@) { seq![service_context(service@)] } else { Seq::empty() }));
    let ghost ctx1 = strings_of(plan.contexts@);
    match &c.keypair {
        Some(pre) => {
            if *kp >= values.keypairs.len() {
                return Err(Error::plain(ErrorKind::Generator));
            }
            let keys = &values.keypairs[*kp];
            assert(vals.keypairs[*kp as int] == (keys.private_key@, keys.public_key@));
            let sub = keypair_finish_at(configs, service, pre, keys)?;
            append_edits(plan, sub);
            *kp = *kp + 1;
        },
        None => {},
    }
    let ghost st1 = state_at(plan@, *kp, *sid, *ob);
    assert((if keypair_step(*configs, *input, protocol, only, service@) { keypair_part(*configs, service@, vals, st0) } else { Ok(st0) })
        == Ok::<MaterialState, ErrorKind>(st1));
    match &c.short_ids {
        Some(pre) => {
            let total = values.short_ids.len();
            let made = short_ids_made(pre, &values.short_ids, *sid)?;
            let sub = short_ids_finish_at(configs, input, service, pre, &made)?;
            append_edits(plan, sub);
            proof {
                lemma_new_short_ids_len(strings_of(pre.accepted@), strings_of(values.short_ids@).skip(*sid as int), pre.selected@.len());
                assert(strings_of(values.short_ids@).skip(*sid as int).len() == values.short_ids@.len() - *sid);
            }
            assert(pre.split().selected.len() == pre.selected@.len());
            *sid = *sid + pre.selected.len();
        },
        None => {},
    }
    let ghost st2 = state_at(plan@, *kp, *sid, *ob);
    assert((if short_id_step(*configs, *input, protocol, only, service@) { short_id_part(*configs, *input, service@, vals, st1) } else { Ok(st1) })
        == Ok::<MaterialState, ErrorKind>(st2));
    match &c.obfs {
        Some(pre) => {
            if *ob >= values.obfs_passwords.len() {
                return Err(Error::plain(ErrorKind::Generator));
            }
            let v = &values.obfs_passwords[*ob];
            assert(vals.obfs_passwords[*ob as int] == v@);
            let sub = obfs_finish_at(configs, service, pre, v)?;
            append_edits(plan, sub);
            *ob = *ob + 1;
        },
        None => {},
    }
    assert(strings_of(plan.contexts@) == ctx1);
    Ok(())
}

/// A type-driven rotation of `protocol` with the given generated values: the
/// user credentials of the protocol as in `identities_with` (unless `only`
/// names other material), then, service by service, its Reality keypair and
/// short IDs or its obfs password where the service has them. `only` limits the
/// rotation to one kind of material.
pub fn rotation_by_type_with(configs: &ConfigSet, inventory: &Inventory, input: &Input, protocol: Protocol,
    only: Option<RotationMaterial>, values: &MaterialValues) -> (r: Result<RotationPlan, Error>)
    ensures
        match r {
            Ok(p) => material_outcome(*configs, inventory@, *input, protocol, only, values@) == Ok::<Seq<EditView>, ErrorKind>(p@)
                && p.operation == OperationKind::Material(protocol)
                && strings_of(p.contexts@) == material_contexts(*configs, inventory@, *input, protocol, only),
            Err(e) => material_outcome(*configs, inventory@, *input, protocol, only, values@) == Err::<Seq<EditView>, ErrorKind>(e.kind),
        },
{
    let checks = material_checks_all(configs, inventory, input, protocol, only)?;
    let kind = match protocol {
        Protocol::Vless => IdentityKind::VlessUuid,
        Protocol::Hysteria2 => IdentityKind::Hysteria2Password,
    };
    assert(kind == identity_of(protocol));
    let mut plan = RotationPlan::new(OperationKind::Material(protocol));
    assert(strings_of(plan.contexts@) =~= Seq::<Seq<char>>::empty());
    if rotates_kind(protocol, only, RotationKind::from(kind)) {
        let users = identities_with(configs, inventory, input, kind, &values.credentials)?;
        plan = RotationPlan { operation: OperationKind::Material(protocol), edits: users.edits, contexts: users.contexts };
    }
    let ghost vals = values@;
    let ghost init = state_at(plan@, 0, 0, 0);
    let ghost ctx0 = strings_of(plan.contexts@);
    let ghost svcs = inventory@.services;
    let mut kp: usize = 0;
    let mut sid: usize = 0;
    let mut ob: usize = 0;
    let mut k: usize = 0;
    while k < inventory.services.len()
        invariant
            svcs == inventory@.services,
            vals == values@,
            material_refusal(*configs, inventory@, *input, protocol, only) is None,
            (if rotates(protocol, only, rotation_of_identity(identity_of(protocol))) {
                identities_outcome(*configs, inventory@, *input, identity_of(protocol), vals.credentials)
            } else {
                Ok(Seq::empty())
            }) == Ok::<Seq<EditView>, ErrorKind>(init.edits),
            init == state_at(init.edits, 0, 0, 0),
            checks@.len() == svcs.len(),
            forall|j: int| 0 <= j < checks@.len() ==> checks_of(*configs, *input, protocol, only, svcs[j], #[trigger] checks@[j]),
            k <= svcs.len(),
            sid <= values.short_ids@.len(),
            plan.operation == OperationKind::Material(protocol),
            material_parts(*configs, inventory@, *input, protocol, only, vals, init, k as nat)
                == Ok::<MaterialState, ErrorKind>(state_at(plan@, kp, sid, ob)),
            strings_of(plan.contexts@) == ctx0 + part_contexts(*configs, inventory@, *input, protocol, only, k as nat),
        decreases svcs.len() - k,
    {
        let service = &inventory.services[k];
        assert(svcs[k as int] == service@);
        match service_part_with(configs, input, protocol, only, service, &checks[k], values, &mut plan, &mut kp, &mut sid, &mut ob) {
            Ok(()) => {},
            Err(e) => {
                proof {
                    lemma_material_parts_err(*configs, inventory@, *input, protocol, only, vals, init, (k + 1) as nat, svcs.len());
                }
                return Err(e);
            },
        }
        assert(strings_of(plan.contexts@) =~= ctx0 + part_contexts(*configs, inventory@, *input, protocol, only, (k + 1) as nat));
        k = k + 1;
    }
    Ok(plan)
}

/// Rotates the material of `protocol` (all of it, or the one kind `only`) on
/// every service that has it, as one plan: fresh user credentials for every
/// selected identity, and per service a fresh Reality keypair and short IDs, or
/// a fresh obfs password. Everything that does not need the new values is
/// checked before sing-box generates any.
pub fn rotation_by_type<S: SingBox>(configs: &ConfigSet, inventory: &Inventory, input: &Input, protocol: Protocol,
    only: Option<RotationMaterial>, singbox: &S) -> (r: Result<RotationPlan, Error>)
    ensures
        material_refusal(*configs, inventory@, *input, protocol, only) matches Some(k) ==> (r matches Err(e) && e.kind == k),
        r matches Err(e) ==> (material_refusal(*configs, inventory@, *input, protocol, only) matches Some(k) && e.kind == k)
            || (material_refusal(*configs, inventory@, *input, protocol, only) is None && (generator_failure(e.kind)
                || exists|vals: MaterialValuesView|
                    material_outcome(*configs, inventory@, *input, protocol, only, vals) == Err::<Seq<EditView>, ErrorKind>(e.kind))),
        r matches Ok(p) ==> p.operation == OperationKind::Material(protocol)
            && strings_of(p.contexts@) == material_contexts(*configs, inventory@, *input, protocol, only)
            && exists|vals: MaterialValuesView| values_form(protocol, vals)
                && material_outcome(*configs, inventory@, *input, protocol, only, vals) == Ok::<Seq<EditView>, ErrorKind>(p@),
{
    let checks = material_checks_all(configs, inventory, input, protocol, only)?;
    let kind = match protocol {
        Protocol::Vless => IdentityKind::VlessUuid,
        Protocol::Hysteria2 => IdentityKind::Hysteria2Password,
    };
    assert(kind == identity_of(protocol));
    let mut credentials: Vec<String> = Vec::new();
    if rotates_kind(protocol, only, RotationKind::from(kind)) {
        let mut s: usize = 0;
        while s < inventory.services.len()
            invariant
                material_refusal(*configs, inventory@, *input, protocol, only) is None,
                kind == identity_of(protocol),
                forall|i: int| 0 <= i < credentials@.len() ==> credential_text(kind, #[trigger] credentials@[i]@),
            decreases inventory.services@.len() - s,
        {
            let service = &inventory.services[s];
            if service.protocol == protocol {
                let mut i: usize = 0;
                while i < service.identities.len()
                    invariant
                        material_refusal(*configs, inventory@, *input, protocol, only) is None,
                        kind == identity_of(protocol),
                        forall|i: int| 0 <= i < credentials@.len() ==> credential_text(kind, #[trigger] credentials@[i]@),
                    decreases service.identities@.len() - i,
                {
                    if crate::protocol::any_selected(configs, input, &service.identities[i].clients, true) {
                        let v = crate::plan::generate_credential(kind, singbox)?;
                        credentials.push(v);
                    }
                    i = i + 1;
                }
            }
            s = s + 1;
        }
    }
    let mut keypairs: Vec<RealityKeyPair> = Vec::new();
    let mut short_ids: Vec<String> = Vec::new();
    let mut obfs_passwords: Vec<String> = Vec::new();
    let mut k: usize = 0;
    while k < checks.len()
        invariant
            material_refusal(*configs, inventory@, *input, protocol, only) is None,
            forall|i: int| 0 <= i < credentials@.len() ==> credential_text(kind, #[trigger] credentials@[i]@),
            forall|i: int| 0 <= i < short_ids@.len() ==> hex_text(#[trigger] short_ids@[i]@, SHORT_ID_BYTES as nat),
            forall|i: int| 0 <= i < obfs_passwords@.len() ==> base64_text(#[trigger] obfs_passwords@[i]@, PASSWORD_BYTES as nat),
        decreases checks@.len() - k,
    {
        let c = &checks[k];
        if c.keypair.is_some() {
            let keys = singbox.generate_reality_keypair()?;
            keypairs.push(keys);
        }
        match &c.short_ids {
            Some(pre) => {
                let mut j: usize = 0;
                while j < pre.selected.len()
                    invariant
                        material_refusal(*configs, inventory@, *input, protocol, only) is None,
                        forall|i: int| 0 <= i < short_ids@.len() ==> hex_text(#[trigger] short_ids@[i]@, SHORT_ID_BYTES as nat),
                    decreases pre.selected@.len() - j,
                {
                    let v = singbox.generate_random_hex(SHORT_ID_BYTES)?;
                    short_ids.push(v);
                    j = j + 1;
                }
            },
            None => {},
        }
        if c.obfs.is_some() {
            let v = singbox.generate_random_base64(PASSWORD_BYTES)?;
            obfs_passwords.push(v);
        }
        k = k + 1;
    }
    let values = MaterialValues { credentials, keypairs, short_ids, obfs_passwords };
    assert(values_form(protocol, values@)) by {
        assert forall|i: int| 0 <= i < values@.credentials.len()
            implies credential_text(identity_of(protocol), #[trigger] values@.credentials[i]) by {
            assert(values@.credentials[i] == values.credentials@[i]@);
        }
        assert forall|i: int| 0 <= i < values@.short_ids.len() implies hex_text(#[trigger] values@.short_ids[i], SHORT_ID_BYTES as nat) by {
            assert(values@.short_ids[i] == values.short_ids@[i]@);
        }
        assert forall|i: int| 0 <= i < values@.obfs_passwords.len()
            implies base64_text(#[trigger] values@.obfs_passwords[i], PASSWORD_BYTES as nat) by {
            assert(values@.obfs_passwords[i] == values.obfs_passwords@[i]@);
        }
    }
    rotation_by_type_with(configs, inventory, input, protocol, only, &values)
}

} // verus!
