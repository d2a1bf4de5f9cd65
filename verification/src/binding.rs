//! Binding discovery: which client outbounds authenticate to which server inbound.
use vstd::prelude::*;
use crate::cli::{Input, Protocol};
use crate::config::{ConfigSet, DocView, docs_view, first_match, lemma_first_match_props, lemma_first_match_skip, strings_of};
use crate::error::{Error, ErrorKind};
use crate::json::{Json, JsonView, as_text, items_view, lemma_array_view, member_of};
use crate::text::{append_str, decimal, u64_text};

verus! {

/// A JSON location inside one config file.
pub struct ConfigRef {
    pub file: String,
    pub pointer: String,
}

pub struct ConfigRefView {
    pub file: Seq<char>,
    pub pointer: Seq<char>,
}

/// An inbound or outbound object and its tag.
pub struct EndpointRef {
    pub config: ConfigRef,
    pub tag: Option<String>,
}

pub struct EndpointView {
    pub config: ConfigRefView,
    pub tag: Option<Seq<char>>,
}

pub open spec fn opt_string_view(o: Option<String>) -> Option<Seq<char>> {
    match o {
        Some(s) => Some(s@),
        None => None,
    }
}

impl ConfigRef {
    pub open spec fn view(&self) -> ConfigRefView {
        ConfigRefView { file: self.file@, pointer: self.pointer@ }
    }
}

impl Clone for ConfigRef {
    fn clone(&self) -> (r: ConfigRef)
        ensures
            r@ == self@,
    {
        ConfigRef { file: self.file.clone(), pointer: self.pointer.clone() }
    }
}

impl EndpointRef {
    pub open spec fn view(&self) -> EndpointView {
        EndpointView { config: self.config@, tag: opt_string_view(self.tag) }
    }
}

pub fn clone_opt_string(o: &Option<String>) -> (r: Option<String>)
    ensures
        opt_string_view(r) == opt_string_view(*o),
{
    match o {
        Some(s) => Some(s.clone()),
        None => None,
    }
}

impl Clone for EndpointRef {
    fn clone(&self) -> (r: EndpointRef)
        ensures
            r@ == self@,
    {
        EndpointRef { config: self.config.clone(), tag: clone_opt_string(&self.tag) }
    }
}

pub open spec fn label_text(e: EndpointView) -> Seq<char> {
    e.config.file + "#"@ + e.config.pointer + " tag="@ + match e.tag {
        Some(t) => t,
        None => "<untagged>"@,
    }
}

pub open spec fn field_ref(e: EndpointView, field: Seq<char>) -> ConfigRefView {
    ConfigRefView { file: e.config.file, pointer: e.config.pointer + "/"@ + field }
}

impl EndpointRef {
    /// `file#pointer tag=<tag>` for diagnostics.
    pub fn label(&self) -> (r: String)
        ensures
            r@ == label_text(self@),
    {
        let mut s = self.config.file.clone();
        append_str(&mut s, "#");
        append_str(&mut s, self.config.pointer.as_str());
        append_str(&mut s, " tag=");
        match &self.tag {
            Some(t) => append_str(&mut s, t.as_str()),
            None => append_str(&mut s, "<untagged>"),
        }
        s
    }

    /// The location of a (possibly nested, '/'-separated) field of this endpoint.
    pub fn field(&self, field: &str) -> (r: ConfigRef)
        ensures
            r@ == field_ref(self@, field@),
    {
        let mut pointer = self.config.pointer.clone();
        append_str(&mut pointer, "/");
        append_str(&mut pointer, field);
        ConfigRef { file: self.config.file.clone(), pointer }
    }
}

pub open spec fn seq_contains_str(s: Seq<Seq<char>>, x: Seq<char>) -> bool {
    exists|i: int| 0 <= i < s.len() && s[i] == x
}

/// A tag passes a tag selector when the selector is empty or names it.
pub open spec fn spec_tag_selected(tag: Option<Seq<char>>, selected: Seq<Seq<char>>) -> bool {
    selected.len() == 0 || (tag matches Some(t) && seq_contains_str(selected, t))
}

pub fn contains_string(v: &Vec<String>, x: &str) -> (r: bool)
    ensures
        r == seq_contains_str(strings_of(v@), x@),
{
    let mut i: usize = 0;
    while i < v.len()
        invariant
            i <= v@.len(),
            forall|k: int| 0 <= k < i ==> #[trigger] v@[k]@ != x@,
        decreases v@.len() - i,
    {
        if crate::text::str_equal(v[i].as_str(), x) {
            assert(strings_of(v@)[i as int] == x@);
            return true;
        }
        i = i + 1;
    }
    assert forall|k: int| 0 <= k < strings_of(v@).len() implies strings_of(v@)[k] != x@ by {
        assert(strings_of(v@)[k] == v@[k]@);
    }
    false
}

pub fn tag_selected(tag: &Option<String>, selected: &Vec<String>) -> (r: bool)
    ensures
        r == spec_tag_selected(opt_string_view(*tag), strings_of(selected@)),
{
    if selected.len() == 0 {
        return true;
    }
    match tag {
        Some(t) => contains_string(selected, t.as_str()),
        None => false,
    }
}

/// A client outbound is selected when its file passes the file selector and its
/// tag passes the tag selector.
pub open spec fn spec_client_selected(client: EndpointView, selected_files: Seq<Seq<char>>, client_tags: Seq<Seq<char>>) -> bool {
    (selected_files.len() == 0 || seq_contains_str(selected_files, client.config.file))
        && spec_tag_selected(client.tag, client_tags)
}

pub fn client_selected(client: &EndpointRef, configs: &ConfigSet, input: &Input) -> (r: bool)
    ensures
        r == spec_client_selected(client@, configs.selected(), strings_of(input.client_tag@)),
{
    (configs.selected_clients.len() == 0 || contains_string(&configs.selected_clients, client.config.file.as_str()))
        && tag_selected(&client.tag, &input.client_tag)
}


/// One server-side credential and everything that uses it.
pub struct IdentityBinding {
    pub value: String,
    pub server_refs: Vec<ConfigRef>,
    pub user_names: Vec<String>,
    pub clients: Vec<EndpointRef>,
}

/// One server inbound and its identities.
pub struct ServiceBinding {
    pub protocol: Protocol,
    pub inbound: EndpointRef,
    pub identities: Vec<IdentityBinding>,
}

/// A client outbound that matched no inbound, or several.
pub struct UnboundClient {
    pub protocol: Protocol,
    pub outbound: EndpointRef,
    /// Empty for unmatched clients; more than one for ambiguous clients.
    pub candidates: Vec<EndpointRef>,
}

pub struct Inventory {
    pub services: Vec<ServiceBinding>,
    pub unbound: Vec<UnboundClient>,
}

pub struct IdentityView {
    pub value: Seq<char>,
    pub server_refs: Seq<ConfigRefView>,
    pub user_names: Seq<Seq<char>>,
    pub clients: Seq<EndpointView>,
}

pub struct ServiceView {
    pub protocol: Protocol,
    pub inbound: EndpointView,
    pub identities: Seq<IdentityView>,
}

pub struct UnboundView {
    pub protocol: Protocol,
    pub outbound: EndpointView,
    pub candidates: Seq<EndpointView>,
}

pub struct InventoryView {
    pub services: Seq<ServiceView>,
    pub unbound: Seq<UnboundView>,
}

pub open spec fn refs_view(v: Seq<ConfigRef>) -> Seq<ConfigRefView> {
    v.map_values(|r: ConfigRef| r@)
}

pub open spec fn endpoints_view(v: Seq<EndpointRef>) -> Seq<EndpointView> {
    v.map_values(|e: EndpointRef| e@)
}

impl IdentityBinding {
    pub open spec fn view(&self) -> IdentityView {
        IdentityView {
            value: self.value@,
            server_refs: refs_view(self.server_refs@),
            user_names: strings_of(self.user_names@),
            clients: endpoints_view(self.clients@),
        }
    }
}

pub open spec fn identities_view(v: Seq<IdentityBinding>) -> Seq<IdentityView> {
    v.map_values(|i: IdentityBinding| i@)
}

impl ServiceBinding {
    pub open spec fn view(&self) -> ServiceView {
        ServiceView { protocol: self.protocol, inbound: self.inbound@, identities: identities_view(self.identities@) }
    }
}

pub open spec fn services_view(v: Seq<ServiceBinding>) -> Seq<ServiceView> {
    v.map_values(|s: ServiceBinding| s@)
}

impl UnboundClient {
    pub open spec fn view(&self) -> UnboundView {
        UnboundView { protocol: self.protocol, outbound: self.outbound@, candidates: endpoints_view(self.candidates@) }
    }
}

pub open spec fn unbound_view(v: Seq<UnboundClient>) -> Seq<UnboundView> {
    v.map_values(|u: UnboundClient| u@)
}

impl Inventory {
    pub open spec fn view(&self) -> InventoryView {
        InventoryView { services: services_view(self.services@), unbound: unbound_view(self.unbound@) }
    }
}

// ---------------------------------------------------------------------------
// What discovery computes.

/// The items of the array member `field`: a missing member counts as empty.
/// The refusal names `location` and the field.
pub open spec fn array_field(j: JsonView, field: Seq<char>, location: Seq<char>) -> Result<Seq<JsonView>, (ErrorKind, Seq<char>)> {
    match member_of(j, field) {
        None => Ok(Seq::empty()),
        Some(JsonView::Array(items)) => Ok(items),
        Some(_) => Err((ErrorKind::NotAnArray, location + ": "@ + field + " must be an array"@)),
    }
}

/// What a missing credential is refused with: where it was looked for and its name.
pub open spec fn missing_credential(location: Seq<char>, protocol: Protocol) -> (ErrorKind, Seq<char>) {
    (ErrorKind::MissingCredential, location + ": missing or invalid "@ + protocol.spec_credential())
}

/// The credential of a user or outbound: a nonempty string.
pub open spec fn credential_of(j: JsonView, protocol: Protocol) -> Option<Seq<char>> {
    match as_text(member_of(j, protocol.spec_credential())) {
        Some(v) => if v.len() > 0 { Some(v) } else { None },
        None => None,
    }
}

pub open spec fn protocol_of(j: JsonView) -> Option<Protocol> {
    match as_text(member_of(j, "type"@)) {
        Some(t) => Protocol::spec_parse(t),
        None => None,
    }
}

pub open spec fn endpoint_at(file: Seq<char>, prefix: Seq<char>, index: nat, j: JsonView) -> EndpointView {
    EndpointView {
        config: ConfigRefView { file, pointer: prefix + decimal(index) },
        tag: as_text(member_of(j, "tag"@)),
    }
}

pub open spec fn user_ref(inbound: EndpointView, index: nat, protocol: Protocol) -> ConfigRefView {
    field_ref(inbound, "users/"@ + decimal(index) + "/"@ + protocol.spec_credential())
}

/// Records user `index` of a service: users with equal credentials form one identity.
pub open spec fn add_user(svc: ServiceView, index: nat, user: JsonView) -> Result<ServiceView, (ErrorKind, Seq<char>)> {
    let r = user_ref(svc.inbound, index, svc.protocol);
    match credential_of(user, svc.protocol) {
        None => Err(missing_credential(r.file + "#"@ + r.pointer, svc.protocol)),
        Some(v) => {
            let names = match as_text(member_of(user, "name"@)) {
                Some(n) => seq![n],
                None => Seq::empty(),
            };
            match first_match(svc.identities, |id: IdentityView| id.value == v, 0) {
                Some(p) => Ok(ServiceView {
                    identities: svc.identities.update(p, IdentityView {
                        server_refs: svc.identities[p].server_refs.push(r),
                        user_names: svc.identities[p].user_names + names,
                        ..svc.identities[p]
                    }),
                    ..svc
                }),
                None => Ok(ServiceView {
                    identities: svc.identities.push(IdentityView {
                        value: v,
                        server_refs: seq![r],
                        user_names: names,
                        clients: Seq::empty(),
                    }),
                    ..svc
                }),
            }
        },
    }
}

/// Recording a user keeps every identity's clients; a new identity has none.
pub proof fn lemma_add_user_keeps_clients(svc: ServiceView, index: nat, user: JsonView)
    ensures
        add_user(svc, index, user) matches Ok(next) ==> {
            &&& svc.identities.len() <= next.identities.len()
            &&& forall|i: int| 0 <= i < svc.identities.len() ==> (#[trigger] next.identities[i]).clients == svc.identities[i].clients
            &&& forall|i: int| svc.identities.len() <= i < next.identities.len() ==> (#[trigger] next.identities[i]).clients.len() == 0
        },
{
    if let Some(v) = credential_of(user, svc.protocol) {
        lemma_first_match_props(svc.identities, |id: IdentityView| id.value == v, 0);
    }
}

pub open spec fn add_users(svc: ServiceView, users: Seq<JsonView>, k: nat) -> Result<ServiceView, (ErrorKind, Seq<char>)>
    decreases users.len() - k,
{
    if k >= users.len() {
        Ok(svc)
    } else {
        match add_user(svc, k, users[k as int]) {
            Err(e) => Err(e),
            Ok(s) => add_users(s, users, k + 1),
        }
    }
}

/// Records inbound `index` of a server file when it is a supported, selected inbound.
pub open spec fn add_inbound(services: Seq<ServiceView>, file: Seq<char>, index: nat, inbound: JsonView, tags: Seq<Seq<char>>) -> Result<Seq<ServiceView>, (ErrorKind, Seq<char>)> {
    match protocol_of(inbound) {
        None => Ok(services),
        Some(p) => {
            let ep = endpoint_at(file, "/inbounds/"@, index, inbound);
            if !spec_tag_selected(ep.tag, tags) {
                Ok(services)
            } else {
                match array_field(inbound, "users"@, label_text(ep)) {
                    Err(e) => Err(e),
                    Ok(users) => match add_users(ServiceView { protocol: p, inbound: ep, identities: Seq::empty() }, users, 0) {
                        Err(e) => Err(e),
                        Ok(svc) => Ok(services.push(svc)),
                    },
                }
            }
        },
    }
}

pub open spec fn add_inbounds(services: Seq<ServiceView>, file: Seq<char>, inbounds: Seq<JsonView>, k: nat, tags: Seq<Seq<char>>) -> Result<Seq<ServiceView>, (ErrorKind, Seq<char>)>
    decreases inbounds.len() - k,
{
    if k >= inbounds.len() {
        Ok(services)
    } else {
        match add_inbound(services, file, k, inbounds[k as int], tags) {
            Err(e) => Err(e),
            Ok(s) => add_inbounds(s, file, inbounds, k + 1, tags),
        }
    }
}

pub open spec fn add_server_docs(services: Seq<ServiceView>, docs: Seq<DocView>, k: nat, tags: Seq<Seq<char>>) -> Result<Seq<ServiceView>, (ErrorKind, Seq<char>)>
    decreases docs.len() - k,
{
    if k >= docs.len() {
        Ok(services)
    } else {
        match array_field(docs[k as int].value, "inbounds"@, docs[k as int].path) {
            Err(e) => Err(e),
            Ok(inbounds) => match add_inbounds(services, docs[k as int].path, inbounds, 0, tags) {
                Err(e) => Err(e),
                Ok(s) => add_server_docs(s, docs, k + 1, tags),
            },
        }
    }
}


// ---------------------------------------------------------------------------
// Discovery.

/// The array at `field` of `j`; the failure names `location` and the field.
fn array_items<'a>(j: &'a Json, field: &str, location: &str) -> (r: Result<Option<&'a Vec<Json>>, Error>)
    ensures
        match r {
            Ok(Some(v)) => array_field(j@, field@, location@) == Ok::<Seq<JsonView>, (ErrorKind, Seq<char>)>(items_view(v@)),
            Ok(None) => array_field(j@, field@, location@) == Ok::<Seq<JsonView>, (ErrorKind, Seq<char>)>(Seq::empty()),
            Err(e) => array_field(j@, field@, location@) == Err::<Seq<JsonView>, (ErrorKind, Seq<char>)>((e.kind, e.context@)),
        },
{
    match j.get_member(field) {
        None => Ok(None),
        Some(v) => match v {
            Json::Array(items) => {
                proof {
                    lemma_array_view(*items);
                }
                Ok(Some(items))
            },
            _ => {
                let mut context = String::new();
                append_str(&mut context, location);
                append_str(&mut context, ": ");
                append_str(&mut context, field);
                append_str(&mut context, " must be an array");
                Err(Error::new(ErrorKind::NotAnArray, context))
            },
        },
    }
}

fn text_of_decimal_field(prefix: &str, index: usize, suffix: &str) -> (r: String)
    ensures
        r@ == prefix@ + decimal(index as nat) + suffix@,
{
    let mut s = String::new();
    append_str(&mut s, prefix);
    let n = u64_text(index as u64);
    append_str(&mut s, n.as_str());
    append_str(&mut s, suffix);
    s
}

fn credential<'a>(j: &'a Json, protocol: Protocol) -> (r: Option<&'a String>)
    ensures
        match r {
            Some(v) => credential_of(j@, protocol) == Some(v@),
            None => credential_of(j@, protocol) is None,
        },
{
    match j.text_member(protocol.credential()) {
        Some(v) => if v.unicode_len() > 0 { Some(v) } else { None },
        None => None,
    }
}

fn endpoint(file: &String, prefix: &str, index: usize, j: &Json) -> (r: EndpointRef)
    ensures
        r@ == endpoint_at(file@, prefix@, index as nat, j@),
{
    let mut pointer = String::new();
    append_str(&mut pointer, prefix);
    let n = u64_text(index as u64);
    append_str(&mut pointer, n.as_str());
    let tag = match j.text_member("tag") {
        Some(t) => Some(t.clone()),
        None => None,
    };
    EndpointRef { config: ConfigRef { file: file.clone(), pointer }, tag }
}

/// The position of the identity holding credential `value`.
fn identity_position(ids: &Vec<IdentityBinding>, value: &String) -> (r: Option<usize>)
    ensures
        match r {
            Some(p) => first_match(identities_view(ids@), |id: IdentityView| id.value == value@, 0) == Some(p as int),
            None => first_match(identities_view(ids@), |id: IdentityView| id.value == value@, 0) is None,
        },
{
    let ghost sv = identities_view(ids@);
    let ghost f = |id: IdentityView| id.value == value@;
    let mut i: usize = 0;
    while i < ids.len()
        invariant
            sv == identities_view(ids@),
            f == (|id: IdentityView| id.value == value@),
            i <= ids@.len(),
            forall|k: int| 0 <= k < i ==> !f(#[trigger] sv[k]),
        decreases ids@.len() - i,
    {
        assert(sv[i as int] == ids@[i as int]@);
        if ids[i].value == *value {
            proof {
                lemma_first_match_skip(sv, f, i as int);
            }
            return Some(i);
        }
        i = i + 1;
    }
    proof {
        lemma_first_match_skip(sv, f, i as int);
    }
    None
}

fn record_user(svc: &mut ServiceBinding, index: usize, user: &Json) -> (r: Result<(), Error>)
    ensures
        match r {
            Ok(()) => add_user(old(svc)@, index as nat, user@) == Ok::<ServiceView, (ErrorKind, Seq<char>)>(final(svc)@),
            Err(e) => add_user(old(svc)@, index as nat, user@) == Err::<ServiceView, (ErrorKind, Seq<char>)>((e.kind, e.context@)),
        },
{
    let ghost old_view = svc@;
    let sub = text_of_decimal_field("users/", index, "/");
    let mut field = sub;
    append_str(&mut field, svc.protocol.credential());
    let reference = svc.inbound.field(field.as_str());
    let value = match credential(user, svc.protocol) {
        Some(v) => v,
        None => {
            let mut context = reference.file.clone();
            append_str(&mut context, "#");
            append_str(&mut context, reference.pointer.as_str());
            append_str(&mut context, ": missing or invalid ");
            append_str(&mut context, svc.protocol.credential());
            return Err(Error::new(ErrorKind::MissingCredential, context));
        },
    };
    assert(reference@ == user_ref(old_view.inbound, index as nat, old_view.protocol));
    let name = match user.text_member("name") {
        Some(n) => Some(n.clone()),
        None => None,
    };
    let ghost names: Seq<Seq<char>> = match as_text(member_of(user@, "name"@)) {
        Some(n) => seq![n],
        None => Seq::empty(),
    };
    match identity_position(&svc.identities, value) {
        Some(p) => {
            proof {
                lemma_first_match_props(identities_view(svc.identities@), |id: IdentityView| id.value == value@, 0);
            }
            let ghost old_id = svc.identities@[p as int];
            let mut identity = svc.identities.remove(p);
            identity.server_refs.push(reference);
            match name {
                Some(n) => {
                    identity.user_names.push(n);
                },
                None => {},
            }
            proof {
                assert(refs_view(identity.server_refs@) =~= refs_view(old_id.server_refs@).push(reference@));
                assert(strings_of(identity.user_names@) =~= strings_of(old_id.user_names@) + names);
            }
            svc.identities.insert(p, identity);
            proof {
                assert(identities_view(svc.identities@) =~= old_view.identities.update(p as int, IdentityView {
                    server_refs: old_view.identities[p as int].server_refs.push(reference@),
                    user_names: old_view.identities[p as int].user_names + names,
                    ..old_view.identities[p as int]
                }));
            }
        },
        None => {
            let mut refs: Vec<ConfigRef> = Vec::new();
            refs.push(reference);
            let mut user_names: Vec<String> = Vec::new();
            match name {
                Some(n) => {
                    user_names.push(n);
                },
                None => {},
            }
            let identity = IdentityBinding { value: value.clone(), server_refs: refs, user_names, clients: Vec::new() };
            proof {
                assert(refs_view(identity.server_refs@) =~= seq![reference@]);
                assert(strings_of(identity.user_names@) =~= names);
                assert(endpoints_view(identity.clients@) =~= Seq::<EndpointView>::empty());
            }
            svc.identities.push(identity);
            proof {
                assert(identities_view(svc.identities@) =~= old_view.identities.push(identity@));
            }
        },
    }
    Ok(())
}


fn record_users(svc: &mut ServiceBinding, users: &Vec<Json>) -> (r: Result<(), Error>)
    ensures
        match r {
            Ok(()) => add_users(old(svc)@, items_view(users@), 0) == Ok::<ServiceView, (ErrorKind, Seq<char>)>(final(svc)@),
            Err(e) => add_users(old(svc)@, items_view(users@), 0) == Err::<ServiceView, (ErrorKind, Seq<char>)>((e.kind, e.context@)),
        },
{
    let ghost us = items_view(users@);
    let ghost total = add_users(svc@, us, 0);
    let mut k: usize = 0;
    while k < users.len()
        invariant
            us == items_view(users@),
            k <= users@.len(),
            total == add_users(old(svc)@, us, 0),
            total == add_users(svc@, us, k as nat),
        decreases users@.len() - k,
    {
        assert(us[k as int] == users@[k as int]@);
        record_user(svc, k, &users[k])?;
        k = k + 1;
    }
    Ok(())
}

fn record_inbound(services: &mut Vec<ServiceBinding>, file: &String, index: usize, inbound: &Json, tags: &Vec<String>) -> (r: Result<(), Error>)
    ensures
        match r {
            Ok(()) => add_inbound(services_view(old(services)@), file@, index as nat, inbound@, strings_of(tags@))
                == Ok::<Seq<ServiceView>, (ErrorKind, Seq<char>)>(services_view(final(services)@)),
            Err(e) => add_inbound(services_view(old(services)@), file@, index as nat, inbound@, strings_of(tags@))
                == Err::<Seq<ServiceView>, (ErrorKind, Seq<char>)>((e.kind, e.context@)),
        },
{
    let protocol = match inbound.text_member("type") {
        Some(t) => match Protocol::parse(t.as_str()) {
            Some(p) => p,
            None => {
                return Ok(());
            },
        },
        None => {
            return Ok(());
        },
    };
    let ep = endpoint(file, "/inbounds/", index, inbound);
    if !tag_selected(&ep.tag, tags) {
        return Ok(());
    }
    let location = ep.label();
    let users = array_items(inbound, "users", location.as_str())?;
    let mut svc = ServiceBinding { protocol, inbound: ep, identities: Vec::new() };
    assert(identities_view(svc.identities@) =~= Seq::<IdentityView>::empty());
    match users {
        Some(users) => {
            record_users(&mut svc, users)?;
        },
        None => {},
    }
    let ghost old_services = services_view(services@);
    services.push(svc);
    assert(services_view(services@) =~= old_services.push(svc@));
    Ok(())
}

fn record_server_docs(services: &mut Vec<ServiceBinding>, configs: &ConfigSet, tags: &Vec<String>) -> (r: Result<(), Error>)
    ensures
        match r {
            Ok(()) => add_server_docs(services_view(old(services)@), configs.server_docs(), 0, strings_of(tags@))
                == Ok::<Seq<ServiceView>, (ErrorKind, Seq<char>)>(services_view(final(services)@)),
            Err(e) => add_server_docs(services_view(old(services)@), configs.server_docs(), 0, strings_of(tags@))
                == Err::<Seq<ServiceView>, (ErrorKind, Seq<char>)>((e.kind, e.context@)),
        },
{
    let ghost docs = configs.server_docs();
    let ghost ts = strings_of(tags@);
    let ghost total = add_server_docs(services_view(services@), docs, 0, ts);
    let n = configs.server_documents.len();
    let mut k: usize = 0;
    while k < n
        invariant
            docs == configs.server_docs(),
            ts == strings_of(tags@),
            n == docs.len(),
            k <= n,
            total == add_server_docs(services_view(old(services)@), docs, 0, ts),
            total == add_server_docs(services_view(services@), docs, k as nat, ts),
        decreases n - k,
    {
        let doc = &configs.server_documents[k];
        assert(docs[k as int] == doc@);
        let inbounds = array_items(&doc.value, "inbounds", doc.path.as_str())?;
        match inbounds {
            Some(inbounds) => {
                let ghost ib = items_view(inbounds@);
                let ghost inner = add_inbounds(services_view(services@), doc.path@, ib, 0, ts);
                assert(total == match inner {
                    Err(e) => Err(e),
                    Ok(s) => add_server_docs(s, docs, (k + 1) as nat, ts),
                });
                let mut i: usize = 0;
                while i < inbounds.len()
                    invariant
                        ib == items_view(inbounds@),
                        i <= inbounds@.len(),
                        ts == strings_of(tags@),
                        inner == add_inbounds(services_view(services@), doc.path@, ib, i as nat, ts),
                        total == match inner {
                            Err(e) => Err(e),
                            Ok(s) => add_server_docs(s, docs, (k + 1) as nat, ts),
                        },
                        total == add_server_docs(services_view(old(services)@), docs, 0, ts),
                        docs == configs.server_docs(),
                    decreases inbounds@.len() - i,
                {
                    assert(ib[i as int] == inbounds@[i as int]@);
                    let ghost before = services_view(services@);
                    let step = record_inbound(services, &doc.path, i, &inbounds[i], tags);
                    match step {
                        Ok(()) => {},
                        Err(e) => {
                            assert(add_inbounds(before, doc.path@, ib, i as nat, ts) == Err::<Seq<ServiceView>, (ErrorKind, Seq<char>)>((e.kind, e.context@)));
                            assert(inner == Err::<Seq<ServiceView>, (ErrorKind, Seq<char>)>((e.kind, e.context@)));
                            assert(total == Err::<Seq<ServiceView>, (ErrorKind, Seq<char>)>((e.kind, e.context@)));
                            return Err(e);
                        },
                    }
                    i = i + 1;
                }
            },
            None => {
                assert(add_inbounds(services_view(services@), doc.path@, Seq::empty(), 0, ts) == Ok::<Seq<ServiceView>, (ErrorKind, Seq<char>)>(services_view(services@)));
            },
        }
        k = k + 1;
    }
    Ok(())
}


/// The (service, identity) positions whose credential is `value`, from identity `i` on.
pub open spec fn identity_matches(ids: Seq<IdentityView>, value: Seq<char>, s: int, i: nat) -> Seq<(int, int)>
    decreases ids.len() - i,
{
    if i >= ids.len() {
        Seq::empty()
    } else {
        (if ids[i as int].value == value { seq![(s, i as int)] } else { Seq::empty() })
            + identity_matches(ids, value, s, i + 1)
    }
}

/// Every (service, identity) position of the given protocol whose credential is `value`,
/// in inventory order, from service `s` on.
pub open spec fn match_pairs(svcs: Seq<ServiceView>, protocol: Protocol, value: Seq<char>, s: nat) -> Seq<(int, int)>
    decreases svcs.len() - s,
{
    if s >= svcs.len() {
        Seq::empty()
    } else {
        (if svcs[s as int].protocol == protocol {
            identity_matches(svcs[s as int].identities, value, s as int, 0)
        } else {
            Seq::empty()
        }) + match_pairs(svcs, protocol, value, s + 1)
    }
}

/// Records client outbound `index`: bound to its identity when exactly one
/// server identity of its protocol has its credential, unbound otherwise.
pub open spec fn add_client(inv: InventoryView, file: Seq<char>, index: nat, outbound: JsonView) -> Result<InventoryView, (ErrorKind, Seq<char>)> {
    match protocol_of(outbound) {
        None => Ok(inv),
        Some(p) => {
            let ep = endpoint_at(file, "/outbounds/"@, index, outbound);
            match credential_of(outbound, p) {
                None => Err(missing_credential(label_text(ep), p)),
                Some(v) => {
                    let ms = match_pairs(inv.services, p, v, 0);
                    if ms.len() == 1 {
                        let si = ms[0].0;
                        let ii = ms[0].1;
                        let svc = inv.services[si];
                        Ok(InventoryView {
                            services: inv.services.update(si, ServiceView {
                                identities: svc.identities.update(ii, IdentityView {
                                    clients: svc.identities[ii].clients.push(ep),
                                    ..svc.identities[ii]
                                }),
                                ..svc
                            }),
                            ..inv
                        })
                    } else {
                        Ok(InventoryView {
                            unbound: inv.unbound.push(UnboundView {
                                protocol: p,
                                outbound: ep,
                                candidates: Seq::new(ms.len(), |k: int| inv.services[ms[k].0].inbound),
                            }),
                            ..inv
                        })
                    }
                },
            }
        },
    }
}

pub open spec fn add_clients(inv: InventoryView, file: Seq<char>, outbounds: Seq<JsonView>, k: nat) -> Result<InventoryView, (ErrorKind, Seq<char>)>
    decreases outbounds.len() - k,
{
    if k >= outbounds.len() {
        Ok(inv)
    } else {
        match add_client(inv, file, k, outbounds[k as int]) {
            Err(e) => Err(e),
            Ok(i) => add_clients(i, file, outbounds, k + 1),
        }
    }
}

pub open spec fn add_client_docs(inv: InventoryView, docs: Seq<DocView>, k: nat) -> Result<InventoryView, (ErrorKind, Seq<char>)>
    decreases docs.len() - k,
{
    if k >= docs.len() {
        Ok(inv)
    } else {
        match array_field(docs[k as int].value, "outbounds"@, docs[k as int].path) {
            Err(e) => Err(e),
            Ok(outbounds) => match add_clients(inv, docs[k as int].path, outbounds, 0) {
                Err(e) => Err(e),
                Ok(i) => add_client_docs(i, docs, k + 1),
            },
        }
    }
}

/// The inventory of a config set: every supported server inbound selected by
/// `inbound_tags` with its identities, then every client outbound bound to the
/// one identity that shares its credential, or listed as unbound. A refusal
/// carries its kind and a text naming the file, pointer or endpoint and the field.
pub open spec fn discovered(configs: ConfigSet, inbound_tags: Seq<Seq<char>>) -> Result<InventoryView, (ErrorKind, Seq<char>)> {
    match add_server_docs(Seq::empty(), configs.server_docs(), 0, inbound_tags) {
        Err(e) => Err(e),
        Ok(services) => add_client_docs(InventoryView { services, unbound: Seq::empty() }, configs.client_docs(), 0),
    }
}

pub open spec fn pairs_view(v: Seq<(usize, usize)>) -> Seq<(int, int)> {
    v.map_values(|p: (usize, usize)| (p.0 as int, p.1 as int))
}

proof fn lemma_identity_matches_bounds(ids: Seq<IdentityView>, value: Seq<char>, s: int, i: nat)
    ensures
        forall|k: int| 0 <= k < identity_matches(ids, value, s, i).len() ==>
            (#[trigger] identity_matches(ids, value, s, i)[k]).0 == s
            && i <= identity_matches(ids, value, s, i)[k].1 < ids.len(),
    decreases ids.len() - i,
{
    if i < ids.len() {
        lemma_identity_matches_bounds(ids, value, s, i + 1);
        let head: Seq<(int, int)> = if ids[i as int].value == value { seq![(s, i as int)] } else { Seq::empty() };
        let rest = identity_matches(ids, value, s, i + 1);
        assert(identity_matches(ids, value, s, i) == head + rest);
        assert forall|k: int| 0 <= k < identity_matches(ids, value, s, i).len() implies
            (#[trigger] identity_matches(ids, value, s, i)[k]).0 == s
            && i <= identity_matches(ids, value, s, i)[k].1 < ids.len() by {
            if k < head.len() {
                assert(identity_matches(ids, value, s, i)[k] == head[k]);
            } else {
                assert(identity_matches(ids, value, s, i)[k] == rest[k - head.len()]);
            }
        }
    }
}

pub(crate) proof fn lemma_match_pairs_bounds(svcs: Seq<ServiceView>, protocol: Protocol, value: Seq<char>, s: nat)
    ensures
        forall|k: int| 0 <= k < match_pairs(svcs, protocol, value, s).len() ==>
            s <= (#[trigger] match_pairs(svcs, protocol, value, s)[k]).0 < svcs.len()
            && 0 <= match_pairs(svcs, protocol, value, s)[k].1 < svcs[match_pairs(svcs, protocol, value, s)[k].0].identities.len(),
    decreases svcs.len() - s,
{
    if s < svcs.len() {
        lemma_identity_matches_bounds(svcs[s as int].identities, value, s as int, 0);
        lemma_match_pairs_bounds(svcs, protocol, value, s + 1);
        let head = if svcs[s as int].protocol == protocol {
            identity_matches(svcs[s as int].identities, value, s as int, 0)
        } else {
            Seq::empty()
        };
        let rest = match_pairs(svcs, protocol, value, s + 1);
        let all = match_pairs(svcs, protocol, value, s);
        assert(all == head + rest);
        assert forall|k: int| 0 <= k < all.len() implies
            s <= (#[trigger] all[k]).0 < svcs.len()
            && 0 <= all[k].1 < svcs[all[k].0].identities.len() by {
            if k < head.len() {
                assert(all[k] == head[k]);
            } else {
                assert(all[k] == rest[k - head.len()]);
            }
        }
    }
}

fn matching_identities(services: &Vec<ServiceBinding>, protocol: Protocol, value: &String) -> (r: Vec<(usize, usize)>)
    ensures
        pairs_view(r@) == match_pairs(services_view(services@), protocol, value@, 0),
{
    let ghost sv = services_view(services@);
    let ghost total = match_pairs(sv, protocol, value@, 0);
    let mut out: Vec<(usize, usize)> = Vec::new();
    let mut s: usize = 0;
    assert(pairs_view(out@) + match_pairs(sv, protocol, value@, 0) =~= total);
    while s < services.len()
        invariant
            sv == services_view(services@),
            total == match_pairs(sv, protocol, value@, 0),
            s <= services@.len(),
            pairs_view(out@) + match_pairs(sv, protocol, value@, s as nat) == total,
        decreases services@.len() - s,
    {
        let svc = &services[s];
        assert(sv[s as int] == svc@);
        if svc.protocol == protocol {
            let ghost ids = identities_view(svc.identities@);
            let mut i: usize = 0;
            assert(identity_matches(ids, value@, s as int, 0) + match_pairs(sv, protocol, value@, (s + 1) as nat)
                =~= match_pairs(sv, protocol, value@, s as nat));
            while i < svc.identities.len()
                invariant
                    sv == services_view(services@),
                    total == match_pairs(sv, protocol, value@, 0),
                    s < services@.len(),
                    ids == identities_view(svc.identities@),
                    i <= svc.identities@.len(),
                    pairs_view(out@) + identity_matches(ids, value@, s as int, i as nat)
                        + match_pairs(sv, protocol, value@, (s + 1) as nat) == total,
                decreases svc.identities@.len() - i,
            {
                let ghost before = out@;
                assert(ids[i as int] == svc.identities@[i as int]@);
                if svc.identities[i].value == *value {
                    out.push((s, i));
                    assert(pairs_view(out@) =~= pairs_view(before).push((s as int, i as int)));
                    assert(pairs_view(out@) + identity_matches(ids, value@, s as int, (i + 1) as nat)
                        =~= pairs_view(before) + identity_matches(ids, value@, s as int, i as nat));
                } else {
                    assert(identity_matches(ids, value@, s as int, i as nat)
                        =~= identity_matches(ids, value@, s as int, (i + 1) as nat));
                }
                i = i + 1;
            }
            assert(identity_matches(ids, value@, s as int, i as nat) =~= Seq::<(int, int)>::empty());
            assert(pairs_view(out@) + match_pairs(sv, protocol, value@, (s + 1) as nat)
                =~= pairs_view(out@) + identity_matches(ids, value@, s as int, i as nat) + match_pairs(sv, protocol, value@, (s + 1) as nat));
        } else {
            assert(match_pairs(sv, protocol, value@, s as nat) =~= match_pairs(sv, protocol, value@, (s + 1) as nat));
        }
        s = s + 1;
    }
    assert(pairs_view(out@) =~= total);
    out
}


fn record_client(inventory: &mut Inventory, file: &String, index: usize, outbound: &Json) -> (r: Result<(), Error>)
    ensures
        match r {
            Ok(()) => add_client(old(inventory)@, file@, index as nat, outbound@) == Ok::<InventoryView, (ErrorKind, Seq<char>)>(final(inventory)@),
            Err(e) => add_client(old(inventory)@, file@, index as nat, outbound@) == Err::<InventoryView, (ErrorKind, Seq<char>)>((e.kind, e.context@)),
        },
{
    let ghost old_view = inventory@;
    let protocol = match outbound.text_member("type") {
        Some(t) => match Protocol::parse(t.as_str()) {
            Some(p) => p,
            None => {
                return Ok(());
            },
        },
        None => {
            return Ok(());
        },
    };
    let ep = endpoint(file, "/outbounds/", index, outbound);
    let value = match credential(outbound, protocol) {
        Some(v) => v,
        None => {
            let mut context = ep.label();
            append_str(&mut context, ": missing or invalid ");
            append_str(&mut context, protocol.credential());
            return Err(Error::new(ErrorKind::MissingCredential, context));
        },
    };
    let matches = matching_identities(&inventory.services, protocol, value);
    let ghost ms = match_pairs(old_view.services, protocol, value@, 0);
    proof {
        lemma_match_pairs_bounds(old_view.services, protocol, value@, 0);
    }
    if matches.len() == 1 {
        let (si, ii) = matches[0];
        assert(ms[0] == (si as int, ii as int));
        let ghost old_svc = old_view.services[si as int];
        let mut svc = inventory.services.remove(si);
        assert(svc@ == old_svc);
        let ghost old_id = old_svc.identities[ii as int];
        let mut identity = svc.identities.remove(ii);
        assert(identity@ == old_id);
        identity.clients.push(ep);
        assert(endpoints_view(identity.clients@) =~= old_id.clients.push(ep@));
        svc.identities.insert(ii, identity);
        assert(identities_view(svc.identities@) =~= old_svc.identities.update(ii as int, identity@));
        inventory.services.insert(si, svc);
        assert(services_view(inventory.services@) =~= old_view.services.update(si as int, svc@));
        Ok(())
    } else {
        let mut candidates: Vec<EndpointRef> = Vec::new();
        let mut k: usize = 0;
        while k < matches.len()
            invariant
                pairs_view(matches@) == ms,
                ms == match_pairs(old_view.services, protocol, value@, 0),
                old_view == inventory@,
                forall|j: int| 0 <= j < ms.len() ==> 0 <= (#[trigger] ms[j]).0 < old_view.services.len(),
                k <= matches@.len(),
                candidates@.len() == k,
                forall|j: int| 0 <= j < k ==> #[trigger] candidates@[j]@ == old_view.services[ms[j].0].inbound,
            decreases matches@.len() - k,
        {
            let (si, _ii) = matches[k];
            assert(ms[k as int].0 == si as int);
            assert(old_view.services[si as int] == inventory.services@[si as int]@);
            let c = inventory.services[si].inbound.clone();
            candidates.push(c);
            k = k + 1;
        }
        assert(endpoints_view(candidates@) =~= Seq::new(ms.len(), |j: int| old_view.services[ms[j].0].inbound));
        let u = UnboundClient { protocol, outbound: ep, candidates };
        inventory.unbound.push(u);
        assert(unbound_view(inventory.unbound@) =~= old_view.unbound.push(u@));
        Ok(())
    }
}

fn record_client_docs(inventory: &mut Inventory, configs: &ConfigSet) -> (r: Result<(), Error>)
    ensures
        match r {
            Ok(()) => add_client_docs(old(inventory)@, configs.client_docs(), 0) == Ok::<InventoryView, (ErrorKind, Seq<char>)>(final(inventory)@),
            Err(e) => add_client_docs(old(inventory)@, configs.client_docs(), 0) == Err::<InventoryView, (ErrorKind, Seq<char>)>((e.kind, e.context@)),
        },
{
    let ghost docs = configs.client_docs();
    let ghost total = add_client_docs(inventory@, docs, 0);
    let n = configs.client_documents.len();
    let mut k: usize = 0;
    while k < n
        invariant
            docs == configs.client_docs(),
            n == docs.len(),
            k <= n,
            total == add_client_docs(old(inventory)@, docs, 0),
            total == add_client_docs(inventory@, docs, k as nat),
        decreases n - k,
    {
        let doc = &configs.client_documents[k];
        assert(docs[k as int] == doc@);
        let outbounds = array_items(&doc.value, "outbounds", doc.path.as_str())?;
        match outbounds {
            Some(outbounds) => {
                let ghost ob = items_view(outbounds@);
                let ghost inner = add_clients(inventory@, doc.path@, ob, 0);
                assert(total == match inner {
                    Err(e) => Err(e),
                    Ok(i) => add_client_docs(i, docs, (k + 1) as nat),
                });
                let mut i: usize = 0;
                while i < outbounds.len()
                    invariant
                        ob == items_view(outbounds@),
                        i <= outbounds@.len(),
                        inner == add_clients(inventory@, doc.path@, ob, i as nat),
                        total == match inner {
                            Err(e) => Err(e),
                            Ok(i) => add_client_docs(i, docs, (k + 1) as nat),
                        },
                        total == add_client_docs(old(inventory)@, docs, 0),
                        docs == configs.client_docs(),
                    decreases outbounds@.len() - i,
                {
                    assert(ob[i as int] == outbounds@[i as int]@);
                    let ghost before = inventory@;
                    let step = record_client(inventory, &doc.path, i, &outbounds[i]);
                    match step {
                        Ok(()) => {},
                        Err(e) => {
                            assert(add_clients(before, doc.path@, ob, i as nat) == Err::<InventoryView, (ErrorKind, Seq<char>)>((e.kind, e.context@)));
                            assert(total == Err::<InventoryView, (ErrorKind, Seq<char>)>((e.kind, e.context@)));
                            return Err(e);
                        },
                    }
                    i = i + 1;
                }
            },
            None => {
                assert(add_clients(inventory@, doc.path@, Seq::empty(), 0) == Ok::<InventoryView, (ErrorKind, Seq<char>)>(inventory@));
            },
        }
        k = k + 1;
    }
    Ok(())
}

/// Discovers every service binding of the server set and binds each client outbound.
pub fn discover(configs: &ConfigSet, input: &Input) -> (r: Result<Inventory, Error>)
    ensures
        match r {
            Ok(inv) => discovered(*configs, strings_of(input.inbound_tag@)) == Ok::<InventoryView, (ErrorKind, Seq<char>)>(inv@),
            Err(e) => discovered(*configs, strings_of(input.inbound_tag@)) == Err::<InventoryView, (ErrorKind, Seq<char>)>((e.kind, e.context@)),
        },
{
    let mut services: Vec<ServiceBinding> = Vec::new();
    assert(services_view(services@) =~= Seq::<ServiceView>::empty());
    record_server_docs(&mut services, configs, &input.inbound_tag)?;
    let mut inventory = Inventory { services, unbound: Vec::new() };
    assert(unbound_view(inventory.unbound@) =~= Seq::<UnboundView>::empty());
    record_client_docs(&mut inventory, configs)?;
    Ok(inventory)
}


/// What an ambiguous client is refused with: the client and the inbounds it matches.
pub open spec fn ambiguity_text(u: UnboundView) -> Seq<char> {
    "ambiguous client "@ + label_text(u.outbound) + "; matches "@
        + crate::inspect::join_sep(u.candidates.map_values(|c: EndpointView| label_text(c)), ", "@)
        + "; narrow with --inbound-tag"@
}

fn ambiguity_message(client: &UnboundClient) -> (r: String)
    ensures
        r@ == ambiguity_text(client@),
{
    let mut labels: Vec<String> = Vec::new();
    let mut i: usize = 0;
    while i < client.candidates.len()
        invariant
            i <= client.candidates@.len(),
            strings_of(labels@) == client@.candidates.take(i as int).map_values(|c: EndpointView| label_text(c)),
        decreases client.candidates@.len() - i,
    {
        let l = client.candidates[i].label();
        let ghost before = strings_of(labels@);
        labels.push(l);
        assert(client@.candidates[i as int] == client.candidates@[i as int]@);
        assert(strings_of(labels@) =~= before.push(l@));
        assert(client@.candidates.take(i + 1).map_values(|c: EndpointView| label_text(c))
            =~= client@.candidates.take(i as int).map_values(|c: EndpointView| label_text(c)).push(l@));
        i = i + 1;
    }
    assert(client@.candidates.take(i as int) =~= client@.candidates);
    let mut s = String::new();
    append_str(&mut s, "ambiguous client ");
    let label = client.outbound.label();
    append_str(&mut s, label.as_str());
    append_str(&mut s, "; matches ");
    let joined = crate::inspect::join_strings(&labels, ", ");
    append_str(&mut s, joined.as_str());
    append_str(&mut s, "; narrow with --inbound-tag");
    s
}

/// Whether some unbound client of `protocol` matched several inbounds.
pub open spec fn has_ambiguity(inv: InventoryView, protocol: Protocol) -> bool {
    exists|i: int| 0 <= i < inv.unbound.len() && #[trigger] inv.unbound[i].protocol == protocol
        && inv.unbound[i].candidates.len() > 0
}

/// The bound clients of a service, identity by identity.
pub open spec fn service_clients(svc: ServiceView) -> Seq<EndpointView> {
    svc.identities.map_values(|id: IdentityView| id.clients).flatten()
}

impl Inventory {
    /// Fails when a client of `protocol` matches more than one inbound.
    pub fn ensure_unambiguous(&self, protocol: Protocol) -> (r: Result<(), Error>)
        ensures
            r is Ok <==> !has_ambiguity(self@, protocol),
            r matches Err(e) ==> e.kind == ErrorKind::Ambiguous
                && exists|i: int| #![trigger self@.unbound[i]] 0 <= i < self@.unbound.len()
                    && self@.unbound[i].protocol == protocol && self@.unbound[i].candidates.len() > 0
                    && (forall|k: int| 0 <= k < i ==> !(#[trigger] self@.unbound[k].protocol == protocol
                        && self@.unbound[k].candidates.len() > 0))
                    && e.context@ == ambiguity_text(self@.unbound[i]),
    {
        let ghost uv = unbound_view(self.unbound@);
        let mut i: usize = 0;
        while i < self.unbound.len()
            invariant
                uv == unbound_view(self.unbound@),
                i <= self.unbound@.len(),
                forall|k: int| 0 <= k < i ==> !(#[trigger] uv[k].protocol == protocol && uv[k].candidates.len() > 0),
            decreases self.unbound@.len() - i,
        {
            let client = &self.unbound[i];
            assert(uv[i as int] == client@);
            if client.protocol == protocol && client.candidates.len() > 0 {
                assert(self@.unbound == uv);
                assert(self@.unbound[i as int].protocol == protocol && self@.unbound[i as int].candidates.len() > 0);
                let context = ambiguity_message(client);
                return Err(Error::new(ErrorKind::Ambiguous, context));
            }
            i = i + 1;
        }
        Ok(())
    }
}

impl ServiceBinding {
    /// Every bound client outbound of the service.
    pub fn clients(&self) -> (r: Vec<EndpointRef>)
        ensures
            endpoints_view(r@) == service_clients(self@),
    {
        let ghost ids = identities_view(self.identities@);
        let ghost lists = ids.map_values(|id: IdentityView| id.clients);
        let mut out: Vec<EndpointRef> = Vec::new();
        let mut i: usize = 0;
        assert(lists.skip(0) =~= lists);
        assert(endpoints_view(out@) + lists.skip(0).flatten() =~= lists.flatten());
        while i < self.identities.len()
            invariant
                ids == identities_view(self.identities@),
                lists == ids.map_values(|id: IdentityView| id.clients),
                i <= self.identities@.len(),
                endpoints_view(out@) + lists.skip(i as int).flatten() == lists.flatten(),
            decreases self.identities@.len() - i,
        {
            let identity = &self.identities[i];
            assert(lists[i as int] == endpoints_view(identity.clients@));
            assert(lists.skip(i as int).first() == lists[i as int]);
            assert(lists.skip(i as int).drop_first() =~= lists.skip(i + 1));
            let ghost start = endpoints_view(out@);
            let mut j: usize = 0;
            while j < identity.clients.len()
                invariant
                    j <= identity.clients@.len(),
                    endpoints_view(out@) == start + endpoints_view(identity.clients@).take(j as int),
                decreases identity.clients@.len() - j,
            {
                let c = identity.clients[j].clone();
                let ghost before = out@;
                out.push(c);
                assert(endpoints_view(out@) =~= endpoints_view(before).push(c@));
                assert(endpoints_view(identity.clients@).take(j + 1) =~= endpoints_view(identity.clients@).take(j as int).push(c@));
                assert(endpoints_view(out@) =~= start + endpoints_view(identity.clients@).take(j + 1));
                j = j + 1;
            }
            assert(endpoints_view(identity.clients@).take(j as int) =~= endpoints_view(identity.clients@));
            assert(endpoints_view(out@) + lists.skip(i + 1).flatten()
                =~= start + lists.skip(i as int).flatten());
            i = i + 1;
        }
        assert(lists.skip(i as int) =~= Seq::<Seq<EndpointView>>::empty());
        assert(endpoints_view(out@) =~= lists.flatten());
        out
    }
}

} // verus!
