//! Properties of the planners as a whole, stated over their outcomes.
use vstd::prelude::*;
use crate::binding::{ConfigRefView, EndpointView, InventoryView, ServiceView, field_ref, service_clients, seq_contains_str};
use crate::cli::{Input, PropertyKind, Protocol};
use crate::config::ConfigSet;
use crate::error::ErrorKind;
use crate::json::{JsonView, array_index, child, edit_target, key_position, lemma_key_position_found, lemma_key_position_from,
    pointer_tokens, replace_child, set_member, set_path};
use crate::text::{all_digits, decimal, decimal_value, digit_value, is_digit};
use crate::plan::{Materializing, changed_position_of, lemma_changed_position_absent, lemma_changed_position_is,
    lemma_changed_position_props, clash, is_prefix, materialize_from, materialize_step, materialized};
use crate::config::{find_doc, lemma_first_match_props, lemma_first_match_skip};
use crate::binding::{IdentityView, add_client, add_client_docs, add_clients, add_inbound, add_inbounds, add_server_docs, add_user, add_users,
    array_field, credential_of, label_text, discovered, endpoint_at, identity_matches, match_pairs, protocol_of, spec_tag_selected};
use crate::config::DocView;
use crate::cli::IdentityKind;
use crate::plan::{EditView, IdentityState, current_and_effective, identities_outcome, identity_requests, initial_identity_state,
    lemma_plan_edits_shape, plan_edits, rotate_identities, rotate_services, used_credentials};
use crate::protocol::some_selected_client;
use crate::recovery::{Action, Finished, Status, any_conflict, spec_recovery_action};
use crate::protocol::hysteria2::{obfs_outcome, obfs_preflight, obfs_requests};
use crate::protocol::properties::set_outcome;
use crate::protocol::vless::{ShortIdSplit, keeps, kept_entries, keypair_outcome, keypair_preflight, short_id_requests};
use crate::protocol::{Eligibility, chosen_service, string_at};
use crate::plan::config_edit_target;
use crate::json::lookup;
use crate::material::{MaterialState, MaterialValuesView, identity_of, keypair_part, keypair_step, material_outcome, material_parts,
    material_refusal, obfs_step, rotates, service_part, service_wide, short_id_part, short_id_step};
use crate::protocol::hysteria2::{client_obfs_passwords, service_obfs_outcome, service_obfs_preflight};
use crate::protocol::vless::{keypair_requests, new_short_ids, public_keys, service_keypair_outcome, service_keypair_preflight, service_short_id_preflight,
    service_short_ids_outcome};
use crate::cli::{RotationKind, rotation_of_identity};
use crate::inspect::narrowed;
use crate::cli::RotationMaterial;
use crate::protocol::selected_by;
use crate::protocol::vless::{client_short_id_of, normalize_short_id, split_clients};
use crate::plan::{OperationKind, edit_line, masked};
use crate::json::json_text;
use crate::inspect::distinct_count;
use crate::protocol::properties::spec_property_value;
use crate::text::is_white_space;

verus! {

/// Every edit of a plan records what its location holds now and changes it.
pub open spec fn all_current(configs: ConfigSet, edits: Seq<EditView>) -> bool {
    forall|i: int| 0 <= i < edits.len() ==> current_and_effective(configs, #[trigger] edits[i])
}

/// Operations that act on a whole service (a Reality keypair, a Hysteria2 obfs
/// password, a service property) refuse client selectors (`--client`,
/// `--client-tag`), whatever else the input holds: a service is shared by all its
/// clients, and narrowing would leave some of them behind.
pub proof fn law_service_wide_operations_refuse_client_selectors(configs: ConfigSet, inv: InventoryView, input: Input,
    private: Seq<char>, public: Seq<char>, password: Seq<char>, kind: PropertyKind, value: Seq<char>)
    requires
        input.client@.len() > 0 || input.client_tag@.len() > 0,
    ensures
        keypair_outcome(configs, inv, input, private, public) == Err::<Seq<EditView>, ErrorKind>(ErrorKind::ServiceWideSelectors),
        obfs_outcome(configs, inv, input, password) == Err::<Seq<EditView>, ErrorKind>(ErrorKind::ServiceWideSelectors),
        set_outcome(configs, inv, input, kind, value) == Err::<Seq<EditView>, ErrorKind>(ErrorKind::ServiceWideSelectors),
{
}

/// An obfs rotation to `v` sets the obfs password of the server inbound and of
/// bound clients of the chosen service to `v`, and nothing else; every edit
/// records the current value and changes it.
pub proof fn law_obfs_rotation_sets_one_password(configs: ConfigSet, inv: InventoryView, input: Input, v: Seq<char>)
    ensures
        obfs_outcome(configs, inv, input, v) matches Ok(edits) ==> {
            &&& obfs_preflight(configs, inv, input) is Ok
            &&& all_current(configs, edits)
            &&& forall|i: int| 0 <= i < edits.len() ==> {
                let svc = inv.services[obfs_preflight(configs, inv, input)->Ok_0.0];
                &&& (#[trigger] edits[i]).new == Some(JsonView::String(v))
                &&& (edits[i].target == field_ref(svc.inbound, "obfs/password"@)
                    || exists|j: int| 0 <= j < service_clients(svc).len()
                        && edits[i].target == field_ref(service_clients(svc)[j], "obfs/password"@))
            }
        },
{
    match obfs_preflight(configs, inv, input) {
        Err(e) => {},
        Ok((si, old)) => {
            let svc = inv.services[si];
            let cs = service_clients(svc);
            let reqs = obfs_requests(svc, v);
            lemma_plan_edits_shape(Seq::empty(), configs, reqs, 0);
            if let Ok(edits) = obfs_outcome(configs, inv, input, v) {
                assert(edits == plan_edits(Seq::empty(), configs, reqs, 0)->Ok_0);
                assert forall|i: int| 0 <= i < edits.len() implies {
                    &&& (#[trigger] edits[i]).new == Some(JsonView::String(v))
                    &&& (edits[i].target == field_ref(svc.inbound, "obfs/password"@)
                        || exists|j: int| 0 <= j < cs.len() && edits[i].target == field_ref(cs[j], "obfs/password"@))
                } by {
                    let k = choose|k: int| 0 <= k < reqs.len() && edits[i].target == reqs[k].0 && edits[i].new == reqs[k].1;
                    if k > 0 {
                        assert(reqs[k].0 == field_ref(cs[k - 1], "obfs/password"@));
                    }
                }
            }
        },
    }
}

/// A Reality keypair rotation writes the new private key on the server inbound and
/// the new public key on bound clients, nothing else; every edit records the
/// current value and changes it.
pub proof fn law_keypair_rotation_writes_the_pair(configs: ConfigSet, inv: InventoryView, input: Input, private: Seq<char>, public: Seq<char>)
    ensures
        keypair_outcome(configs, inv, input, private, public) matches Ok(edits) ==> {
            &&& keypair_preflight(configs, inv, input) is Ok
            &&& all_current(configs, edits)
            &&& forall|i: int| 0 <= i < edits.len() ==> {
                let pre = keypair_preflight(configs, inv, input)->Ok_0;
                let svc = inv.services[pre.0];
                ||| ((#[trigger] edits[i]).target == field_ref(svc.inbound, "tls/reality/private_key"@)
                    && edits[i].new == Some(JsonView::String(private)))
                ||| (edits[i].new == Some(JsonView::String(public))
                    && exists|j: int| 0 <= j < pre.2.len() && edits[i].target == field_ref(pre.2[j], "tls/reality/public_key"@))
            }
        },
{
    match keypair_preflight(configs, inv, input) {
        Err(e) => {},
        Ok((si, old, cs, pubs)) => {
            let svc = inv.services[si];
            let reqs = crate::protocol::vless::keypair_requests(svc, cs, private, public);
            lemma_plan_edits_shape(Seq::empty(), configs, reqs, 0);
            if let Ok(edits) = keypair_outcome(configs, inv, input, private, public) {
                assert(edits == plan_edits(Seq::empty(), configs, reqs, 0)->Ok_0);
                assert forall|i: int| 0 <= i < edits.len() implies {
                    ||| ((#[trigger] edits[i]).target == field_ref(svc.inbound, "tls/reality/private_key"@)
                        && edits[i].new == Some(JsonView::String(private)))
                    ||| (edits[i].new == Some(JsonView::String(public))
                        && exists|j: int| 0 <= j < cs.len() && edits[i].target == field_ref(cs[j], "tls/reality/public_key"@))
                } by {
                    let k = choose|k: int| 0 <= k < reqs.len() && edits[i].target == reqs[k].0 && edits[i].new == reqs[k].1;
                    if k > 0 {
                        assert(reqs[k].0 == field_ref(cs[k - 1], "tls/reality/public_key"@));
                    }
                }
            }
        },
    }
}

/// The field of a client outbound that a property lives in.
pub open spec fn property_field(kind: PropertyKind) -> Seq<char> {
    match kind {
        PropertyKind::Server => "server"@,
        PropertyKind::ServerPort => "server_port"@,
        PropertyKind::ServerPorts => "server_ports"@,
        PropertyKind::TlsServerName => "tls/server_name"@,
    }
}

/// An edit of a property update: the property's field of one of the clients set to
/// `value`, or, when switching to port ranges, a client's scalar port removed.
pub open spec fn property_edit(kind: PropertyKind, cs: Seq<EndpointView>, value: JsonView, e: EditView) -> bool {
    exists|j: int| 0 <= j < cs.len() && {
        ||| (e.target == field_ref(cs[j], property_field(kind)) && e.new == Some(value))
        ||| (kind == PropertyKind::ServerPorts && e.target == field_ref(cs[j], "server_port"@) && e.new is None)
    }
}

proof fn lemma_property_edits(configs: ConfigSet, kind: PropertyKind, protocol: Protocol, cs: Seq<EndpointView>, value: JsonView,
    i: nat, edits: Seq<EditView>)
    requires
        forall|k: int| 0 <= k < edits.len() ==> current_and_effective(configs, #[trigger] edits[k])
            && property_edit(kind, cs, value, edits[k]),
    ensures
        crate::protocol::properties::property_edits(configs, kind, protocol, cs, value, i, edits) matches Ok(out) ==>
            forall|k: int| 0 <= k < out.len() ==> current_and_effective(configs, #[trigger] out[k])
                && property_edit(kind, cs, value, out[k]),
    decreases cs.len() - i,
{
    if i < cs.len() {
        if let Some(ob) = crate::protocol::endpoint_json(configs, cs[i as int]) {
            if let Ok(reqs) = crate::protocol::properties::client_property_requests(kind, protocol, cs[i as int], ob, value) {
                lemma_plan_edits_shape(edits, configs, reqs, 0);
                if let Ok(next) = plan_edits(edits, configs, reqs, 0) {
                    assert forall|k: int| 0 <= k < next.len() implies current_and_effective(configs, #[trigger] next[k])
                        && property_edit(kind, cs, value, next[k]) by {
                        if k < edits.len() {
                            assert(next[k] == next.take(edits.len() as int)[k]);
                        } else {
                            let r = choose|r: int| 0 <= r < reqs.len() && next[k].target == reqs[r].0 && next[k].new == reqs[r].1;
                            assert(0 <= i < cs.len());
                            if kind == PropertyKind::ServerPorts && r == 0 {
                                assert(next[k].target == field_ref(cs[i as int], "server_port"@));
                            } else {
                                assert(next[k].target == field_ref(cs[i as int], property_field(kind)));
                            }
                        }
                    }
                    lemma_property_edits(configs, kind, protocol, cs, value, i + 1, next);
                }
            }
        }
    }
}

/// Setting a property edits only the bound clients of the chosen service: each
/// edit sets the property's field of one of them to the parsed value, or (when
/// switching to port ranges) removes its scalar port. The server inbound, and its
/// listen port, are never edited. Every edit records the current value and
/// changes it.
pub proof fn law_set_edits_only_bound_clients(configs: ConfigSet, inv: InventoryView, input: Input, kind: PropertyKind, v: Seq<char>)
    ensures
        set_outcome(configs, inv, input, kind, v) matches Ok(edits) ==> {
            let si = chosen_service(configs, inv, input, crate::protocol::properties::property_protocol(kind), false, Eligibility::Any)->Ok_0;
            let value = crate::protocol::properties::spec_property_value(kind, v)->Ok_0;
            &&& all_current(configs, edits)
            &&& forall|i: int| 0 <= i < edits.len() ==> property_edit(kind, service_clients(inv.services[si]), value, #[trigger] edits[i])
        },
{
    let protocol = crate::protocol::properties::property_protocol(kind);
    if let Ok(si) = chosen_service(configs, inv, input, protocol, false, Eligibility::Any) {
        if let Ok(value) = crate::protocol::properties::spec_property_value(kind, v) {
            let svc = inv.services[si];
            lemma_property_edits(configs, kind, svc.protocol, service_clients(svc), value, 0, Seq::empty());
        }
    }
}

/// A state of an identity rotation that started from the credentials `u`: they
/// are still avoided, and every edit so far writes a nonempty credential outside `u`.
pub open spec fn fresh_state(configs: ConfigSet, u: Seq<Seq<char>>, st: IdentityState) -> bool {
    &&& u.len() <= st.used.len()
    &&& st.used.take(u.len() as int) == u
    &&& forall|k: int| 0 <= k < st.edits.len() ==> current_and_effective(configs, #[trigger] st.edits[k])
        && fresh_credential(u, st.edits[k])
}

/// An edit that writes a nonempty credential outside `u`.
pub open spec fn fresh_credential(u: Seq<Seq<char>>, e: EditView) -> bool {
    exists|v: Seq<char>| e.new == Some(JsonView::String(v)) && v.len() > 0 && !seq_contains_str(u, v)
}

proof fn lemma_fresh_identities(configs: ConfigSet, input: Input, protocol: Protocol, ids: Seq<IdentityView>, gens: Seq<Seq<char>>,
    u: Seq<Seq<char>>, st: IdentityState, k: nat)
    requires
        fresh_state(configs, u, st),
    ensures
        rotate_identities(configs, input, protocol, ids, gens, st, k) matches Ok(out) ==> fresh_state(configs, u, out),
    decreases k,
{
    if k > 0 {
        lemma_fresh_identities(configs, input, protocol, ids, gens, u, st, (k - 1) as nat);
        if let Ok(prev) = rotate_identities(configs, input, protocol, ids, gens, st, (k - 1) as nat) {
            if k <= ids.len() && some_selected_client(configs, input, ids[k - 1].clients, true) && prev.count < gens.len() {
                let id = ids[k - 1];
                let v = gens[prev.count as int];
                let reqs = identity_requests(protocol, id, v);
                lemma_plan_edits_shape(prev.edits, configs, reqs, 0);
                if v.len() > 0 && !seq_contains_str(prev.used, v) {
                    if let Ok(next) = plan_edits(prev.edits, configs, reqs, 0) {
                        let out = IdentityState { used: prev.used.push(v), edits: next, count: prev.count + 1 };
                        assert(out.used.take(u.len() as int) =~= prev.used.take(u.len() as int));
                        assert(!seq_contains_str(u, v)) by {
                            if seq_contains_str(u, v) {
                                let j = choose|j: int| 0 <= j < u.len() && u[j] == v;
                                assert(prev.used.take(u.len() as int)[j] == v);
                                assert(prev.used[j] == v);
                            }
                        }
                        assert forall|m: int| 0 <= m < next.len() implies current_and_effective(configs, #[trigger] next[m])
                            && fresh_credential(u, next[m]) by {
                            if m < prev.edits.len() {
                                assert(next[m] == next.take(prev.edits.len() as int)[m]);
                            } else {
                                let r = choose|r: int| 0 <= r < reqs.len() && next[m].target == reqs[r].0 && next[m].new == reqs[r].1;
                                assert(next[m].new == Some(JsonView::String(v)));
                            }
                        }
                    }
                }
            }
        }
    }
}

proof fn lemma_fresh_services(configs: ConfigSet, input: Input, protocol: Protocol, svcs: Seq<ServiceView>, gens: Seq<Seq<char>>,
    u: Seq<Seq<char>>, init: IdentityState, s: nat)
    requires
        fresh_state(configs, u, init),
    ensures
        rotate_services(configs, input, protocol, svcs, gens, init, s) matches Ok(out) ==> fresh_state(configs, u, out),
    decreases s,
{
    if s > 0 {
        lemma_fresh_services(configs, input, protocol, svcs, gens, u, init, (s - 1) as nat);
        if let Ok(prev) = rotate_services(configs, input, protocol, svcs, gens, init, (s - 1) as nat) {
            if s <= svcs.len() && svcs[s - 1].protocol == protocol {
                lemma_fresh_identities(configs, input, protocol, svcs[s - 1].identities, gens, u, prev, svcs[s - 1].identities.len());
            }
        }
    }
}

/// An identity rotation writes only fresh credentials: every edit sets a nonempty
/// value that no server user or client outbound of the protocol held anywhere in
/// the supplied configs (selected or not, bound or not). Every edit records the
/// current value and changes it.
pub proof fn law_identity_rotation_writes_fresh_credentials(configs: ConfigSet, inv: InventoryView, input: Input, kind: IdentityKind,
    gens: Seq<Seq<char>>)
    ensures
        identities_outcome(configs, inv, input, kind, gens) matches Ok(edits) ==> {
            &&& all_current(configs, edits)
            &&& forall|i: int| 0 <= i < edits.len() ==>
                fresh_credential(used_credentials(configs, kind.spec_protocol()), #[trigger] edits[i])
        },
{
    let protocol = kind.spec_protocol();
    let init = initial_identity_state(configs, protocol);
    let u = used_credentials(configs, protocol);
    assert(init.used.take(u.len() as int) =~= u);
    lemma_fresh_services(configs, input, protocol, inv.services, gens, u, init, inv.services.len());
}

proof fn lemma_kept_entries_contain(entries: Seq<JsonView>, accepted: Seq<Seq<char>>, split: ShortIdSplit, i: nat, k: int)
    requires
        i <= k < entries.len(),
        keeps(split, accepted[k]),
    ensures
        kept_entries(entries, accepted, split, i).contains(entries[k]),
    decreases k - i,
{
    let head: Seq<JsonView> = if keeps(split, accepted[i as int]) { seq![entries[i as int]] } else { Seq::empty() };
    let rest = kept_entries(entries, accepted, split, i + 1);
    assert(kept_entries(entries, accepted, split, i) == head + rest);
    if k == i {
        assert((head + rest)[0] == entries[k]);
    } else {
        lemma_kept_entries_contain(entries, accepted, split, i + 1, k);
        let j = choose|j: int| 0 <= j < rest.len() && rest[j] == entries[k];
        assert((head + rest)[head.len() + j] == entries[k]);
    }
}

/// A short-ID rotation never drops an accepted ID that an unselected client still
/// uses, nor one that no selected client gave up (such as an ID that no supplied
/// client can be attributed to): the server's new list holds every such entry,
/// followed by the new IDs.
pub proof fn law_short_id_rotation_keeps_ids(svc: ServiceView, entries: Seq<JsonView>, accepted: Seq<Seq<char>>, split: ShortIdSplit,
    ids: Seq<Seq<char>>)
    ensures
        ({
            let reqs = short_id_requests(svc, entries, accepted, split, ids);
            let list = reqs.last().1;
            &&& reqs.last().0 == field_ref(svc.inbound, "tls/reality/short_id"@)
            &&& list matches Some(JsonView::Array(items))
            &&& items.skip(items.len() - ids.len()) == ids.map_values(|id: Seq<char>| JsonView::String(id))
            &&& forall|k: int| 0 <= k < entries.len() && (split.retained.contains(accepted[k]) || !split.retired.contains(accepted[k]))
                ==> #[trigger] items.contains(entries[k])
        }),
{
    let reqs = short_id_requests(svc, entries, accepted, split, ids);
    let kept = kept_entries(entries, accepted, split, 0);
    let tail = ids.map_values(|id: Seq<char>| JsonView::String(id));
    let items = kept + tail;
    assert(reqs.last().1 == Some(JsonView::Array(items)));
    assert(items.skip(items.len() - ids.len()) =~= tail);
    assert forall|k: int| 0 <= k < entries.len() && (split.retained.contains(accepted[k]) || !split.retired.contains(accepted[k]))
        implies #[trigger] items.contains(entries[k]) by {
        lemma_kept_entries_contain(entries, accepted, split, 0, k);
        let j = choose|j: int| 0 <= j < kept.len() && kept[j] == entries[k];
        assert(items[j] == entries[k]);
    }
}

/// Two edits of one file are at well-formed locations neither of which contains
/// the other (so in particular they differ).
pub open spec fn apart(a: EditView, b: EditView) -> bool {
    a.target.file == b.target.file ==> {
        &&& pointer_tokens(a.target.pointer) is Some
        &&& pointer_tokens(b.target.pointer) is Some
        &&& !is_prefix(pointer_tokens(a.target.pointer)->Some_0, pointer_tokens(b.target.pointer)->Some_0)
        &&& !is_prefix(pointer_tokens(b.target.pointer)->Some_0, pointer_tokens(a.target.pointer)->Some_0)
    }
}

proof fn lemma_materialize_apart(configs: ConfigSet, edits: Seq<EditView>, k: nat, st: Materializing)
    requires
        k <= edits.len(),
        st.seen.len() == k,
        forall|i: int| 0 <= i < k ==> #[trigger] st.seen[i].0 == edits[i].target.file
            && pointer_tokens(edits[i].target.pointer) == Some(st.seen[i].1),
    ensures
        materialize_from(configs, edits, k, st) is Ok ==>
            forall|i: int, j: int| 0 <= i < j < edits.len() && k <= j ==> apart(#[trigger] edits[i], #[trigger] edits[j]),
    decreases edits.len() - k,
{
    if k < edits.len() {
        let e = edits[k as int];
        if let Ok(next) = materialize_step(configs, st, e) {
            let t = pointer_tokens(e.target.pointer)->Some_0;
            assert(pointer_tokens(e.target.pointer) is Some);
            assert(clash(st.seen, e.target.file, t) is None);
            assert(next.seen == st.seen.push((e.target.file, t)));
            lemma_materialize_apart(configs, edits, k + 1, next);
            if materialize_from(configs, edits, k, st) is Ok {
                assert forall|i: int, j: int| 0 <= i < j < edits.len() && k <= j implies apart(#[trigger] edits[i], #[trigger] edits[j]) by {
                    if j == k {
                        if edits[i].target.file == edits[j].target.file {
                            assert(st.seen[i].0 == edits[i].target.file);
                            if is_prefix(st.seen[i].1, t) || is_prefix(t, st.seen[i].1) {
                                assert(clash(st.seen, e.target.file, t) is Some);
                            }
                        }
                    }
                }
            }
        }
    }
}

/// A plan can be applied only when no two of its edits touch the same location of
/// a file, or locations nested in one another: applying it fails otherwise
/// (`DuplicateEdit`, `OverlappingEdit`).
pub proof fn law_applied_edits_are_apart(configs: ConfigSet, edits: Seq<EditView>)
    ensures
        materialized(configs, edits) is Ok ==>
            forall|i: int, j: int| 0 <= i < j < edits.len() ==> apart(#[trigger] edits[i], #[trigger] edits[j]),
{
    lemma_materialize_apart(configs, edits, 0, Materializing { seen: Seq::empty(), changed: Seq::empty() });
}

// ---------------------------------------------------------------------------
// Reading back what a plan writes.

proof fn lemma_key_position_is(ms: Seq<(Seq<char>, JsonView)>, key: Seq<char>, p: int)
    requires
        0 <= p < ms.len(),
        ms[p].0 == key,
        forall|k: int| 0 <= k < p ==> ms[k].0 != key,
    ensures
        key_position(ms, key) == Some(p),
{
    lemma_key_position_from(ms, key, p);
}

proof fn lemma_key_position_absent(ms: Seq<(Seq<char>, JsonView)>, key: Seq<char>)
    requires
        forall|k: int| 0 <= k < ms.len() ==> ms[k].0 != key,
    ensures
        key_position(ms, key) is None,
{
    lemma_key_position_from(ms, key, ms.len() as int);
}

/// Members with the same keys in the same order find a key at the same position.
proof fn lemma_key_position_same_keys(ms: Seq<(Seq<char>, JsonView)>, ms2: Seq<(Seq<char>, JsonView)>, key: Seq<char>)
    requires
        ms2.len() == ms.len(),
        forall|i: int| 0 <= i < ms.len() ==> ms2[i].0 == #[trigger] ms[i].0,
    ensures
        key_position(ms2, key) == key_position(ms, key),
{
    lemma_key_position_found(ms, key);
    match key_position(ms, key) {
        Some(p) => {
            assert forall|k: int| 0 <= k < p implies ms2[k].0 != key by {
                assert(ms2[k].0 == ms[k].0);
            }
            lemma_key_position_is(ms2, key, p);
        },
        None => {
            assert forall|k: int| 0 <= k < ms2.len() implies ms2[k].0 != key by {
                assert(ms2[k].0 == ms[k].0);
            }
            lemma_key_position_absent(ms2, key);
        },
    }
}

/// Removing member `p` leaves the first member of any other key in place (up to
/// the shift).
proof fn lemma_key_position_remove(ms: Seq<(Seq<char>, JsonView)>, p: int, key: Seq<char>)
    requires
        0 <= p < ms.len(),
        ms[p].0 != key,
    ensures
        match key_position(ms, key) {
            Some(q) => key_position(ms.remove(p), key) == Some(if q < p { q } else { q - 1 }),
            None => key_position(ms.remove(p), key) is None,
        },
{
    let ms2 = ms.remove(p);
    lemma_key_position_found(ms, key);
    match key_position(ms, key) {
        Some(q) => {
            let q2 = if q < p { q } else { q - 1 };
            assert(ms2[q2] == ms[q]);
            assert forall|k: int| 0 <= k < q2 implies ms2[k].0 != key by {
                if k < p {
                    assert(ms2[k] == ms[k]);
                } else {
                    assert(ms2[k] == ms[k + 1]);
                }
            }
            lemma_key_position_is(ms2, key, q2);
        },
        None => {
            assert forall|k: int| 0 <= k < ms2.len() implies ms2[k].0 != key by {
                if k < p {
                    assert(ms2[k] == ms[k]);
                } else {
                    assert(ms2[k] == ms[k + 1]);
                }
            }
            lemma_key_position_absent(ms2, key);
        },
    }
}

proof fn lemma_key_position_push(ms: Seq<(Seq<char>, JsonView)>, m: (Seq<char>, JsonView), key: Seq<char>)
    ensures
        m.0 != key ==> key_position(ms.push(m), key) == key_position(ms, key),
        (m.0 == key && key_position(ms, key) is None) ==> key_position(ms.push(m), key) == Some(ms.len() as int),
{
    let ms2 = ms.push(m);
    lemma_key_position_found(ms, key);
    match key_position(ms, key) {
        Some(q) => {
            assert(ms2[q] == ms[q]);
            assert forall|k: int| 0 <= k < q implies ms2[k].0 != key by {
                assert(ms2[k] == ms[k]);
            }
            lemma_key_position_is(ms2, key, q);
        },
        None => {
            if m.0 != key {
                assert forall|k: int| 0 <= k < ms2.len() implies ms2[k].0 != key by {
                    if k < ms.len() {
                        assert(ms2[k] == ms[k]);
                    }
                }
                lemma_key_position_absent(ms2, key);
            } else {
                assert forall|k: int| 0 <= k < ms.len() implies ms2[k].0 != key by {
                    assert(ms2[k] == ms[k]);
                }
                lemma_key_position_is(ms2, key, ms.len() as int);
            }
        },
    }
}

proof fn lemma_decimal_value_positive(t: Seq<char>)
    requires
        t.len() > 0,
        all_digits(t),
        t[0] != '0',
    ensures
        decimal_value(t) > 0,
    decreases t.len(),
{
    if t.len() > 1 {
        let s = t.drop_last();
        assert(s[0] == t[0]);
        assert(all_digits(s)) by {
            assert forall|i: int| 0 <= i < s.len() implies is_digit(#[trigger] s[i]) by {
                assert(s[i] == t[i]);
            }
        }
        lemma_decimal_value_positive(s);
    }
}

/// A numeral without leading zeros is the decimal numeral of its value.
proof fn lemma_canonical_numeral(t: Seq<char>)
    requires
        t.len() > 0,
        all_digits(t),
        t[0] != '0' || t.len() == 1,
    ensures
        decimal(decimal_value(t)) == t,
    decreases t.len(),
{
    let d = digit_value(t.last());
    assert(is_digit(t.last()));
    assert(d < 10);
    assert(((d + '0' as nat) as char) == t.last());
    if t.len() == 1 {
        assert(decimal_value(t.drop_last()) == 0);
        assert(decimal_value(t) == d);
        assert(decimal(d) =~= t);
    } else {
        let s = t.drop_last();
        assert(s[0] == t[0]);
        assert(all_digits(s)) by {
            assert forall|i: int| 0 <= i < s.len() implies is_digit(#[trigger] s[i]) by {
                assert(s[i] == t[i]);
            }
        }
        lemma_canonical_numeral(s);
        lemma_decimal_value_positive(s);
        let v = decimal_value(s);
        let n = decimal_value(t);
        assert(n == v * 10 + d);
        assert(n / 10 == v && n % 10 == d) by (nonlinear_arith)
            requires
                n == v * 10 + d,
                d < 10,
        ;
        assert(n >= 10);
        assert(decimal(n) == decimal(n / 10).push(((n % 10) + '0' as nat) as char));
        assert(decimal(n) =~= s.push(t.last()));
        assert(s.push(t.last()) =~= t);
    }
}

proof fn lemma_array_index_injective(a: Seq<char>, b: Seq<char>)
    requires
        array_index(a) is Some,
        array_index(a) == array_index(b),
    ensures
        a == b,
{
    lemma_canonical_numeral(a);
    lemma_canonical_numeral(b);
}

/// Editing at a location of two or more tokens goes through the first token's child.
proof fn lemma_edit_target_step(j: JsonView, t: Seq<Seq<char>>)
    requires
        t.len() >= 2,
    ensures
        edit_target(j, t) == match child(j, t[0]) {
            Some(c) => edit_target(c, t.drop_first()),
            None => None,
        },
{
    let d = t.drop_last();
    assert(d[0] == t[0]);
    assert(d.drop_first() =~= t.drop_first().drop_last());
    assert(t.drop_first().last() == t.last());
}

proof fn lemma_replace_child_same(j: JsonView, a: Seq<char>, c: JsonView)
    requires
        child(j, a) is Some,
    ensures
        child(replace_child(j, a, c), a) == Some(c),
{
    if let JsonView::Object(ms) = j {
        lemma_key_position_found(ms, a);
        let p = key_position(ms, a)->Some_0;
        let ms2 = ms.update(p, (ms[p].0, c));
        lemma_key_position_same_keys(ms, ms2, a);
    }
}

/// The member or element named `b` is untouched by a change to the one named `a`.
pub open spec fn slot_unchanged(j: JsonView, j2: JsonView, b: Seq<char>) -> bool {
    child(j2, b) == child(j, b) && edit_target(j2, seq![b]) == edit_target(j, seq![b])
}

proof fn lemma_replace_child_other(j: JsonView, a: Seq<char>, c: JsonView, b: Seq<char>)
    requires
        a != b,
    ensures
        slot_unchanged(j, replace_child(j, a, c), b),
{
    let j2 = replace_child(j, a, c);
    assert(seq![b].drop_last() =~= Seq::<Seq<char>>::empty());
    assert(seq![b].last() == b);
    match j {
        JsonView::Object(ms) => {
            lemma_key_position_found(ms, a);
            lemma_key_position_found(ms, b);
            if let Some(p) = key_position(ms, a) {
                let ms2 = ms.update(p, (ms[p].0, c));
                lemma_key_position_same_keys(ms, ms2, b);
            }
        },
        JsonView::Array(items) => {
            if let Some(n) = array_index(a) {
                if array_index(b) == Some(n) {
                    lemma_array_index_injective(a, b);
                }
            }
        },
        _ => {},
    }
}

proof fn lemma_set_member_other(j: JsonView, a: Seq<char>, new: Option<JsonView>, b: Seq<char>)
    requires
        a != b,
        set_member(j, a, new) is Some,
    ensures
        slot_unchanged(j, set_member(j, a, new)->Some_0, b),
{
    let j2 = set_member(j, a, new)->Some_0;
    assert(seq![b].drop_last() =~= Seq::<Seq<char>>::empty());
    assert(seq![b].last() == b);
    match j {
        JsonView::Object(ms) => {
            lemma_key_position_found(ms, a);
            lemma_key_position_found(ms, b);
            match key_position(ms, a) {
                Some(p) => match new {
                    Some(v) => {
                        let ms2 = ms.update(p, (a, v));
                        lemma_key_position_same_keys(ms, ms2, b);
                    },
                    None => {
                        lemma_key_position_remove(ms, p, b);
                        if let Some(q) = key_position(ms, b) {
                            let ms2 = ms.remove(p);
                            if q < p {
                                assert(ms2[q] == ms[q]);
                            } else {
                                assert(q != p);
                                assert(ms2[q - 1] == ms[q]);
                            }
                        }
                    },
                },
                None => match new {
                    Some(v) => {
                        lemma_key_position_push(ms, (a, v), b);
                        if let Some(q) = key_position(ms, b) {
                            assert(ms.push((a, v))[q] == ms[q]);
                        }
                    },
                    None => {},
                },
            }
        },
        JsonView::Array(items) => {
            let n = array_index(a)->Some_0;
            if array_index(b) == Some(n) {
                lemma_array_index_injective(a, b);
            }
        },
        _ => {},
    }
}

/// Writing a value at a location and reading the location gives the value back.
proof fn lemma_set_path_reads_back(j: JsonView, t: Seq<Seq<char>>, v: JsonView)
    requires
        set_path(j, t, Some(v)) is Some,
    ensures
        edit_target(set_path(j, t, Some(v))->Some_0, t) == Some(Some(v)),
    decreases t.len(),
{
    let j2 = set_path(j, t, Some(v))->Some_0;
    if t.len() == 1 {
        assert(t.drop_last() =~= Seq::<Seq<char>>::empty());
        let a = t[0];
        assert(t.last() == a);
        match j {
            JsonView::Object(ms) => {
                match key_position(ms, a) {
                    Some(p) => {
                        lemma_key_position_found(ms, a);
                        lemma_key_position_same_keys(ms, ms.update(p, (a, v)), a);
                    },
                    None => {
                        lemma_key_position_push(ms, (a, v), a);
                    },
                }
            },
            _ => {},
        }
    } else {
        let c = child(j, t[0])->Some_0;
        let c2 = set_path(c, t.drop_first(), Some(v))->Some_0;
        lemma_set_path_reads_back(c, t.drop_first(), v);
        lemma_replace_child_same(j, t[0], c2);
        lemma_edit_target_step(j2, t);
    }
}

/// Writing at a location leaves every location apart from it as it was.
proof fn lemma_set_path_apart(j: JsonView, t1: Seq<Seq<char>>, new: Option<JsonView>, t2: Seq<Seq<char>>)
    requires
        set_path(j, t1, new) is Some,
        t2.len() > 0,
        !is_prefix(t1, t2),
        !is_prefix(t2, t1),
    ensures
        edit_target(set_path(j, t1, new)->Some_0, t2) == edit_target(j, t2),
    decreases t1.len(),
{
    let j2 = set_path(j, t1, new)->Some_0;
    let a = t1[0];
    let b = t2[0];
    if a == b {
        if t1.len() == 1 {
            assert(t2.take(1) =~= t1);
        }
        if t2.len() == 1 {
            assert(t1.take(1) =~= t2);
        }
        let c = child(j, a)->Some_0;
        let r1 = t1.drop_first();
        let r2 = t2.drop_first();
        let c2 = set_path(c, r1, new)->Some_0;
        if is_prefix(r1, r2) {
            assert(t2.take(t1.len() as int) =~= seq![a] + r2.take(r1.len() as int));
            assert(t1 =~= seq![a] + r1);
        }
        if is_prefix(r2, r1) {
            assert(t1.take(t2.len() as int) =~= seq![a] + r1.take(r2.len() as int));
            assert(t2 =~= seq![a] + r2);
        }
        lemma_set_path_apart(c, r1, new, r2);
        lemma_replace_child_same(j, a, c2);
        lemma_edit_target_step(j2, t2);
        lemma_edit_target_step(j, t2);
    } else {
        if t1.len() == 1 {
            lemma_set_member_other(j, a, new, b);
        } else {
            let c = child(j, a)->Some_0;
            let c2 = set_path(c, t1.drop_first(), new)->Some_0;
            lemma_replace_child_other(j, a, c2, b);
        }
        if t2.len() == 1 {
            assert(t2 =~= seq![b]);
        } else {
            lemma_edit_target_step(j2, t2);
            lemma_edit_target_step(j, t2);
        }
    }
}

/// Replacing an edited document keeps every file at its position; adding one for a
/// new file keeps the others.
proof fn lemma_changed_positions(ch: Seq<(Seq<char>, JsonView)>, file: Seq<char>, v: JsonView, g: Seq<char>)
    ensures
        changed_position_of(ch, file) matches Some(p) ==> changed_position_of(ch.update(p, (file, v)), g) == changed_position_of(ch, g),
        (changed_position_of(ch, file) is None && g != file) ==> changed_position_of(ch.push((file, v)), g) == changed_position_of(ch, g),
        changed_position_of(ch, file) is None ==> changed_position_of(ch.push((file, v)), file) == Some(ch.len() as int),
{
    lemma_changed_position_props(ch, file);
    lemma_changed_position_props(ch, g);
    match changed_position_of(ch, file) {
        Some(p) => {
            let ch2 = ch.update(p, (file, v));
            match changed_position_of(ch, g) {
                Some(q) => {
                    assert forall|k: int| 0 <= k < q implies (#[trigger] ch2[k]).0 != g by {
                        assert(ch2[k].0 == ch[k].0);
                    }
                    assert(ch2[q].0 == ch[q].0);
                    lemma_changed_position_is(ch2, g, q);
                },
                None => {
                    assert forall|k: int| 0 <= k < ch2.len() implies (#[trigger] ch2[k]).0 != g by {
                        assert(ch2[k].0 == ch[k].0);
                    }
                    lemma_changed_position_absent(ch2, g);
                },
            }
        },
        None => {
            let ch2 = ch.push((file, v));
            assert forall|k: int| 0 <= k < ch.len() implies (#[trigger] ch2[k]).0 != file by {
                assert(ch2[k] == ch[k]);
            }
            lemma_changed_position_is(ch2, file, ch.len() as int);
            if g != file {
                match changed_position_of(ch, g) {
                    Some(q) => {
                        assert forall|k: int| 0 <= k < q implies (#[trigger] ch2[k]).0 != g by {
                            assert(ch2[k] == ch[k]);
                        }
                        assert(ch2[q] == ch[q]);
                        lemma_changed_position_is(ch2, g, q);
                    },
                    None => {
                        assert forall|k: int| 0 <= k < ch2.len() implies (#[trigger] ch2[k]).0 != g by {
                            if k < ch.len() {
                                assert(ch2[k] == ch[k]);
                            }
                        }
                        lemma_changed_position_absent(ch2, g);
                    },
                }
            }
        },
    }
}

/// An effective write of a value: the document edited for its file reads it back.
pub open spec fn reads_back(changed: Seq<(Seq<char>, JsonView)>, e: EditView) -> bool {
    (e.old != e.new && e.new is Some) ==> {
        &&& changed_position_of(changed, e.target.file) is Some
        &&& edit_target(changed[changed_position_of(changed, e.target.file)->Some_0].1,
            pointer_tokens(e.target.pointer)->Some_0) == Some(e.new)
    }
}

proof fn lemma_materialize_reads_back(configs: ConfigSet, edits: Seq<EditView>, k: nat, st: Materializing)
    requires
        k <= edits.len(),
        st.seen.len() == k,
        forall|i: int| 0 <= i < k ==> #[trigger] st.seen[i].0 == edits[i].target.file
            && pointer_tokens(edits[i].target.pointer) == Some(st.seen[i].1),
        forall|i: int| 0 <= i < k ==> reads_back(st.changed, #[trigger] edits[i]),
    ensures
        materialize_from(configs, edits, k, st) matches Ok(changed) ==>
            forall|i: int| 0 <= i < edits.len() ==> reads_back(changed, #[trigger] edits[i]),
    decreases edits.len() - k,
{
    if k < edits.len() {
        let e = edits[k as int];
        if let Ok(next) = materialize_step(configs, st, e) {
            let file = e.target.file;
            let t = pointer_tokens(e.target.pointer)->Some_0;
            assert(pointer_tokens(e.target.pointer) is Some);
            assert(clash(st.seen, file, t) is None);
            assert(next.seen == st.seen.push((file, t)));
            if e.old == e.new {
                assert(next.changed == st.changed);
            } else {
                let pos = changed_position_of(st.changed, file);
                let base = match pos {
                    Some(p) => st.changed[p].1,
                    None => find_doc(configs.all_docs(), file).unwrap(),
                };
                let v = set_path(base, t, e.new)->Some_0;
                assert(set_path(base, t, e.new) is Some);
                lemma_changed_position_props(st.changed, file);
                assert forall|i: int| 0 <= i < k + 1 implies reads_back(next.changed, #[trigger] edits[i]) by {
                    let ei = edits[i];
                    let g = ei.target.file;
                    lemma_changed_positions(st.changed, file, v, g);
                    if ei.old != ei.new && ei.new is Some {
                        if i == k {
                            lemma_set_path_reads_back(base, t, ei.new->Some_0);
                        } else {
                            assert(reads_back(st.changed, ei));
                            let ti = pointer_tokens(ei.target.pointer)->Some_0;
                            let q = changed_position_of(st.changed, g)->Some_0;
                            lemma_changed_position_props(st.changed, g);
                            if g == file {
                                assert(st.seen[i].0 == file);
                                if is_prefix(st.seen[i].1, t) || is_prefix(t, st.seen[i].1) {
                                    assert(clash(st.seen, file, t) is Some);
                                }
                                assert(pos == Some(q));
                                assert(ti.len() > 0) by {
                                    if ti.len() == 0 {
                                        assert(edit_target(st.changed[q].1, ti) is None);
                                    }
                                }
                                lemma_set_path_apart(base, t, e.new, ti);
                            } else {
                                match pos {
                                    Some(p) => {
                                        assert(p != q);
                                    },
                                    None => {
                                        assert(st.changed.push((file, v))[q] == st.changed[q]);
                                    },
                                }
                            }
                        }
                    }
                }
            }
            lemma_materialize_reads_back(configs, edits, k + 1, next);
        }
    }
}

/// Applying a plan writes what it says: for every edit that sets a value (and
/// changes it), the edited document of its file holds that value at its location.
pub proof fn law_applied_edits_read_back(configs: ConfigSet, edits: Seq<EditView>)
    ensures
        materialized(configs, edits) matches Ok(changed) ==>
            forall|i: int| 0 <= i < edits.len() ==> reads_back(changed, #[trigger] edits[i]),
{
    lemma_materialize_reads_back(configs, edits, 0, Materializing { seen: Seq::empty(), changed: Seq::empty() });
}

/// No object in `j` has two members with the same key (as in any JSON text a
/// parser reads into a map).
pub open spec fn unique_keys(j: JsonView) -> bool
    decreases j,
{
    match j {
        JsonView::Object(ms) => (forall|a: int, b: int| 0 <= a < b < ms.len() ==> #[trigger] ms[a].0 != #[trigger] ms[b].0)
            && (forall|i: int| 0 <= i < ms.len() ==> unique_keys(#[trigger] ms[i].1)),
        JsonView::Array(items) => forall|i: int| 0 <= i < items.len() ==> unique_keys(#[trigger] items[i]),
        _ => true,
    }
}

proof fn lemma_child_unique(j: JsonView, a: Seq<char>)
    requires
        unique_keys(j),
        child(j, a) is Some,
    ensures
        unique_keys(child(j, a)->Some_0),
{
    match j {
        JsonView::Object(ms) => {
            lemma_key_position_found(ms, a);
            let p = key_position(ms, a)->Some_0;
            assert(unique_keys(ms[p].1));
        },
        JsonView::Array(items) => {
            let n = array_index(a)->Some_0;
            assert(unique_keys(items[n as int]));
        },
        _ => {},
    }
}

proof fn lemma_replace_child_unique(j: JsonView, a: Seq<char>, c: JsonView)
    requires
        unique_keys(j),
        unique_keys(c),
    ensures
        unique_keys(replace_child(j, a, c)),
{
    match j {
        JsonView::Object(ms) => {
            lemma_key_position_found(ms, a);
            if let Some(p) = key_position(ms, a) {
                let ms2 = ms.update(p, (ms[p].0, c));
                assert forall|x: int, y: int| 0 <= x < y < ms2.len() implies #[trigger] ms2[x].0 != #[trigger] ms2[y].0 by {
                    assert(ms2[x].0 == ms[x].0 && ms2[y].0 == ms[y].0);
                    assert(ms[x].0 != ms[y].0);
                }
                assert forall|i: int| 0 <= i < ms2.len() implies unique_keys(#[trigger] ms2[i].1) by {
                    if i != p {
                        assert(ms2[i] == ms[i]);
                        assert(unique_keys(ms[i].1));
                    }
                }
            }
        },
        JsonView::Array(items) => {
            if let Some(n) = array_index(a) {
                if n < items.len() {
                    let items2 = items.update(n as int, c);
                    assert forall|i: int| 0 <= i < items2.len() implies unique_keys(#[trigger] items2[i]) by {
                        if i != n {
                            assert(unique_keys(items[i]));
                        }
                    }
                }
            }
        },
        _ => {},
    }
}

proof fn lemma_set_member_unique(j: JsonView, a: Seq<char>, new: Option<JsonView>)
    requires
        unique_keys(j),
        set_member(j, a, new) is Some,
        new matches Some(v) ==> unique_keys(v),
    ensures
        unique_keys(set_member(j, a, new)->Some_0),
{
    match j {
        JsonView::Object(ms) => {
            lemma_key_position_found(ms, a);
            match key_position(ms, a) {
                Some(p) => match new {
                    Some(v) => {
                        let ms2 = ms.update(p, (a, v));
                        assert forall|x: int, y: int| 0 <= x < y < ms2.len() implies #[trigger] ms2[x].0 != #[trigger] ms2[y].0 by {
                            assert(ms2[x].0 == ms[x].0 && ms2[y].0 == ms[y].0);
                            assert(ms[x].0 != ms[y].0);
                        }
                        assert forall|i: int| 0 <= i < ms2.len() implies unique_keys(#[trigger] ms2[i].1) by {
                            if i != p {
                                assert(ms2[i] == ms[i]);
                                assert(unique_keys(ms[i].1));
                            }
                        }
                    },
                    None => {
                        let ms2 = ms.remove(p);
                        assert forall|x: int, y: int| 0 <= x < y < ms2.len() implies #[trigger] ms2[x].0 != #[trigger] ms2[y].0 by {
                            let x0 = if x < p { x } else { x + 1 };
                            let y0 = if y < p { y } else { y + 1 };
                            assert(ms2[x] == ms[x0] && ms2[y] == ms[y0]);
                            assert(ms[x0].0 != ms[y0].0);
                        }
                        assert forall|i: int| 0 <= i < ms2.len() implies unique_keys(#[trigger] ms2[i].1) by {
                            let i0 = if i < p { i } else { i + 1 };
                            assert(ms2[i] == ms[i0]);
                            assert(unique_keys(ms[i0].1));
                        }
                    },
                },
                None => match new {
                    Some(v) => {
                        let ms2 = ms.push((a, v));
                        assert forall|x: int, y: int| 0 <= x < y < ms2.len() implies #[trigger] ms2[x].0 != #[trigger] ms2[y].0 by {
                            assert(ms2[x] == ms[x]);
                            if y < ms.len() {
                                assert(ms2[y] == ms[y]);
                                assert(ms[x].0 != ms[y].0);
                            } else {
                                assert(ms2[y].0 == a);
                                assert(ms[x].0 != a);
                            }
                        }
                        assert forall|i: int| 0 <= i < ms2.len() implies unique_keys(#[trigger] ms2[i].1) by {
                            if i < ms.len() {
                                assert(ms2[i] == ms[i]);
                                assert(unique_keys(ms[i].1));
                            }
                        }
                    },
                    None => {},
                },
            }
        },
        JsonView::Array(items) => {
            let n = array_index(a)->Some_0;
            let v = new->Some_0;
            let items2 = items.update(n as int, v);
            assert forall|i: int| 0 <= i < items2.len() implies unique_keys(#[trigger] items2[i]) by {
                if i != n {
                    assert(unique_keys(items[i]));
                }
            }
        },
        _ => {},
    }
}

/// Edits keep every object free of repeated keys.
proof fn lemma_set_path_unique(j: JsonView, t: Seq<Seq<char>>, new: Option<JsonView>)
    requires
        unique_keys(j),
        set_path(j, t, new) is Some,
        new matches Some(v) ==> unique_keys(v),
    ensures
        unique_keys(set_path(j, t, new)->Some_0),
    decreases t.len(),
{
    if t.len() == 1 {
        lemma_set_member_unique(j, t[0], new);
    } else {
        let c = child(j, t[0])->Some_0;
        lemma_child_unique(j, t[0]);
        lemma_set_path_unique(c, t.drop_first(), new);
        lemma_replace_child_unique(j, t[0], set_path(c, t.drop_first(), new)->Some_0);
    }
}

/// Removing a member leaves its location absent, when no object repeats a key.
proof fn lemma_set_path_removes(j: JsonView, t: Seq<Seq<char>>)
    requires
        unique_keys(j),
        set_path(j, t, None) is Some,
    ensures
        edit_target(set_path(j, t, None)->Some_0, t) == Some(None::<JsonView>),
    decreases t.len(),
{
    let j2 = set_path(j, t, None)->Some_0;
    if t.len() == 1 {
        assert(t.drop_last() =~= Seq::<Seq<char>>::empty());
        let a = t[0];
        assert(t.last() == a);
        if let JsonView::Object(ms) = j {
            lemma_key_position_found(ms, a);
            match key_position(ms, a) {
                Some(p) => {
                    let ms2 = ms.remove(p);
                    assert forall|k: int| 0 <= k < ms2.len() implies ms2[k].0 != a by {
                        if k < p {
                            assert(ms2[k] == ms[k]);
                        } else {
                            assert(ms2[k] == ms[k + 1]);
                            assert(ms[p].0 != ms[k + 1].0);
                        }
                    }
                    lemma_key_position_absent(ms2, a);
                },
                None => {},
            }
        }
    } else {
        let c = child(j, t[0])->Some_0;
        let c2 = set_path(c, t.drop_first(), None)->Some_0;
        lemma_child_unique(j, t[0]);
        lemma_set_path_removes(c, t.drop_first());
        lemma_replace_child_same(j, t[0], c2);
        lemma_edit_target_step(j2, t);
    }
}

/// No supplied document repeats a key in any object.
pub open spec fn docs_unique(configs: ConfigSet) -> bool {
    forall|i: int| 0 <= i < configs.all_docs().len() ==> unique_keys(#[trigger] configs.all_docs()[i].value)
}

proof fn lemma_find_doc_unique(configs: ConfigSet, file: Seq<char>)
    requires
        docs_unique(configs),
    ensures
        find_doc(configs.all_docs(), file) matches Some(d) ==> unique_keys(d),
{
    let docs = configs.all_docs();
    lemma_first_match_props(docs, |d: DocView| d.path == file, 0);
    if let Some(p) = crate::config::first_match(docs, |d: DocView| d.path == file, 0) {
        assert(unique_keys(docs[p].value));
    }
}

/// An effective removal: the document edited for its file no longer holds the
/// member.
pub open spec fn removal_reads_back(changed: Seq<(Seq<char>, JsonView)>, e: EditView) -> bool {
    (e.old != e.new && e.new is None) ==> {
        &&& changed_position_of(changed, e.target.file) is Some
        &&& edit_target(changed[changed_position_of(changed, e.target.file)->Some_0].1,
            pointer_tokens(e.target.pointer)->Some_0) == Some(None::<JsonView>)
    }
}

proof fn lemma_materialize_removals(configs: ConfigSet, edits: Seq<EditView>, k: nat, st: Materializing)
    requires
        docs_unique(configs),
        forall|i: int| 0 <= i < edits.len() ==> ((#[trigger] edits[i]).new matches Some(v) ==> unique_keys(v)),
        forall|q: int| 0 <= q < st.changed.len() ==> unique_keys(#[trigger] st.changed[q].1),
        k <= edits.len(),
        st.seen.len() == k,
        forall|i: int| 0 <= i < k ==> #[trigger] st.seen[i].0 == edits[i].target.file
            && pointer_tokens(edits[i].target.pointer) == Some(st.seen[i].1),
        forall|i: int| 0 <= i < k ==> removal_reads_back(st.changed, #[trigger] edits[i]),
    ensures
        materialize_from(configs, edits, k, st) matches Ok(changed) ==>
            forall|i: int| 0 <= i < edits.len() ==> removal_reads_back(changed, #[trigger] edits[i]),
    decreases edits.len() - k,
{
    if k < edits.len() {
        let e = edits[k as int];
        if let Ok(next) = materialize_step(configs, st, e) {
            let file = e.target.file;
            let t = pointer_tokens(e.target.pointer)->Some_0;
            assert(pointer_tokens(e.target.pointer) is Some);
            assert(clash(st.seen, file, t) is None);
            assert(next.seen == st.seen.push((file, t)));
            if e.old == e.new {
                assert(next.changed == st.changed);
            } else {
                let pos = changed_position_of(st.changed, file);
                lemma_changed_position_props(st.changed, file);
                lemma_find_doc_unique(configs, file);
                let base = match pos {
                    Some(p) => st.changed[p].1,
                    None => find_doc(configs.all_docs(), file).unwrap(),
                };
                assert(unique_keys(base));
                let v = set_path(base, t, e.new)->Some_0;
                assert(set_path(base, t, e.new) is Some);
                lemma_set_path_unique(base, t, e.new);
                assert forall|q: int| 0 <= q < next.changed.len() implies unique_keys(#[trigger] next.changed[q].1) by {
                    match pos {
                        Some(p) => {
                            if q != p {
                                assert(next.changed[q] == st.changed[q]);
                            }
                        },
                        None => {
                            if q < st.changed.len() {
                                assert(next.changed[q] == st.changed[q]);
                            }
                        },
                    }
                }
                assert forall|i: int| 0 <= i < k + 1 implies removal_reads_back(next.changed, #[trigger] edits[i]) by {
                    let ei = edits[i];
                    let g = ei.target.file;
                    lemma_changed_positions(st.changed, file, v, g);
                    if ei.old != ei.new && ei.new is None {
                        if i == k {
                            lemma_set_path_removes(base, t);
                        } else {
                            assert(removal_reads_back(st.changed, ei));
                            let ti = pointer_tokens(ei.target.pointer)->Some_0;
                            let q = changed_position_of(st.changed, g)->Some_0;
                            lemma_changed_position_props(st.changed, g);
                            if g == file {
                                assert(st.seen[i].0 == file);
                                if is_prefix(st.seen[i].1, t) || is_prefix(t, st.seen[i].1) {
                                    assert(clash(st.seen, file, t) is Some);
                                }
                                assert(pos == Some(q));
                                assert(ti.len() > 0) by {
                                    if ti.len() == 0 {
                                        assert(edit_target(st.changed[q].1, ti) is None);
                                    }
                                }
                                lemma_set_path_apart(base, t, e.new, ti);
                            } else {
                                match pos {
                                    Some(p) => {
                                        assert(p != q);
                                    },
                                    None => {
                                        assert(st.changed.push((file, v))[q] == st.changed[q]);
                                    },
                                }
                            }
                        }
                    }
                }
            }
            lemma_materialize_removals(configs, edits, k + 1, next);
        }
    }
}

/// Applying a plan removes what it says: for every edit that removes a member
/// (and so changes something), the edited document of its file no longer holds
/// it — as long as no object repeats a key, in the configs or in the new values
/// (no JSON text read into a map does; a repeated key would leave its other
/// occurrence behind).
pub proof fn law_applied_removals_read_back(configs: ConfigSet, edits: Seq<EditView>)
    requires
        docs_unique(configs),
        forall|i: int| 0 <= i < edits.len() ==> ((#[trigger] edits[i]).new matches Some(v) ==> unique_keys(v)),
    ensures
        materialized(configs, edits) matches Ok(changed) ==>
            forall|i: int| 0 <= i < edits.len() ==> removal_reads_back(changed, #[trigger] edits[i]),
{
    lemma_materialize_removals(configs, edits, 0, Materializing { seen: Seq::empty(), changed: Seq::empty() });
}

// ---------------------------------------------------------------------------
// The locations a plan edits do not depend on the values generated for it.

proof fn lemma_edit_target_of_lookup(j: JsonView, t: Seq<Seq<char>>)
    requires
        t.len() > 0,
        lookup(j, t) is Some,
    ensures
        edit_target(j, t) == Some(lookup(j, t)),
    decreases t.len(),
{
    if t.len() == 1 {
        assert(t.drop_last() =~= Seq::<Seq<char>>::empty());
        assert(t.last() == t[0]);
        assert(t.drop_first() =~= Seq::<Seq<char>>::empty());
        if let JsonView::Object(ms) = j {
            lemma_key_position_found(ms, t[0]);
        }
    } else {
        let c = child(j, t[0])->Some_0;
        lemma_edit_target_of_lookup(c, t.drop_first());
        lemma_edit_target_step(j, t);
    }
}

/// A location holding a value can be edited, and the edit records that value.
proof fn lemma_current_of_value(configs: ConfigSet, file: Seq<char>, pointer: Seq<char>)
    requires
        pointer.len() > 0,
        configs.spec_value(file, pointer) is Some,
    ensures
        config_edit_target(configs, file, pointer) == Some(configs.spec_value(file, pointer)),
{
    let doc = find_doc(configs.all_docs(), file)->Some_0;
    let t = pointer_tokens(pointer)->Some_0;
    assert(t.len() > 0);
    lemma_edit_target_of_lookup(doc, t);
}

/// The edit a request makes when it changes its location.
pub open spec fn planned(configs: ConfigSet, r: (ConfigRefView, Option<JsonView>)) -> EditView {
    EditView { target: r.0, old: config_edit_target(configs, r.0.file, r.0.pointer)->Some_0, new: r.1 }
}

/// Requests from `k` on that each change an editable location give one edit each.
proof fn lemma_plan_edits_all(edits: Seq<EditView>, configs: ConfigSet, reqs: Seq<(ConfigRefView, Option<JsonView>)>, k: nat)
    requires
        k <= reqs.len(),
        forall|j: int| k <= j < reqs.len() ==> (config_edit_target(configs, (#[trigger] reqs[j]).0.file, reqs[j].0.pointer) matches Some(cur)
            && cur != reqs[j].1),
    ensures
        plan_edits(edits, configs, reqs, k)
            == Ok::<Seq<EditView>, ErrorKind>(edits + Seq::new((reqs.len() - k) as nat, |j: int| planned(configs, reqs[k + j]))),
    decreases reqs.len() - k,
{
    if k < reqs.len() {
        let r = reqs[k as int];
        let next = edits.push(planned(configs, r));
        lemma_plan_edits_all(next, configs, reqs, k + 1);
        assert(next + Seq::new((reqs.len() - (k + 1)) as nat, |j: int| planned(configs, reqs[k + 1 + j]))
            =~= edits + Seq::new((reqs.len() - k) as nat, |j: int| planned(configs, reqs[k + j])));
    } else {
        assert(edits + Seq::new(0, |j: int| planned(configs, reqs[k + j])) =~= edits);
    }
}

/// The locations of two edit lists, and what the locations hold now, agree.
pub open spec fn same_topology(a: Seq<EditView>, b: Seq<EditView>) -> bool {
    a.len() == b.len() && forall|i: int| 0 <= i < a.len() ==> #[trigger] a[i].target == b[i].target && a[i].old == b[i].old
}

/// Two request lists with the same locations, each changing every location, give
/// edits of the same topology.
proof fn lemma_same_topology(configs: ConfigSet, r1: Seq<(ConfigRefView, Option<JsonView>)>, r2: Seq<(ConfigRefView, Option<JsonView>)>)
    requires
        r1.len() == r2.len(),
        forall|j: int| 0 <= j < r1.len() ==> (#[trigger] r1[j]).0 == r2[j].0,
        forall|j: int| 0 <= j < r1.len() ==> (config_edit_target(configs, (#[trigger] r1[j]).0.file, r1[j].0.pointer) matches Some(cur)
            && cur != r1[j].1),
        forall|j: int| 0 <= j < r2.len() ==> (config_edit_target(configs, (#[trigger] r2[j]).0.file, r2[j].0.pointer) matches Some(cur)
            && cur != r2[j].1),
    ensures
        plan_edits(Seq::empty(), configs, r1, 0) matches Ok(a) && plan_edits(Seq::empty(), configs, r2, 0) matches Ok(b)
            && same_topology(a, b),
{
    lemma_plan_edits_all(Seq::empty(), configs, r1, 0);
    lemma_plan_edits_all(Seq::empty(), configs, r2, 0);
    let a = plan_edits(Seq::empty(), configs, r1, 0)->Ok_0;
    let b = plan_edits(Seq::empty(), configs, r2, 0)->Ok_0;
    assert forall|i: int| 0 <= i < a.len() implies #[trigger] a[i].target == b[i].target && a[i].old == b[i].old by {
        assert(a[i] == planned(configs, r1[i]));
        assert(b[i] == planned(configs, r2[i]));
    }
}

proof fn lemma_client_obfs_passwords_at(configs: ConfigSet, cs: Seq<EndpointView>, t: Seq<char>, i: nat)
    requires
        client_obfs_passwords(configs, cs, t, i) is Ok,
        i <= cs.len(),
    ensures
        client_obfs_passwords(configs, cs, t, i)->Ok_0.len() == cs.len() - i,
        forall|k: int| i <= k < cs.len() ==> string_at(configs, #[trigger] cs[k], "obfs/password"@)
            == Ok::<Seq<char>, ErrorKind>(client_obfs_passwords(configs, cs, t, i)->Ok_0[k - i]),
    decreases cs.len() - i,
{
    if i < cs.len() {
        lemma_client_obfs_passwords_at(configs, cs, t, i + 1);
        let rest = client_obfs_passwords(configs, cs, t, i + 1)->Ok_0;
        let all = client_obfs_passwords(configs, cs, t, i)->Ok_0;
        assert forall|k: int| i <= k < cs.len() implies string_at(configs, #[trigger] cs[k], "obfs/password"@)
            == Ok::<Seq<char>, ErrorKind>(all[k - i]) by {
            if k > i {
                assert(all[k - i] == rest[k - (i + 1)]);
            }
        }
    }
}

proof fn lemma_public_keys_at(configs: ConfigSet, cs: Seq<EndpointView>, i: nat)
    requires
        public_keys(configs, cs, i) is Ok,
        i <= cs.len(),
    ensures
        public_keys(configs, cs, i)->Ok_0.len() == cs.len() - i,
        forall|k: int| i <= k < cs.len() ==> string_at(configs, #[trigger] cs[k], "tls/reality/public_key"@)
            == Ok::<Seq<char>, ErrorKind>(public_keys(configs, cs, i)->Ok_0[k - i]),
    decreases cs.len() - i,
{
    if i < cs.len() {
        lemma_public_keys_at(configs, cs, i + 1);
        let rest = public_keys(configs, cs, i + 1)->Ok_0;
        let all = public_keys(configs, cs, i)->Ok_0;
        assert forall|k: int| i <= k < cs.len() implies string_at(configs, #[trigger] cs[k], "tls/reality/public_key"@)
            == Ok::<Seq<char>, ErrorKind>(all[k - i]) by {
            if k > i {
                assert(all[k - i] == rest[k - (i + 1)]);
            }
        }
    }
}

/// A request to write a string where a different string is: the location can be
/// edited and the edit changes it.
proof fn lemma_string_changes(configs: ConfigSet, ep: EndpointView, field: Seq<char>, now: Seq<char>, v: Seq<char>)
    requires
        string_at(configs, ep, field) == Ok::<Seq<char>, ErrorKind>(now),
        now != v,
    ensures
        config_edit_target(configs, field_ref(ep, field).file, field_ref(ep, field).pointer) matches Some(cur)
            && cur != Some(JsonView::String(v)),
{
    let r = field_ref(ep, field);
    assert(r.pointer.len() > 0) by {
        assert(r.pointer == ep.config.pointer + "/"@ + field);
        assert(("/"@).len() == 1) by { reveal_strlit("/"); }
    }
    lemma_current_of_value(configs, r.file, r.pointer);
}

/// Every request of an obfs rotation to a new password changes its location.
proof fn lemma_obfs_requests_change(configs: ConfigSet, svc: ServiceView, v: Seq<char>)
    requires
        service_obfs_preflight(configs, svc) matches Ok(old) && !seq_contains_str(old, v),
    ensures
        forall|j: int| 0 <= j < obfs_requests(svc, v).len() ==> (config_edit_target(configs, (#[trigger] obfs_requests(svc, v)[j]).0.file,
            obfs_requests(svc, v)[j].0.pointer) matches Some(cur) && cur != obfs_requests(svc, v)[j].1),
{
    let old = service_obfs_preflight(configs, svc)->Ok_0;
    let t = string_at(configs, svc.inbound, "obfs/type"@)->Ok_0;
    let p = string_at(configs, svc.inbound, "obfs/password"@)->Ok_0;
    let cs = service_clients(svc);
    let rest = client_obfs_passwords(configs, cs, t, 0)->Ok_0;
    assert(old == seq![p] + rest);
    lemma_client_obfs_passwords_at(configs, cs, t, 0);
    let rr = obfs_requests(svc, v);
    assert forall|j: int| 0 <= j < rr.len() implies (config_edit_target(configs, (#[trigger] rr[j]).0.file, rr[j].0.pointer) matches Some(cur)
        && cur != rr[j].1) by {
        if j == 0 {
            assert(old[0] == p);
            lemma_string_changes(configs, svc.inbound, "obfs/password"@, p, v);
        } else {
            assert(old[j] == rest[j - 1]);
            lemma_string_changes(configs, cs[j - 1], "obfs/password"@, rest[j - 1], v);
        }
    }
}

/// Every request of a keypair rotation to new keys changes its location.
proof fn lemma_keypair_requests_change(configs: ConfigSet, svc: ServiceView, private: Seq<char>, public: Seq<char>)
    requires
        service_keypair_preflight(configs, svc) matches Ok((old, cs, pubs)) && private != old && !pubs.contains(public),
    ensures
        ({
            let cs = service_keypair_preflight(configs, svc)->Ok_0.1;
            let rr = keypair_requests(svc, cs, private, public);
            forall|j: int| 0 <= j < rr.len() ==> (config_edit_target(configs, (#[trigger] rr[j]).0.file, rr[j].0.pointer) matches Some(cur)
                && cur != rr[j].1)
        }),
{
    let (old, cs, pubs) = service_keypair_preflight(configs, svc)->Ok_0;
    lemma_public_keys_at(configs, cs, 0);
    let rr = keypair_requests(svc, cs, private, public);
    assert forall|j: int| 0 <= j < rr.len() implies (config_edit_target(configs, (#[trigger] rr[j]).0.file, rr[j].0.pointer) matches Some(cur)
        && cur != rr[j].1) by {
        if j == 0 {
            lemma_string_changes(configs, svc.inbound, "tls/reality/private_key"@, old, private);
        } else {
            assert(pubs[j - 1] != public);
            lemma_string_changes(configs, cs[j - 1], "tls/reality/public_key"@, pubs[j - 1], public);
        }
    }
}

/// A plan shows a rotation with values generated for the preview, and the
/// rotation generates its own: whatever values sing-box returns, an obfs or
/// keypair rotation edits the same locations and records the same current values;
/// only the new values differ.
pub proof fn law_generated_values_keep_the_topology(configs: ConfigSet, inv: InventoryView, input: Input,
    v1: Seq<char>, v2: Seq<char>, private1: Seq<char>, public1: Seq<char>, private2: Seq<char>, public2: Seq<char>)
    ensures
        obfs_outcome(configs, inv, input, v1) matches Ok(a)
            ==> (obfs_outcome(configs, inv, input, v2) matches Ok(b) ==> same_topology(a, b)),
        keypair_outcome(configs, inv, input, private1, public1) matches Ok(a)
            ==> (keypair_outcome(configs, inv, input, private2, public2) matches Ok(b) ==> same_topology(a, b)),
{
    if obfs_outcome(configs, inv, input, v1) is Ok && obfs_outcome(configs, inv, input, v2) is Ok {
        let si = chosen_service(configs, inv, input, Some(Protocol::Hysteria2), false, Eligibility::Any)->Ok_0;
        let svc = inv.services[si];
        lemma_obfs_requests_change(configs, svc, v1);
        lemma_obfs_requests_change(configs, svc, v2);
        let r1 = obfs_requests(svc, v1);
        let r2 = obfs_requests(svc, v2);
        assert forall|j: int| 0 <= j < r1.len() implies (#[trigger] r1[j]).0 == r2[j].0 by {}
        lemma_same_topology(configs, r1, r2);
    }
    if keypair_outcome(configs, inv, input, private1, public1) is Ok && keypair_outcome(configs, inv, input, private2, public2) is Ok {
        let si = chosen_service(configs, inv, input, Some(Protocol::Vless), false, Eligibility::RealityClients)->Ok_0;
        let svc = inv.services[si];
        let cs = service_keypair_preflight(configs, svc)->Ok_0.1;
        lemma_keypair_requests_change(configs, svc, private1, public1);
        lemma_keypair_requests_change(configs, svc, private2, public2);
        let r1 = keypair_requests(svc, cs, private1, public1);
        let r2 = keypair_requests(svc, cs, private2, public2);
        assert forall|j: int| 0 <= j < r1.len() implies (#[trigger] r1[j]).0 == r2[j].0 by {}
        lemma_same_topology(configs, r1, r2);
    }
}

/// Recovery never undoes a finished transaction (one committed or already rolled
/// back is only cleaned up), never changes configs of a transaction that never
/// started, and never rolls back over an external edit: when a source changed or
/// a file is in conflict, only a preview goes ahead.
pub proof fn law_recovery_is_conservative(finished: Option<Finished>, started: bool, source_conflict: bool, statuses: Seq<Status>,
    dry_run: bool)
    ensures
        (finished is Some || !started) ==> spec_recovery_action(finished, started, source_conflict, statuses, dry_run)
            == Ok::<Action, ErrorKind>(Action::Clean),
        spec_recovery_action(finished, started, source_conflict, statuses, dry_run) == Ok::<Action, ErrorKind>(Action::RollBack)
            ==> finished is None && started && (dry_run || (!source_conflict && !any_conflict(statuses))),
        (!dry_run && finished is None && started && (source_conflict || any_conflict(statuses)))
            ==> spec_recovery_action(finished, started, source_conflict, statuses, dry_run) == Err::<Action, ErrorKind>(ErrorKind::RecoveryConflict),
{
}

/// A location that rotating identity `id` may edit: one of its server users, or
/// the credential of one of its clients.
pub open spec fn identity_location(protocol: Protocol, id: IdentityView, target: ConfigRefView) -> bool {
    (exists|r: int| 0 <= r < id.server_refs.len() && target == id.server_refs[r])
        || (exists|c: int| 0 <= c < id.clients.len() && target == field_ref(id.clients[c], protocol.spec_credential()))
}

/// An edit belongs to a selected identity of a service of the protocol.
pub open spec fn selected_identity_edit(configs: ConfigSet, input: Input, protocol: Protocol, svcs: Seq<ServiceView>, e: EditView) -> bool {
    exists|s: int, k: int| 0 <= s < svcs.len() && 0 <= k < svcs[s].identities.len()
        && svcs[s].protocol == protocol
        && some_selected_client(configs, input, svcs[s].identities[k].clients, true)
        && identity_location(protocol, svcs[s].identities[k], e.target)
}

proof fn lemma_local_identities(configs: ConfigSet, input: Input, protocol: Protocol, svcs: Seq<ServiceView>, s: int,
    gens: Seq<Seq<char>>, st: IdentityState, k: nat)
    requires
        0 <= s < svcs.len(),
        svcs[s].protocol == protocol,
        forall|m: int| 0 <= m < st.edits.len() ==> selected_identity_edit(configs, input, protocol, svcs, #[trigger] st.edits[m]),
    ensures
        rotate_identities(configs, input, protocol, svcs[s].identities, gens, st, k) matches Ok(out) ==>
            forall|m: int| 0 <= m < out.edits.len() ==> selected_identity_edit(configs, input, protocol, svcs, #[trigger] out.edits[m]),
    decreases k,
{
    let ids = svcs[s].identities;
    if k > 0 {
        lemma_local_identities(configs, input, protocol, svcs, s, gens, st, (k - 1) as nat);
        if let Ok(prev) = rotate_identities(configs, input, protocol, ids, gens, st, (k - 1) as nat) {
            if k <= ids.len() && some_selected_client(configs, input, ids[k - 1].clients, true) && prev.count < gens.len() {
                let id = ids[k - 1];
                let v = gens[prev.count as int];
                let reqs = identity_requests(protocol, id, v);
                lemma_plan_edits_shape(prev.edits, configs, reqs, 0);
                if v.len() > 0 && !seq_contains_str(prev.used, v) {
                    if let Ok(next) = plan_edits(prev.edits, configs, reqs, 0) {
                        assert forall|m: int| 0 <= m < next.len() implies
                            selected_identity_edit(configs, input, protocol, svcs, #[trigger] next[m]) by {
                            if m < prev.edits.len() {
                                assert(next[m] == next.take(prev.edits.len() as int)[m]);
                            } else {
                                let r = choose|r: int| 0 <= r < reqs.len() && next[m].target == reqs[r].0 && next[m].new == reqs[r].1;
                                let nr = id.server_refs.len() as int;
                                if r < nr {
                                    assert(next[m].target == id.server_refs[r]);
                                } else {
                                    assert(next[m].target == field_ref(id.clients[r - nr], protocol.spec_credential()));
                                }
                                assert(identity_location(protocol, ids[k - 1], next[m].target));
                                assert(svcs[s].identities[k - 1] == id);
                            }
                        }
                    }
                }
            }
        }
    }
}

proof fn lemma_local_services(configs: ConfigSet, input: Input, protocol: Protocol, svcs: Seq<ServiceView>, gens: Seq<Seq<char>>,
    init: IdentityState, s: nat)
    requires
        forall|m: int| 0 <= m < init.edits.len() ==> selected_identity_edit(configs, input, protocol, svcs, #[trigger] init.edits[m]),
    ensures
        rotate_services(configs, input, protocol, svcs, gens, init, s) matches Ok(out) ==>
            forall|m: int| 0 <= m < out.edits.len() ==> selected_identity_edit(configs, input, protocol, svcs, #[trigger] out.edits[m]),
    decreases s,
{
    if s > 0 {
        lemma_local_services(configs, input, protocol, svcs, gens, init, (s - 1) as nat);
        if let Ok(prev) = rotate_services(configs, input, protocol, svcs, gens, init, (s - 1) as nat) {
            if s <= svcs.len() && svcs[s - 1].protocol == protocol {
                lemma_local_identities(configs, input, protocol, svcs, s - 1, gens, prev, svcs[s - 1].identities.len());
            }
        }
    }
}

/// An identity rotation edits only identities of the kind's protocol that have a
/// selected client, and of those only the server users and the clients' credentials:
/// unselected identities, unmatched or ambiguous clients and every other field stay
/// as they are.
pub proof fn law_identity_rotation_stays_on_selected_identities(configs: ConfigSet, inv: InventoryView, input: Input, kind: IdentityKind,
    gens: Seq<Seq<char>>)
    ensures
        identities_outcome(configs, inv, input, kind, gens) matches Ok(edits) ==>
            forall|i: int| 0 <= i < edits.len() ==>
                selected_identity_edit(configs, input, kind.spec_protocol(), inv.services, #[trigger] edits[i]),
{
    let protocol = kind.spec_protocol();
    lemma_local_services(configs, input, protocol, inv.services, gens, initial_identity_state(configs, protocol), inv.services.len());
}

// ---------------------------------------------------------------------------
// Discovery binds clients by credential.

/// No identity has clients yet.
pub open spec fn no_clients(svcs: Seq<ServiceView>) -> bool {
    forall|s: int, i: int| 0 <= s < svcs.len() && 0 <= i < svcs[s].identities.len()
        ==> (#[trigger] svcs[s].identities[i]).clients.len() == 0
}

proof fn lemma_add_users_no_clients(svc: ServiceView, users: Seq<JsonView>, k: nat)
    requires
        forall|i: int| 0 <= i < svc.identities.len() ==> (#[trigger] svc.identities[i]).clients.len() == 0,
    ensures
        add_users(svc, users, k) matches Ok(out) ==>
            forall|i: int| 0 <= i < out.identities.len() ==> (#[trigger] out.identities[i]).clients.len() == 0,
    decreases users.len() - k,
{
    if k < users.len() {
        crate::binding::lemma_add_user_keeps_clients(svc, k, users[k as int]);
        if let Ok(next) = add_user(svc, k, users[k as int]) {
            assert forall|i: int| 0 <= i < next.identities.len() implies (#[trigger] next.identities[i]).clients.len() == 0 by {
                if i < svc.identities.len() {
                    assert(next.identities[i].clients == svc.identities[i].clients);
                }
            }
            lemma_add_users_no_clients(next, users, k + 1);
        }
    }
}

proof fn lemma_add_inbounds_no_clients(svcs: Seq<ServiceView>, file: Seq<char>, inbounds: Seq<JsonView>, k: nat, tags: Seq<Seq<char>>)
    requires
        no_clients(svcs),
    ensures
        add_inbounds(svcs, file, inbounds, k, tags) matches Ok(out) ==> no_clients(out),
    decreases inbounds.len() - k,
{
    if k < inbounds.len() {
        if let Ok(next) = add_inbound(svcs, file, k, inbounds[k as int], tags) {
            if let Some(p) = protocol_of(inbounds[k as int]) {
                let ep = endpoint_at(file, "/inbounds/"@, k, inbounds[k as int]);
                if spec_tag_selected(ep.tag, tags) {
                    if let Ok(users) = array_field(inbounds[k as int], "users"@, label_text(ep)) {
                        let empty = ServiceView { protocol: p, inbound: ep, identities: Seq::empty() };
                        lemma_add_users_no_clients(empty, users, 0);
                        if let Ok(svc) = add_users(empty, users, 0) {
                            assert forall|s: int, i: int| 0 <= s < next.len() && 0 <= i < next[s].identities.len()
                                implies (#[trigger] next[s].identities[i]).clients.len() == 0 by {
                                if s < svcs.len() {
                                    assert(next[s] == svcs[s]);
                                } else {
                                    assert(next[s] == svc);
                                }
                            }
                        }
                    }
                }
            }
            lemma_add_inbounds_no_clients(next, file, inbounds, k + 1, tags);
        }
    }
}

proof fn lemma_add_server_docs_no_clients(svcs: Seq<ServiceView>, docs: Seq<DocView>, k: nat, tags: Seq<Seq<char>>)
    requires
        no_clients(svcs),
    ensures
        add_server_docs(svcs, docs, k, tags) matches Ok(out) ==> no_clients(out),
    decreases docs.len() - k,
{
    if k < docs.len() {
        if let Ok(inbounds) = array_field(docs[k as int].value, "inbounds"@, docs[k as int].path) {
            lemma_add_inbounds_no_clients(svcs, docs[k as int].path, inbounds, 0, tags);
            if let Ok(next) = add_inbounds(svcs, docs[k as int].path, inbounds, 0, tags) {
                lemma_add_server_docs_no_clients(next, docs, k + 1, tags);
            }
        }
    }
}

proof fn lemma_identity_matches(ids: Seq<IdentityView>, value: Seq<char>, s: int, i: nat)
    ensures
        forall|j: int| 0 <= j < identity_matches(ids, value, s, i).len() ==> {
            let m = #[trigger] identity_matches(ids, value, s, i)[j];
            m.0 == s && 0 <= m.1 < ids.len() && ids[m.1].value == value
        },
    decreases ids.len() - i,
{
    if i < ids.len() {
        lemma_identity_matches(ids, value, s, i + 1);
        let head: Seq<(int, int)> = if ids[i as int].value == value { seq![(s, i as int)] } else { Seq::empty() };
        let rest = identity_matches(ids, value, s, i + 1);
        assert(identity_matches(ids, value, s, i) == head + rest);
        assert forall|j: int| 0 <= j < (head + rest).len() implies {
            let m = #[trigger] (head + rest)[j];
            m.0 == s && 0 <= m.1 < ids.len() && ids[m.1].value == value
        } by {
            if j >= head.len() {
                assert((head + rest)[j] == rest[j - head.len()]);
            }
        }
    }
}

proof fn lemma_match_pairs(svcs: Seq<ServiceView>, protocol: Protocol, value: Seq<char>, s: nat)
    ensures
        forall|j: int| 0 <= j < match_pairs(svcs, protocol, value, s).len() ==> {
            let m = #[trigger] match_pairs(svcs, protocol, value, s)[j];
            &&& 0 <= m.0 < svcs.len()
            &&& svcs[m.0].protocol == protocol
            &&& 0 <= m.1 < svcs[m.0].identities.len()
            &&& svcs[m.0].identities[m.1].value == value
        },
    decreases svcs.len() - s,
{
    if s < svcs.len() {
        lemma_match_pairs(svcs, protocol, value, s + 1);
        lemma_identity_matches(svcs[s as int].identities, value, s as int, 0);
        let head: Seq<(int, int)> = if svcs[s as int].protocol == protocol {
            identity_matches(svcs[s as int].identities, value, s as int, 0)
        } else {
            Seq::empty()
        };
        let rest = match_pairs(svcs, protocol, value, s + 1);
        assert(match_pairs(svcs, protocol, value, s) == head + rest);
        assert forall|j: int| 0 <= j < (head + rest).len() implies {
            let m = #[trigger] (head + rest)[j];
            &&& 0 <= m.0 < svcs.len()
            &&& svcs[m.0].protocol == protocol
            &&& 0 <= m.1 < svcs[m.0].identities.len()
            &&& svcs[m.0].identities[m.1].value == value
        } by {
            if j < head.len() {
                assert((head + rest)[j] == head[j]);
            } else {
                assert((head + rest)[j] == rest[j - head.len()]);
            }
        }
    }
}

/// The outbounds of client document `d`.
pub open spec fn outbound_items(configs: ConfigSet, d: int) -> Seq<JsonView> {
    match array_field(configs.client_docs()[d].value, "outbounds"@, configs.client_docs()[d].path) {
        Ok(items) => items,
        Err(_) => Seq::empty(),
    }
}

/// `ep` is outbound `k` of client document `d`, of `protocol`, authenticating with `value`.
pub open spec fn outbound_with(configs: ConfigSet, ep: EndpointView, protocol: Protocol, value: Seq<char>) -> bool {
    exists|d: int, k: int| #![trigger outbound_items(configs, d)[k]] {
        &&& 0 <= d < configs.client_docs().len()
        &&& 0 <= k < outbound_items(configs, d).len()
        &&& ep == endpoint_at(configs.client_docs()[d].path, "/outbounds/"@, k as nat, outbound_items(configs, d)[k])
        &&& protocol_of(outbound_items(configs, d)[k]) == Some(protocol)
        &&& credential_of(outbound_items(configs, d)[k], protocol) == Some(value)
    }
}

/// Every client bound to an identity is a client outbound of its service's protocol
/// whose credential is the identity's.
pub open spec fn bound_by_credential(configs: ConfigSet, svcs: Seq<ServiceView>) -> bool {
    forall|s: int, i: int, c: int| 0 <= s < svcs.len() && 0 <= i < svcs[s].identities.len()
        && 0 <= c < svcs[s].identities[i].clients.len()
        ==> outbound_with(configs, #[trigger] svcs[s].identities[i].clients[c], svcs[s].protocol, svcs[s].identities[i].value)
}

proof fn lemma_add_clients_bound(configs: ConfigSet, d: int, inv: InventoryView, outbounds: Seq<JsonView>, k: nat)
    requires
        0 <= d < configs.client_docs().len(),
        array_field(configs.client_docs()[d].value, "outbounds"@, configs.client_docs()[d].path) == Ok::<Seq<JsonView>, (ErrorKind, Seq<char>)>(outbounds),
        bound_by_credential(configs, inv.services),
    ensures
        add_clients(inv, configs.client_docs()[d].path, outbounds, k) matches Ok(out) ==> bound_by_credential(configs, out.services),
    decreases outbounds.len() - k,
{
    if k < outbounds.len() {
        let file = configs.client_docs()[d].path;
        let o = outbounds[k as int];
        if let Ok(next) = add_client(inv, file, k, o) {
            if let Some(p) = protocol_of(o) {
                if let Some(v) = credential_of(o, p) {
                    let ms = match_pairs(inv.services, p, v, 0);
                    if ms.len() == 1 {
                        lemma_match_pairs(inv.services, p, v, 0);
                        let si = ms[0].0;
                        let ii = ms[0].1;
                        let ep = endpoint_at(file, "/outbounds/"@, k, o);
                        assert(outbound_with(configs, ep, p, v)) by {
                            assert(outbound_items(configs, d) == outbounds);
                            assert(outbound_items(configs, d)[k as int] == o);
                        }
                        assert forall|s: int, i: int, c: int| 0 <= s < next.services.len() && 0 <= i < next.services[s].identities.len()
                            && 0 <= c < next.services[s].identities[i].clients.len()
                            implies outbound_with(configs, #[trigger] next.services[s].identities[i].clients[c],
                                next.services[s].protocol, next.services[s].identities[i].value) by {
                            if s == si && i == ii {
                                if c < inv.services[s].identities[i].clients.len() {
                                    assert(next.services[s].identities[i].clients[c] == inv.services[s].identities[i].clients[c]);
                                } else {
                                    assert(next.services[s].identities[i].clients[c] == ep);
                                }
                            } else if s == si {
                                assert(next.services[s].identities[i] == inv.services[s].identities[i]);
                            } else {
                                assert(next.services[s] == inv.services[s]);
                            }
                        }
                    }
                }
            }
            lemma_add_clients_bound(configs, d, next, outbounds, k + 1);
        }
    }
}

proof fn lemma_add_client_docs_bound(configs: ConfigSet, inv: InventoryView, k: nat)
    requires
        bound_by_credential(configs, inv.services),
    ensures
        add_client_docs(inv, configs.client_docs(), k) matches Ok(out) ==> bound_by_credential(configs, out.services),
    decreases configs.client_docs().len() - k,
{
    let docs = configs.client_docs();
    if k < docs.len() {
        if let Ok(outbounds) = array_field(docs[k as int].value, "outbounds"@, docs[k as int].path) {
            lemma_add_clients_bound(configs, k as int, inv, outbounds, 0);
            if let Ok(next) = add_clients(inv, docs[k as int].path, outbounds, 0) {
                lemma_add_client_docs_bound(configs, next, k + 1);
            }
        }
    }
}

/// Discovery binds a client outbound to an identity only by credential: every
/// bound client is an outbound of a client config, of the service's protocol,
/// whose credential equals the identity's (never by address, tag or key).
pub proof fn law_clients_bind_by_credential(configs: ConfigSet, inbound_tags: Seq<Seq<char>>)
    ensures
        discovered(configs, inbound_tags) matches Ok(inv) ==> bound_by_credential(configs, inv.services),
{
    lemma_add_server_docs_no_clients(Seq::empty(), configs.server_docs(), 0, inbound_tags);
    if let Ok(services) = add_server_docs(Seq::empty(), configs.server_docs(), 0, inbound_tags) {
        lemma_add_client_docs_bound(configs, InventoryView { services, unbound: Seq::empty() }, 0);
    }
}

/// A type-driven rotation is refused, whatever values were generated, for
/// material of another protocol, for client selectors with material a whole
/// service shares (all material, the Reality keypair, the obfs password), for an
/// ambiguous binding, and for a service that fails its checks: nothing it would
/// generate can change that.
pub proof fn law_type_rotation_refusals_come_first(configs: ConfigSet, inv: InventoryView, input: Input, protocol: Protocol,
    only: Option<RotationMaterial>, vals: MaterialValuesView)
    ensures
        material_refusal(configs, inv, input, protocol, only) matches Some(k)
            ==> material_outcome(configs, inv, input, protocol, only, vals) == Err::<Seq<EditView>, ErrorKind>(k),
        (only matches Some(m) && m.spec_kind().spec_protocol() != protocol)
            ==> material_outcome(configs, inv, input, protocol, only, vals) == Err::<Seq<EditView>, ErrorKind>(ErrorKind::ProtocolMismatch),
        (service_wide(only) && narrowed(input) && !(only matches Some(m) && m.spec_kind().spec_protocol() != protocol))
            ==> material_outcome(configs, inv, input, protocol, only, vals) == Err::<Seq<EditView>, ErrorKind>(ErrorKind::ServiceWideSelectors),
{
}

proof fn lemma_append_current(configs: ConfigSet, edits: Seq<EditView>, reqs: Seq<(ConfigRefView, Option<JsonView>)>, added: Seq<EditView>)
    requires
        all_current(configs, edits),
        plan_edits(Seq::empty(), configs, reqs, 0) == Ok::<Seq<EditView>, ErrorKind>(added),
    ensures
        all_current(configs, edits + added),
{
    lemma_plan_edits_shape(Seq::empty(), configs, reqs, 0);
    assert forall|i: int| 0 <= i < (edits + added).len() implies current_and_effective(configs, #[trigger] (edits + added)[i]) by {
        if i >= edits.len() {
            assert((edits + added)[i] == added[i - edits.len()]);
        }
    }
}

proof fn lemma_service_part_current(configs: ConfigSet, input: Input, protocol: Protocol, only: Option<RotationMaterial>, svc: ServiceView,
    vals: MaterialValuesView, st: MaterialState)
    requires
        all_current(configs, st.edits),
    ensures
        service_part(configs, input, protocol, only, svc, vals, st) matches Ok(out) ==> all_current(configs, out.edits),
{
    reveal(service_part);
    let st1 = if keypair_step(configs, input, protocol, only, svc) { keypair_part(configs, svc, vals, st) } else { Ok(st) };
    if let Ok(a) = st1 {
        if keypair_step(configs, input, protocol, only, svc) && st.keypairs < vals.keypairs.len() {
            let (private, public) = vals.keypairs[st.keypairs as int];
            if let Ok((old, cs, pubs)) = service_keypair_preflight(configs, svc) {
                if let Ok(added) = service_keypair_outcome(configs, svc, private, public) {
                    lemma_append_current(configs, st.edits, keypair_requests(svc, cs, private, public), added);
                }
            }
        }
        let st2 = if short_id_step(configs, input, protocol, only, svc) { short_id_part(configs, input, svc, vals, a) } else { Ok(a) };
        if let Ok(b) = st2 {
            if short_id_step(configs, input, protocol, only, svc) && a.short_ids <= vals.short_ids.len() {
                let gens = vals.short_ids.skip(a.short_ids as int);
                if let Ok((entries, accepted, split)) = service_short_id_preflight(configs, input, svc) {
                    if let Ok(ids) = new_short_ids(accepted, gens, split.selected.len()) {
                        if let Ok(added) = service_short_ids_outcome(configs, input, svc, gens) {
                            lemma_append_current(configs, a.edits, short_id_requests(svc, entries, accepted, split, ids), added);
                        }
                    }
                }
            }
            if obfs_step(configs, input, protocol, only, svc) && b.obfs < vals.obfs_passwords.len() {
                let v = vals.obfs_passwords[b.obfs as int];
                if let Ok(added) = service_obfs_outcome(configs, svc, v) {
                    lemma_append_current(configs, b.edits, obfs_requests(svc, v), added);
                }
            }
        }
    }
}

proof fn lemma_material_parts_current(configs: ConfigSet, inv: InventoryView, input: Input, protocol: Protocol, only: Option<RotationMaterial>,
    vals: MaterialValuesView, init: MaterialState, k: nat)
    requires
        all_current(configs, init.edits),
    ensures
        material_parts(configs, inv, input, protocol, only, vals, init, k) matches Ok(out) ==> all_current(configs, out.edits),
    decreases k,
{
    if k > 0 {
        lemma_material_parts_current(configs, inv, input, protocol, only, vals, init, (k - 1) as nat);
        if let Ok(prev) = material_parts(configs, inv, input, protocol, only, vals, init, (k - 1) as nat) {
            if k <= inv.services.len() {
                lemma_service_part_current(configs, input, protocol, only, inv.services[k - 1], vals, prev);
            }
        }
    }
}

/// Every edit of a type-driven rotation records what its location holds now and
/// changes it, whichever services and kinds of material it combines.
pub proof fn law_type_rotation_edits_are_current(configs: ConfigSet, inv: InventoryView, input: Input, protocol: Protocol,
    only: Option<RotationMaterial>, vals: MaterialValuesView)
    ensures
        material_outcome(configs, inv, input, protocol, only, vals) matches Ok(edits) ==> all_current(configs, edits),
{
    let kind = identity_of(protocol);
    law_identity_rotation_writes_fresh_credentials(configs, inv, input, kind, vals.credentials);
    let users = if rotates(protocol, only, rotation_of_identity(kind)) {
        identities_outcome(configs, inv, input, kind, vals.credentials)
    } else {
        Ok(Seq::empty())
    };
    if let Ok(edits) = users {
        lemma_material_parts_current(configs, inv, input, protocol, only, vals,
            MaterialState { edits, keypairs: 0, short_ids: 0, obfs: 0 }, inv.services.len());
    }
}

/// A field of an endpoint that a type-driven rotation of the service material
/// `kind` writes.
pub open spec fn writes_field(kind: RotationKind, field: Seq<char>) -> bool {
    match kind {
        RotationKind::VlessRealityKeypair => field == "tls/reality/private_key"@ || field == "tls/reality/public_key"@,
        RotationKind::VlessRealityShortId => field == "tls/reality/short_id"@,
        RotationKind::Hysteria2ObfsPassword => field == "obfs/password"@,
        _ => false,
    }
}

/// Every edit writes a field of the material `kind` of some endpoint.
pub open spec fn edits_in_fields(edits: Seq<EditView>, kind: RotationKind) -> bool {
    forall|i: int| 0 <= i < edits.len() ==>
        exists|ep: EndpointView, f: Seq<char>| writes_field(kind, f) && #[trigger] edits[i].target == field_ref(ep, f)
}

pub open spec fn requests_in_fields(reqs: Seq<(ConfigRefView, Option<JsonView>)>, kind: RotationKind) -> bool {
    forall|j: int| 0 <= j < reqs.len() ==>
        exists|ep: EndpointView, f: Seq<char>| writes_field(kind, f) && #[trigger] reqs[j].0 == field_ref(ep, f)
}

proof fn lemma_append_in_fields(configs: ConfigSet, edits: Seq<EditView>, reqs: Seq<(ConfigRefView, Option<JsonView>)>,
    added: Seq<EditView>, kind: RotationKind)
    requires
        edits_in_fields(edits, kind),
        requests_in_fields(reqs, kind),
        plan_edits(Seq::empty(), configs, reqs, 0) == Ok::<Seq<EditView>, ErrorKind>(added),
    ensures
        edits_in_fields(edits + added, kind),
{
    lemma_plan_edits_shape(Seq::empty(), configs, reqs, 0);
    assert forall|i: int| 0 <= i < (edits + added).len() implies
        exists|ep: EndpointView, f: Seq<char>| writes_field(kind, f) && #[trigger] (edits + added)[i].target == field_ref(ep, f) by {
        if i < edits.len() {
            assert((edits + added)[i] == edits[i]);
        } else {
            let e = added[i - edits.len()];
            assert((edits + added)[i] == e);
            let j = choose|j: int| 0 <= j < reqs.len() && e.target == reqs[j].0 && e.new == reqs[j].1;
            assert(exists|ep: EndpointView, f: Seq<char>| writes_field(kind, f) && #[trigger] reqs[j].0 == field_ref(ep, f));
        }
    }
}

proof fn lemma_service_part_in_fields(configs: ConfigSet, input: Input, protocol: Protocol, m: RotationMaterial, svc: ServiceView,
    vals: MaterialValuesView, st: MaterialState)
    requires
        edits_in_fields(st.edits, m.spec_kind()),
    ensures
        service_part(configs, input, protocol, Some(m), svc, vals, st) matches Ok(out) ==> edits_in_fields(out.edits, m.spec_kind()),
{
    reveal(service_part);
    let only = Some(m);
    let kind = m.spec_kind();
    let st1 = if keypair_step(configs, input, protocol, only, svc) { keypair_part(configs, svc, vals, st) } else { Ok(st) };
    if let Ok(a) = st1 {
        if keypair_step(configs, input, protocol, only, svc) && st.keypairs < vals.keypairs.len() {
            let (private, public) = vals.keypairs[st.keypairs as int];
            if let Ok((old, cs, pubs)) = service_keypair_preflight(configs, svc) {
                if let Ok(added) = service_keypair_outcome(configs, svc, private, public) {
                    let reqs = keypair_requests(svc, cs, private, public);
                    assert forall|j: int| 0 <= j < reqs.len() implies
                        exists|ep: EndpointView, f: Seq<char>| writes_field(kind, f) && #[trigger] reqs[j].0 == field_ref(ep, f) by {
                        if j == 0 {
                            assert(reqs[j].0 == field_ref(svc.inbound, "tls/reality/private_key"@));
                        } else {
                            assert(reqs[j].0 == field_ref(cs[j - 1], "tls/reality/public_key"@));
                        }
                    }
                    lemma_append_in_fields(configs, st.edits, reqs, added, kind);
                }
            }
        }
        let st2 = if short_id_step(configs, input, protocol, only, svc) { short_id_part(configs, input, svc, vals, a) } else { Ok(a) };
        if let Ok(b) = st2 {
            if short_id_step(configs, input, protocol, only, svc) && a.short_ids <= vals.short_ids.len() {
                let gens = vals.short_ids.skip(a.short_ids as int);
                if let Ok((entries, accepted, split)) = service_short_id_preflight(configs, input, svc) {
                    if let Ok(ids) = new_short_ids(accepted, gens, split.selected.len()) {
                        if let Ok(added) = service_short_ids_outcome(configs, input, svc, gens) {
                            let reqs = short_id_requests(svc, entries, accepted, split, ids);
                            assert forall|j: int| 0 <= j < reqs.len() implies
                                exists|ep: EndpointView, f: Seq<char>| writes_field(kind, f) && #[trigger] reqs[j].0 == field_ref(ep, f) by {
                                if j < split.selected.len() {
                                    assert(reqs[j].0 == field_ref(split.selected[j], "tls/reality/short_id"@));
                                } else {
                                    assert(reqs[j].0 == field_ref(svc.inbound, "tls/reality/short_id"@));
                                }
                            }
                            lemma_append_in_fields(configs, a.edits, reqs, added, kind);
                        }
                    }
                }
            }
            if obfs_step(configs, input, protocol, only, svc) && b.obfs < vals.obfs_passwords.len() {
                let v = vals.obfs_passwords[b.obfs as int];
                if let Ok(added) = service_obfs_outcome(configs, svc, v) {
                    let reqs = obfs_requests(svc, v);
                    let cs = service_clients(svc);
                    assert forall|j: int| 0 <= j < reqs.len() implies
                        exists|ep: EndpointView, f: Seq<char>| writes_field(kind, f) && #[trigger] reqs[j].0 == field_ref(ep, f) by {
                        if j == 0 {
                            assert(reqs[j].0 == field_ref(svc.inbound, "obfs/password"@));
                        } else {
                            assert(reqs[j].0 == field_ref(cs[j - 1], "obfs/password"@));
                        }
                    }
                    lemma_append_in_fields(configs, b.edits, reqs, added, kind);
                }
            }
        }
    }
}

proof fn lemma_material_parts_in_fields(configs: ConfigSet, inv: InventoryView, input: Input, protocol: Protocol, m: RotationMaterial,
    vals: MaterialValuesView, init: MaterialState, k: nat)
    requires
        edits_in_fields(init.edits, m.spec_kind()),
    ensures
        material_parts(configs, inv, input, protocol, Some(m), vals, init, k) matches Ok(out) ==> edits_in_fields(out.edits, m.spec_kind()),
    decreases k,
{
    if k > 0 {
        lemma_material_parts_in_fields(configs, inv, input, protocol, m, vals, init, (k - 1) as nat);
        if let Ok(prev) = material_parts(configs, inv, input, protocol, Some(m), vals, init, (k - 1) as nat) {
            if k <= inv.services.len() {
                lemma_service_part_in_fields(configs, input, protocol, m, inv.services[k - 1], vals, prev);
            }
        }
    }
}

/// A type-driven rotation limited to one kind of service material (`--only` the
/// Reality keypair, the short IDs or the obfs password) writes only fields of
/// that kind, on however many services: the other material, user credentials
/// included, stays as it is.
pub proof fn law_one_material_writes_only_its_fields(configs: ConfigSet, inv: InventoryView, input: Input, protocol: Protocol,
    m: RotationMaterial, vals: MaterialValuesView)
    requires
        m.spec_kind().spec_identity() is None,
    ensures
        material_outcome(configs, inv, input, protocol, Some(m), vals) matches Ok(edits) ==> edits_in_fields(edits, m.spec_kind()),
{
    let kind = identity_of(protocol);
    assert(!rotates(protocol, Some(m), rotation_of_identity(kind)));
    lemma_material_parts_in_fields(configs, inv, input, protocol, m, vals,
        MaterialState { edits: Seq::empty(), keypairs: 0, short_ids: 0, obfs: 0 }, inv.services.len());
}

} // verus!

verus! {

/// `x` is entry `k` (from `lo` on) of the accepted list, whose ID an unselected
/// client still uses or no selected client gave up.
pub open spec fn kept_worthy(entries: Seq<JsonView>, accepted: Seq<Seq<char>>, split: ShortIdSplit, x: JsonView, lo: int) -> bool {
    exists|k: int| lo <= k < entries.len() && #[trigger] entries[k] == x
        && (split.retained.contains(accepted[k]) || !split.retired.contains(accepted[k]))
}

proof fn lemma_kept_entries_from(entries: Seq<JsonView>, accepted: Seq<Seq<char>>, split: ShortIdSplit, i: nat)
    ensures
        forall|j: int| 0 <= j < kept_entries(entries, accepted, split, i).len()
            ==> kept_worthy(entries, accepted, split, #[trigger] kept_entries(entries, accepted, split, i)[j], i as int),
    decreases entries.len() - i,
{
    if i < entries.len() {
        lemma_kept_entries_from(entries, accepted, split, i + 1);
        let head: Seq<JsonView> = if keeps(split, accepted[i as int]) { seq![entries[i as int]] } else { Seq::empty() };
        let rest = kept_entries(entries, accepted, split, i + 1);
        let all = kept_entries(entries, accepted, split, i);
        assert(all == head + rest);
        assert forall|j: int| 0 <= j < all.len() implies kept_worthy(entries, accepted, split, #[trigger] all[j], i as int) by {
            if j < head.len() {
                assert(all[j] == entries[i as int]);
                assert(keeps(split, accepted[i as int]));
            } else {
                assert(all[j] == rest[j - head.len()]);
                assert(kept_worthy(entries, accepted, split, rest[j - head.len()], (i + 1) as int));
                let k = choose|k: int| i + 1 <= k < entries.len() && #[trigger] entries[k] == rest[j - head.len()]
                    && (split.retained.contains(accepted[k]) || !split.retired.contains(accepted[k]));
                assert(entries[k] == all[j]);
            }
        }
    }
}

/// A short-ID rotation retires what it replaces: every entry the server's new
/// list keeps (all of it but the new IDs at its end) is an accepted entry whose ID
/// an unselected client still uses or no selected client gave up. So, when equal
/// entries have equal IDs, an ID that a selected client gave up and no unselected
/// client uses is no longer accepted.
pub proof fn law_short_id_rotation_retires_ids(svc: ServiceView, entries: Seq<JsonView>, accepted: Seq<Seq<char>>, split: ShortIdSplit,
    ids: Seq<Seq<char>>)
    ensures
        short_id_requests(svc, entries, accepted, split, ids).last().1 matches Some(JsonView::Array(items)) && {
            &&& forall|j: int| 0 <= j < items.len() - ids.len() ==> kept_worthy(entries, accepted, split, #[trigger] items[j], 0)
            &&& (forall|a: int, b: int| 0 <= a < entries.len() && 0 <= b < entries.len() && #[trigger] entries[a] == #[trigger] entries[b]
                    ==> accepted[a] == accepted[b])
                ==> forall|k: int| 0 <= k < entries.len() && split.retired.contains(accepted[k]) && !split.retained.contains(accepted[k])
                    ==> !items.take(items.len() - ids.len()).contains(#[trigger] entries[k])
        },
{
    let kept = kept_entries(entries, accepted, split, 0);
    let tail = ids.map_values(|id: Seq<char>| JsonView::String(id));
    let items = kept + tail;
    assert(short_id_requests(svc, entries, accepted, split, ids).last().1 == Some(JsonView::Array(items)));
    lemma_kept_entries_from(entries, accepted, split, 0);
    assert(items.take(items.len() - ids.len()) =~= kept);
    assert forall|j: int| 0 <= j < items.len() - ids.len() implies kept_worthy(entries, accepted, split, #[trigger] items[j], 0) by {
        assert(items[j] == kept[j]);
    }
    if forall|a: int, b: int| 0 <= a < entries.len() && 0 <= b < entries.len() && #[trigger] entries[a] == #[trigger] entries[b]
        ==> accepted[a] == accepted[b] {
        assert forall|k: int| 0 <= k < entries.len() && split.retired.contains(accepted[k]) && !split.retained.contains(accepted[k])
            implies !items.take(items.len() - ids.len()).contains(#[trigger] entries[k]) by {
            if kept.contains(entries[k]) {
                let j = choose|j: int| 0 <= j < kept.len() && kept[j] == entries[k];
                assert(kept_worthy(entries, accepted, split, kept[j], 0));
                let m = choose|m: int| 0 <= m < entries.len() && #[trigger] entries[m] == kept[j]
                    && (split.retained.contains(accepted[m]) || !split.retired.contains(accepted[m]));
                assert(entries[m] == entries[k]);
            }
        }
    }
}

/// A server address or TLS server name is taken exactly as given: any nonempty
/// text without white space is set as that string, and anything else is refused.
pub proof fn law_names_are_taken_as_given(kind: PropertyKind, v: Seq<char>)
    requires
        kind == PropertyKind::Server || kind == PropertyKind::TlsServerName,
    ensures
        (v.len() > 0 && forall|i: int| 0 <= i < v.len() ==> !is_white_space(#[trigger] v[i]))
            ==> spec_property_value(kind, v) == Ok::<JsonView, ErrorKind>(JsonView::String(v)),
        (v.len() == 0 || exists|i: int| 0 <= i < v.len() && is_white_space(#[trigger] v[i]))
            ==> spec_property_value(kind, v) == Err::<JsonView, ErrorKind>(ErrorKind::InvalidName),
{
}

/// The observed count of a Reality summary is the number of distinct IDs: the
/// size of the set of the entries, whatever their order or repeats.
pub proof fn law_observed_count_is_distinct_ids(s: Seq<Seq<char>>)
    ensures
        distinct_count(s) == s.to_set().len(),
    decreases s.len(),
{
    vstd::seq_lib::seq_to_set_is_finite(s);
    if s.len() == 0 {
        s.lemma_cardinality_of_empty_set_is_0();
    } else {
        let p = s.drop_last();
        let x = s.last();
        law_observed_count_is_distinct_ids(p);
        vstd::seq_lib::seq_to_set_is_finite(p);
        assert(s.to_set() =~= p.to_set().insert(x)) by {
            assert forall|a: Seq<char>| s.to_set().contains(a) <==> p.to_set().insert(x).contains(a) by {
                if s.contains(a) {
                    let i = choose|i: int| 0 <= i < s.len() && s[i] == a;
                    if i < p.len() {
                        assert(p[i] == a);
                    }
                }
                if p.contains(a) {
                    let i = choose|i: int| 0 <= i < p.len() && p[i] == a;
                    assert(s[i] == a);
                }
                if a == x {
                    assert(s[s.len() - 1] == a);
                }
            }
        }
        vstd::set::axiom_set_insert_len(p.to_set(), x);
        assert(seq_contains_str(p, x) == p.to_set().contains(x)) by {
            if p.contains(x) {
                let i = choose|i: int| 0 <= i < p.len() && p[i] == x;
                assert(p[i] == x);
            }
        }
    }
}


proof fn lemma_materialize_current(configs: ConfigSet, edits: Seq<EditView>, k: nat, st: Materializing)
    ensures
        materialize_from(configs, edits, k, st) is Ok ==> forall|i: int| k <= i < edits.len()
            ==> config_edit_target(configs, (#[trigger] edits[i]).target.file, edits[i].target.pointer) == Some(edits[i].old),
    decreases edits.len() - k,
{
    if k < edits.len() {
        if let Ok(next) = materialize_step(configs, st, edits[k as int]) {
            lemma_materialize_current(configs, edits, k + 1, next);
        }
    }
}

/// A preview shows, for each edit that changes a value it does not mask, the
/// value the location holds now and, after the arrow, the value applying the
/// plan leaves there.
pub proof fn law_preview_shows_current_then_written(configs: ConfigSet, op: OperationKind, edits: Seq<EditView>, i: int)
    requires
        0 <= i < edits.len(),
        materialized(configs, edits) is Ok,
        !masked(op, edits[i]),
        edits[i].old != edits[i].new,
        edits[i].new is Some,
    ensures
        ({
            let e = edits[i];
            let changed = materialized(configs, edits)->Ok_0;
            let written = changed[changed_position_of(changed, e.target.file)->Some_0].1;
            &&& config_edit_target(configs, e.target.file, e.target.pointer) is Some
            &&& changed_position_of(changed, e.target.file) is Some
            &&& edit_target(written, pointer_tokens(e.target.pointer)->Some_0) matches Some(Some(w))
                && edits.map_values(|x: EditView| edit_line(op, x))[i]
                == "  "@ + e.target.file + "#"@ + e.target.pointer + ": "@
                    + (match config_edit_target(configs, e.target.file, e.target.pointer) {
                        Some(Some(now)) => json_text(now),
                        _ => "(absent)"@,
                    })
                    + " -> "@ + json_text(w)
        }),
{
    lemma_materialize_current(configs, edits, 0, Materializing { seen: Seq::empty(), changed: Seq::empty() });
    law_applied_edits_read_back(configs, edits);
    let changed = materialized(configs, edits)->Ok_0;
    assert(reads_back(changed, edits[i]));
    assert(config_edit_target(configs, edits[i].target.file, edits[i].target.pointer) == Some(edits[i].old));
}


/// Some service of `svcs` is the inbound `ep` of `protocol`.
pub open spec fn has_service(svcs: Seq<ServiceView>, ep: EndpointView, protocol: Protocol) -> bool {
    exists|s: int| 0 <= s < svcs.len() && (#[trigger] svcs[s]).inbound == ep && svcs[s].protocol == protocol
}

/// `b` starts with the services of `a`.
pub open spec fn services_extend(a: Seq<ServiceView>, b: Seq<ServiceView>) -> bool {
    a.len() <= b.len() && forall|s: int| 0 <= s < a.len() ==> #[trigger] b[s] == a[s]
}

/// `b` has the services of `a`, each with the same inbound and protocol.
pub open spec fn same_inbounds(a: Seq<ServiceView>, b: Seq<ServiceView>) -> bool {
    a.len() == b.len() && forall|s: int| 0 <= s < a.len() ==> (#[trigger] b[s]).inbound == a[s].inbound && b[s].protocol == a[s].protocol
}

/// Inbound `k` of a server file is one discovery takes: of a supported protocol,
/// with a tag the selector passes.
pub open spec fn discoverable(file: Seq<char>, k: nat, inbound: JsonView, tags: Seq<Seq<char>>) -> bool {
    protocol_of(inbound) is Some && spec_tag_selected(endpoint_at(file, "/inbounds/"@, k, inbound).tag, tags)
}

proof fn lemma_has_service_extend(a: Seq<ServiceView>, b: Seq<ServiceView>, ep: EndpointView, protocol: Protocol)
    requires
        has_service(a, ep, protocol),
        services_extend(a, b) || same_inbounds(a, b),
    ensures
        has_service(b, ep, protocol),
{
    let s = choose|s: int| 0 <= s < a.len() && (#[trigger] a[s]).inbound == ep && a[s].protocol == protocol;
    assert(b[s].inbound == ep);
}

proof fn lemma_add_users_keeps_inbound(svc: ServiceView, users: Seq<JsonView>, k: nat)
    ensures
        add_users(svc, users, k) matches Ok(out) ==> out.inbound == svc.inbound && out.protocol == svc.protocol,
    decreases users.len() - k,
{
    if k < users.len() {
        if let Ok(next) = add_user(svc, k, users[k as int]) {
            lemma_add_users_keeps_inbound(next, users, k + 1);
        }
    }
}

proof fn lemma_add_inbounds_extend(svcs: Seq<ServiceView>, file: Seq<char>, inbounds: Seq<JsonView>, k: nat, tags: Seq<Seq<char>>)
    ensures
        add_inbounds(svcs, file, inbounds, k, tags) matches Ok(out) ==> services_extend(svcs, out),
    decreases inbounds.len() - k,
{
    if k < inbounds.len() {
        if let Ok(next) = add_inbound(svcs, file, k, inbounds[k as int], tags) {
            lemma_add_inbounds_extend(next, file, inbounds, k + 1, tags);
            assert(services_extend(svcs, next));
        }
    }
}

proof fn lemma_add_inbounds_finds(svcs: Seq<ServiceView>, file: Seq<char>, inbounds: Seq<JsonView>, k: nat, tags: Seq<Seq<char>>, i: nat)
    requires
        k <= i < inbounds.len(),
        discoverable(file, i, inbounds[i as int], tags),
    ensures
        add_inbounds(svcs, file, inbounds, k, tags) matches Ok(out)
            ==> has_service(out, endpoint_at(file, "/inbounds/"@, i, inbounds[i as int]), protocol_of(inbounds[i as int])->Some_0),
    decreases inbounds.len() - k,
{
    if let Ok(next) = add_inbound(svcs, file, k, inbounds[k as int], tags) {
        if k < i {
            lemma_add_inbounds_finds(next, file, inbounds, k + 1, tags, i);
        } else {
            let p = protocol_of(inbounds[k as int])->Some_0;
            let ep = endpoint_at(file, "/inbounds/"@, k, inbounds[k as int]);
            let users = array_field(inbounds[k as int], "users"@, label_text(ep))->Ok_0;
            lemma_add_users_keeps_inbound(ServiceView { protocol: p, inbound: ep, identities: Seq::empty() }, users, 0);
            assert(next[svcs.len() as int].inbound == ep);
            assert(has_service(next, ep, p));
            lemma_add_inbounds_extend(next, file, inbounds, k + 1, tags);
            if let Ok(out) = add_inbounds(svcs, file, inbounds, k, tags) {
                lemma_has_service_extend(next, out, ep, p);
            }
        }
    }
}

proof fn lemma_add_server_docs_extend(svcs: Seq<ServiceView>, docs: Seq<DocView>, k: nat, tags: Seq<Seq<char>>)
    ensures
        add_server_docs(svcs, docs, k, tags) matches Ok(out) ==> services_extend(svcs, out),
    decreases docs.len() - k,
{
    if k < docs.len() {
        if let Ok(inbounds) = array_field(docs[k as int].value, "inbounds"@, docs[k as int].path) {
            lemma_add_inbounds_extend(svcs, docs[k as int].path, inbounds, 0, tags);
            if let Ok(next) = add_inbounds(svcs, docs[k as int].path, inbounds, 0, tags) {
                lemma_add_server_docs_extend(next, docs, k + 1, tags);
                if let Ok(out) = add_server_docs(svcs, docs, k, tags) {
                    assert forall|s: int| 0 <= s < svcs.len() implies #[trigger] out[s] == svcs[s] by {
                        assert(next[s] == svcs[s]);
                    }
                }
            }
        }
    }
}

proof fn lemma_add_server_docs_finds(svcs: Seq<ServiceView>, docs: Seq<DocView>, k: nat, tags: Seq<Seq<char>>, d: int,
    inbounds: Seq<JsonView>, i: nat)
    requires
        k <= d < docs.len(),
        array_field(docs[d].value, "inbounds"@, docs[d].path) == Ok::<Seq<JsonView>, (ErrorKind, Seq<char>)>(inbounds),
        i < inbounds.len(),
        discoverable(docs[d].path, i, inbounds[i as int], tags),
    ensures
        add_server_docs(svcs, docs, k, tags) matches Ok(out)
            ==> has_service(out, endpoint_at(docs[d].path, "/inbounds/"@, i, inbounds[i as int]), protocol_of(inbounds[i as int])->Some_0),
    decreases docs.len() - k,
{
    if let Ok(here) = array_field(docs[k as int].value, "inbounds"@, docs[k as int].path) {
        if let Ok(next) = add_inbounds(svcs, docs[k as int].path, here, 0, tags) {
            if k < d {
                lemma_add_server_docs_finds(next, docs, k + 1, tags, d, inbounds, i);
            } else {
                lemma_add_inbounds_finds(svcs, docs[k as int].path, here, 0, tags, i);
                lemma_add_server_docs_extend(next, docs, k + 1, tags);
                if let Ok(out) = add_server_docs(svcs, docs, k, tags) {
                    lemma_has_service_extend(next, out, endpoint_at(docs[d].path, "/inbounds/"@, i, inbounds[i as int]),
                        protocol_of(inbounds[i as int])->Some_0);
                }
            }
        }
    }
}

proof fn lemma_add_clients_same_inbounds(inv: InventoryView, file: Seq<char>, outbounds: Seq<JsonView>, k: nat)
    ensures
        add_clients(inv, file, outbounds, k) matches Ok(out) ==> same_inbounds(inv.services, out.services),
    decreases outbounds.len() - k,
{
    if k < outbounds.len() {
        if let Ok(next) = add_client(inv, file, k, outbounds[k as int]) {
            lemma_add_clients_same_inbounds(next, file, outbounds, k + 1);
            let o = outbounds[k as int];
            if let Some(p) = protocol_of(o) {
                if let Some(v) = credential_of(o, p) {
                    crate::binding::lemma_match_pairs_bounds(inv.services, p, v, 0);
                }
            }
            assert(same_inbounds(inv.services, next.services));
        }
    }
}

proof fn lemma_add_client_docs_same_inbounds(inv: InventoryView, docs: Seq<DocView>, k: nat)
    ensures
        add_client_docs(inv, docs, k) matches Ok(out) ==> same_inbounds(inv.services, out.services),
    decreases docs.len() - k,
{
    if k < docs.len() {
        if let Ok(outbounds) = array_field(docs[k as int].value, "outbounds"@, docs[k as int].path) {
            lemma_add_clients_same_inbounds(inv, docs[k as int].path, outbounds, 0);
            if let Ok(next) = add_clients(inv, docs[k as int].path, outbounds, 0) {
                lemma_add_client_docs_same_inbounds(next, docs, k + 1);
            }
        }
    }
}

/// Discovery reads every server file: each inbound of any server document that is
/// of a supported protocol and passes the tag selector is a service of the
/// inventory, with that protocol.
pub proof fn law_discovery_finds_every_inbound(configs: ConfigSet, inbound_tags: Seq<Seq<char>>, d: int, inbounds: Seq<JsonView>, i: nat)
    requires
        0 <= d < configs.server_docs().len(),
        array_field(configs.server_docs()[d].value, "inbounds"@, configs.server_docs()[d].path)
            == Ok::<Seq<JsonView>, (ErrorKind, Seq<char>)>(inbounds),
        i < inbounds.len(),
        protocol_of(inbounds[i as int]) is Some,
        spec_tag_selected(endpoint_at(configs.server_docs()[d].path, "/inbounds/"@, i, inbounds[i as int]).tag, inbound_tags),
    ensures
        discovered(configs, inbound_tags) matches Ok(inv) ==> exists|s: int| 0 <= s < inv.services.len()
            && (#[trigger] inv.services[s]).inbound == endpoint_at(configs.server_docs()[d].path, "/inbounds/"@, i, inbounds[i as int])
            && inv.services[s].protocol == protocol_of(inbounds[i as int])->Some_0,
{
    let docs = configs.server_docs();
    lemma_add_server_docs_finds(Seq::empty(), docs, 0, inbound_tags, d, inbounds, i);
    if let Ok(services) = add_server_docs(Seq::empty(), docs, 0, inbound_tags) {
        let start = InventoryView { services, unbound: Seq::empty() };
        lemma_add_client_docs_same_inbounds(start, configs.client_docs(), 0);
        if let Ok(inv) = add_client_docs(start, configs.client_docs(), 0) {
            lemma_has_service_extend(services, inv.services, endpoint_at(docs[d].path, "/inbounds/"@, i, inbounds[i as int]),
                protocol_of(inbounds[i as int])->Some_0);
        }
    }
}


/// The short ID a Reality client uses, as the server compares it.
pub open spec fn client_id(configs: ConfigSet, c: EndpointView) -> Option<Seq<char>> {
    match client_short_id_of(configs, c) {
        Ok(raw) => normalize_short_id(raw),
        Err(_) => None,
    }
}

/// Client `j` (from `lo` on) uses `x`, and is selected exactly when `sel` is.
pub open spec fn used_by(configs: ConfigSet, input: Input, cs: Seq<EndpointView>, x: Seq<char>, sel: bool, lo: int) -> bool {
    exists|j: int| lo <= j < cs.len() && client_id(configs, #[trigger] cs[j]) == Some(x) && selected_by(configs, input, cs[j]) == sel
}

proof fn lemma_split_clients(configs: ConfigSet, input: Input, accepted: Seq<Seq<char>>, cs: Seq<EndpointView>, i: nat, st: ShortIdSplit)
    ensures
        split_clients(configs, input, accepted, cs, i, st) matches Ok(out) ==> {
            &&& forall|x: Seq<char>| st.retired.contains(x) ==> #[trigger] out.retired.contains(x)
            &&& forall|x: Seq<char>| st.retained.contains(x) ==> #[trigger] out.retained.contains(x)
            &&& forall|j: int| i <= j < cs.len() ==> (client_id(configs, #[trigger] cs[j]) matches Some(id)
                && (selected_by(configs, input, cs[j]) ==> out.retired.contains(id))
                && (!selected_by(configs, input, cs[j]) ==> out.retained.contains(id)))
            &&& forall|x: Seq<char>| #[trigger] out.retired.contains(x) ==> st.retired.contains(x) || used_by(configs, input, cs, x, true, i as int)
            &&& forall|x: Seq<char>| #[trigger] out.retained.contains(x) ==> st.retained.contains(x) || used_by(configs, input, cs, x, false, i as int)
        },
    decreases cs.len() - i,
{
    if i < cs.len() {
        let c = cs[i as int];
        if let Ok(raw) = client_short_id_of(configs, c) {
            if let Some(id) = normalize_short_id(raw) {
                if accepted.contains(id) {
                    let sel = selected_by(configs, input, c);
                    let next = if sel {
                        ShortIdSplit { selected: st.selected.push(c), retired: st.retired.push(id), retained: st.retained }
                    } else {
                        ShortIdSplit { retained: st.retained.push(id), ..st }
                    };
                    lemma_split_clients(configs, input, accepted, cs, i + 1, next);
                    if let Ok(out) = split_clients(configs, input, accepted, cs, i, st) {
                        assert(split_clients(configs, input, accepted, cs, i + 1, next) == Ok::<ShortIdSplit, ErrorKind>(out));
                        assert(client_id(configs, c) == Some(id));
                        assert forall|x: Seq<char>| st.retired.contains(x) implies #[trigger] out.retired.contains(x) by {
                            if sel {
                                let k = choose|k: int| 0 <= k < st.retired.len() && st.retired[k] == x;
                                assert(next.retired[k] == x);
                            }
                        }
                        assert forall|x: Seq<char>| st.retained.contains(x) implies #[trigger] out.retained.contains(x) by {
                            if !sel {
                                let k = choose|k: int| 0 <= k < st.retained.len() && st.retained[k] == x;
                                assert(next.retained[k] == x);
                            }
                        }
                        if sel {
                            assert(next.retired[st.retired.len() as int] == id);
                            assert(out.retired.contains(id));
                        } else {
                            assert(next.retained[st.retained.len() as int] == id);
                            assert(out.retained.contains(id));
                        }
                        assert forall|x: Seq<char>| #[trigger] out.retired.contains(x) implies
                            st.retired.contains(x) || used_by(configs, input, cs, x, true, i as int) by {
                            if next.retired.contains(x) && !st.retired.contains(x) {
                                let k = choose|k: int| 0 <= k < next.retired.len() && next.retired[k] == x;
                                if sel {
                                    if k < st.retired.len() {
                                        assert(st.retired[k] == x);
                                    } else {
                                        assert(x == id);
                                        assert(client_id(configs, cs[i as int]) == Some(x));
                                    }
                                }
                            }
                            if used_by(configs, input, cs, x, true, (i + 1) as int) {
                                let j = choose|j: int| (i + 1) as int <= j < cs.len() && client_id(configs, #[trigger] cs[j]) == Some(x)
                                    && selected_by(configs, input, cs[j]) == true;
                                assert(client_id(configs, cs[j]) == Some(x));
                            }
                        }
                        assert forall|x: Seq<char>| #[trigger] out.retained.contains(x) implies
                            st.retained.contains(x) || used_by(configs, input, cs, x, false, i as int) by {
                            if next.retained.contains(x) && !st.retained.contains(x) {
                                let k = choose|k: int| 0 <= k < next.retained.len() && next.retained[k] == x;
                                if !sel {
                                    if k < st.retained.len() {
                                        assert(st.retained[k] == x);
                                    } else {
                                        assert(x == id);
                                        assert(client_id(configs, cs[i as int]) == Some(x));
                                    }
                                }
                            }
                            if used_by(configs, input, cs, x, false, (i + 1) as int) {
                                let j = choose|j: int| (i + 1) as int <= j < cs.len() && client_id(configs, #[trigger] cs[j]) == Some(x)
                                    && selected_by(configs, input, cs[j]) == false;
                                assert(client_id(configs, cs[j]) == Some(x));
                            }
                        }
                    }
                }
            }
        }
    }
}

/// The split of a short-ID rotation follows the clients: the IDs given up are
/// exactly those of the selected clients, and the IDs still in use exactly those
/// of the others. With the law above, an ID that only selected clients used is no
/// longer accepted after the rotation, and one an unselected client uses stays.
pub proof fn law_short_id_split_follows_clients(configs: ConfigSet, input: Input, accepted: Seq<Seq<char>>, cs: Seq<EndpointView>)
    ensures
        split_clients(configs, input, accepted, cs, 0,
            ShortIdSplit { selected: Seq::empty(), retired: Seq::empty(), retained: Seq::empty() }) matches Ok(split) ==> {
            &&& forall|x: Seq<char>| #[trigger] split.retired.contains(x) <==> used_by(configs, input, cs, x, true, 0)
            &&& forall|x: Seq<char>| #[trigger] split.retained.contains(x) <==> used_by(configs, input, cs, x, false, 0)
        },
{
    let st = ShortIdSplit { selected: Seq::empty(), retired: Seq::empty(), retained: Seq::empty() };
    lemma_split_clients(configs, input, accepted, cs, 0, st);
    if let Ok(split) = split_clients(configs, input, accepted, cs, 0, st) {
        assert forall|x: Seq<char>| #[trigger] split.retired.contains(x) <==> used_by(configs, input, cs, x, true, 0) by {
            if used_by(configs, input, cs, x, true, 0) {
                let j = choose|j: int| 0 <= j < cs.len() && client_id(configs, #[trigger] cs[j]) == Some(x)
                    && selected_by(configs, input, cs[j]) == true;
                assert(client_id(configs, cs[j]) matches Some(id) && (selected_by(configs, input, cs[j]) ==> split.retired.contains(id)));
            }
        }
        assert forall|x: Seq<char>| #[trigger] split.retained.contains(x) <==> used_by(configs, input, cs, x, false, 0) by {
            if used_by(configs, input, cs, x, false, 0) {
                let j = choose|j: int| 0 <= j < cs.len() && client_id(configs, #[trigger] cs[j]) == Some(x)
                    && selected_by(configs, input, cs[j]) == false;
                assert(client_id(configs, cs[j]) matches Some(id) && (!selected_by(configs, input, cs[j]) ==> split.retained.contains(id)));
            }
        }
    }
}


/// `svc` is inbound `i` of a server file `file` with items `inbounds`, one that
/// discovery takes, with its protocol.
pub open spec fn inbound_of(file: Seq<char>, inbounds: Seq<JsonView>, tags: Seq<Seq<char>>, svc: ServiceView) -> bool {
    exists|i: int| 0 <= i < inbounds.len() && discoverable(file, i as nat, #[trigger] inbounds[i], tags)
        && svc.inbound == endpoint_at(file, "/inbounds/"@, i as nat, inbounds[i])
        && svc.protocol == protocol_of(inbounds[i])->Some_0
}

/// `svc` is a discoverable inbound of one of the server documents.
pub open spec fn from_server_docs(docs: Seq<DocView>, tags: Seq<Seq<char>>, svc: ServiceView) -> bool {
    exists|d: int| {
        &&& 0 <= d < docs.len()
        &&& #[trigger] array_field(docs[d].value, "inbounds"@, docs[d].path) matches Ok(inbounds)
        &&& inbound_of(docs[d].path, inbounds, tags, svc)
    }
}

proof fn lemma_add_inbounds_sound(svcs: Seq<ServiceView>, file: Seq<char>, inbounds: Seq<JsonView>, k: nat, tags: Seq<Seq<char>>)
    ensures
        add_inbounds(svcs, file, inbounds, k, tags) matches Ok(out) ==>
            forall|s: int| svcs.len() <= s < out.len() ==> inbound_of(file, inbounds, tags, #[trigger] out[s]),
    decreases inbounds.len() - k,
{
    if k < inbounds.len() {
        if let Ok(next) = add_inbound(svcs, file, k, inbounds[k as int], tags) {
            lemma_add_inbounds_sound(next, file, inbounds, k + 1, tags);
            lemma_add_inbounds_extend(next, file, inbounds, k + 1, tags);
            if let Ok(out) = add_inbounds(svcs, file, inbounds, k, tags) {
                if next.len() > svcs.len() {
                    let p = protocol_of(inbounds[k as int])->Some_0;
                    let ep = endpoint_at(file, "/inbounds/"@, k, inbounds[k as int]);
                    let users = array_field(inbounds[k as int], "users"@, label_text(ep))->Ok_0;
                    lemma_add_users_keeps_inbound(ServiceView { protocol: p, inbound: ep, identities: Seq::empty() }, users, 0);
                    assert(out[svcs.len() as int] == next[svcs.len() as int]);
                    assert(inbound_of(file, inbounds, tags, out[svcs.len() as int])) by {
                        assert(discoverable(file, k, inbounds[k as int], tags));
                    }
                }
            }
        }
    }
}

proof fn lemma_add_server_docs_sound(svcs: Seq<ServiceView>, docs: Seq<DocView>, k: nat, tags: Seq<Seq<char>>)
    ensures
        add_server_docs(svcs, docs, k, tags) matches Ok(out) ==>
            forall|s: int| svcs.len() <= s < out.len() ==> from_server_docs(docs, tags, #[trigger] out[s]),
    decreases docs.len() - k,
{
    if k < docs.len() {
        if let Ok(inbounds) = array_field(docs[k as int].value, "inbounds"@, docs[k as int].path) {
            lemma_add_inbounds_sound(svcs, docs[k as int].path, inbounds, 0, tags);
            lemma_add_inbounds_extend(svcs, docs[k as int].path, inbounds, 0, tags);
            if let Ok(next) = add_inbounds(svcs, docs[k as int].path, inbounds, 0, tags) {
                lemma_add_server_docs_sound(next, docs, k + 1, tags);
                lemma_add_server_docs_extend(next, docs, k + 1, tags);
                if let Ok(out) = add_server_docs(svcs, docs, k, tags) {
                    assert forall|s: int| svcs.len() <= s < out.len() implies from_server_docs(docs, tags, #[trigger] out[s]) by {
                        if s < next.len() {
                            assert(out[s] == next[s]);
                            assert(inbound_of(docs[k as int].path, inbounds, tags, next[s]));
                            assert(array_field(docs[k as int].value, "inbounds"@, docs[k as int].path)
                                == Ok::<Seq<JsonView>, (ErrorKind, Seq<char>)>(inbounds));
                        }
                    }
                }
            }
        }
    }
}

/// Discovery finds nothing else: every service of the inventory is an inbound of
/// a server document, of a supported protocol, that passes the tag selector.
pub proof fn law_discovered_services_are_server_inbounds(configs: ConfigSet, inbound_tags: Seq<Seq<char>>)
    ensures
        discovered(configs, inbound_tags) matches Ok(inv) ==>
            forall|s: int| 0 <= s < inv.services.len() ==> from_server_docs(configs.server_docs(), inbound_tags, #[trigger] inv.services[s]),
{
    let docs = configs.server_docs();
    lemma_add_server_docs_sound(Seq::empty(), docs, 0, inbound_tags);
    if let Ok(services) = add_server_docs(Seq::empty(), docs, 0, inbound_tags) {
        let start = InventoryView { services, unbound: Seq::empty() };
        lemma_add_client_docs_same_inbounds(start, configs.client_docs(), 0);
        if let Ok(inv) = add_client_docs(start, configs.client_docs(), 0) {
            assert forall|s: int| 0 <= s < inv.services.len() implies from_server_docs(docs, inbound_tags, #[trigger] inv.services[s]) by {
                assert(from_server_docs(docs, inbound_tags, services[s]));
                let d = choose|d: int| {
                    &&& 0 <= d < docs.len()
                    &&& #[trigger] array_field(docs[d].value, "inbounds"@, docs[d].path) matches Ok(inbounds)
                    &&& inbound_of(docs[d].path, inbounds, inbound_tags, services[s])
                };
                let inbounds = array_field(docs[d].value, "inbounds"@, docs[d].path)->Ok_0;
                let i = choose|i: int| 0 <= i < inbounds.len() && discoverable(docs[d].path, i as nat, #[trigger] inbounds[i], inbound_tags)
                    && services[s].inbound == endpoint_at(docs[d].path, "/inbounds/"@, i as nat, inbounds[i])
                    && services[s].protocol == protocol_of(inbounds[i])->Some_0;
                assert(inv.services[s].inbound == services[s].inbound);
                assert(inbound_of(docs[d].path, inbounds, inbound_tags, inv.services[s]));
            }
        }
    }
}

} // verus!
