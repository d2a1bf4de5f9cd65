use std::cell::Cell;
use std::collections::BTreeMap;

use sb_rotate::binding;
use sb_rotate::cli::{IdentityKind, Input, Protocol};
use sb_rotate::config::{ConfigSet, Document};
use sb_rotate::error::{Error, ErrorKind};
use sb_rotate::json::{Json, JsonNumber, Member};
use sb_rotate::plan::{self, Edit};
use sb_rotate::singbox::{RealityKeyPair, SingBox, Version};
use serde_json::Value;

const ROOT: &str = "/srv/sb-rotate-workflow";

fn to_json(v: &Value) -> Json {
    match v {
        Value::Null => Json::Null,
        Value::Bool(b) => Json::Bool(*b),
        Value::Number(n) => {
            if let Some(u) = n.as_u64() {
                Json::Number(JsonNumber::Unsigned(u))
            } else if let Some(i) = n.as_i64() {
                Json::Number(JsonNumber::Negative(i))
            } else {
                Json::Number(JsonNumber::Other(n.to_string()))
            }
        }
        Value::String(s) => Json::String(s.clone()),
        Value::Array(items) => Json::Array(items.iter().map(to_json).collect()),
        Value::Object(map) => {
            Json::Object(map.iter().map(|(k, v)| Member { key: k.clone(), value: to_json(v) }).collect())
        }
    }
}

fn from_json(j: &Json) -> Value {
    match j {
        Json::Null => Value::Null,
        Json::Bool(b) => Value::Bool(*b),
        Json::Number(JsonNumber::Unsigned(u)) => Value::from(*u),
        Json::Number(JsonNumber::Negative(i)) => Value::from(*i),
        Json::Number(JsonNumber::Other(t)) => serde_json::from_str(t).unwrap(),
        Json::String(s) => Value::String(s.clone()),
        Json::Array(items) => Value::Array(items.iter().map(from_json).collect()),
        Json::Object(members) => {
            let mut map = serde_json::Map::new();
            for m in members {
                map.insert(m.key.clone(), from_json(&m.value));
            }
            Value::Object(map)
        }
    }
}

#[derive(Default)]
struct FakeSingBox {
    generated: Cell<usize>,
    fail_generate: Cell<bool>,
}

impl SingBox for FakeSingBox {
    fn version(&self) -> Result<Version, Error> {
        Ok(Version::new(1, 14, 0))
    }
    fn generate_uuid(&self) -> Result<String, Error> {
        if self.fail_generate.get() {
            return Err(Error::plain(ErrorKind::Generator));
        }
        let count = self.generated.get() + 1;
        self.generated.set(count);
        Ok(format!("aaaaaaaa-aaaa-4aaa-8aaa-{count:012}"))
    }
    fn generate_random_base64(&self, bytes: usize) -> Result<String, Error> {
        assert_eq!(bytes, 32);
        Ok(format!("secret-{}", self.generate_uuid()?))
    }
    fn generate_random_hex(&self, _bytes: usize) -> Result<String, Error> {
        Err(Error::plain(ErrorKind::Generator))
    }
    fn generate_reality_keypair(&self) -> Result<RealityKeyPair, Error> {
        Err(Error::plain(ErrorKind::Generator))
    }
    fn check_file(&self, _path: &str) -> Result<(), Error> {
        Ok(())
    }
    fn check_directory(&self, _path: &str) -> Result<(), Error> {
        Ok(())
    }
}

fn path(relative: &str) -> String {
    format!("{ROOT}/{relative}")
}

fn object(pairs: Vec<(&str, Value)>) -> Value {
    let mut map = serde_json::Map::new();
    for (k, v) in pairs {
        map.insert(k.to_owned(), v);
    }
    Value::Object(map)
}

fn inbound(protocol: &str, tag: &str, credentials: &[&str]) -> Value {
    let field = if protocol == "vless" { "uuid" } else { "password" };
    let users: Vec<Value> =
        credentials.iter().map(|value| object(vec![("name", Value::from("user")), (field, Value::from(*value))])).collect();
    object(vec![("type", Value::from(protocol)), ("tag", Value::from(tag)), ("users", Value::Array(users))])
}

fn outbound(protocol: &str, tag: &str, value: &str) -> Value {
    let field = if protocol == "vless" { "uuid" } else { "password" };
    object(vec![
        ("type", Value::from(protocol)),
        ("tag", Value::from(tag)),
        (field, Value::from(value)),
        ("server", Value::from("irrelevant.example")),
        ("server_port", Value::from(443)),
    ])
}

struct Fixture {
    files: BTreeMap<String, Value>,
    input: Input,
}

impl Fixture {
    fn new() -> Self {
        let input = Input { server: path("server.json"), clients: Some(path("clients")), ..Input::default() };
        let mut fixture = Fixture { files: BTreeMap::new(), input };
        fixture.put(
            "server.json",
            object(vec![
                ("inbounds", Value::Array(vec![inbound("vless", "home", &["shared", "other", "unmatched"])])),
                ("unrelated", object(vec![("enabled", Value::from(true))])),
            ]),
        );
        fixture.put(
            "clients/phone.json",
            object(vec![("outbounds", Value::Array(vec![outbound("vless", "home", "shared"), outbound("vless", "backup", "shared")]))]),
        );
        fixture.put(
            "clients/laptop.json",
            object(vec![("outbounds", Value::Array(vec![outbound("vless", "home", "shared"), outbound("vless", "other", "other")]))]),
        );
        fixture
    }
    fn put(&mut self, relative: &str, value: Value) {
        self.files.insert(path(relative), value);
    }
    fn document(&self, p: &str) -> Document {
        let value = &self.files[p];
        Document { path: p.to_owned(), value: to_json(value), original: serde_json::to_vec(value).unwrap() }
    }
    fn load(&self) -> ConfigSet {
        let server = path("server.json");
        let clients: Vec<String> = self.files.keys().filter(|p| p.starts_with(&path("clients/"))).cloned().collect();
        ConfigSet::assemble(
            server.clone(),
            false,
            vec![("server.json".to_owned(), server.clone())],
            vec![self.document(&server)],
            clients.iter().map(|p| self.document(p)).collect(),
            self.input.client.clone(),
        )
        .unwrap()
    }
}

fn rotate(fixture: &Fixture, kind: IdentityKind, sb: &FakeSingBox) -> Result<plan::RotationPlan, Error> {
    let configs = fixture.load();
    let inventory = binding::discover(&configs, &fixture.input)?;
    plan::identities(&configs, &inventory, &fixture.input, kind, sb)
}

fn new_text(edit: &Edit) -> String {
    match &edit.new {
        Some(Json::String(s)) => s.clone(),
        _ => panic!("edit does not set a string"),
    }
}

#[test]
fn discovery_groups_all_outbounds_by_identity_not_address_or_tag() {
    let fixture = Fixture::new();
    let configs = fixture.load();
    let inventory = binding::discover(&configs, &fixture.input).unwrap();
    assert_eq!(inventory.services.len(), 1);
    let identities = &inventory.services[0].identities;
    assert_eq!(identities.len(), 3);
    assert_eq!(identities[0].clients.len(), 3);
    assert_eq!(identities[1].clients.len(), 1);
    assert!(identities[2].clients.is_empty());
    assert!(inventory.render(&configs, &fixture.input, None).contains("unmatched server identity"));
}

#[test]
fn identity_selection_expands_to_all_shared_clients_and_duplicate_server_users() {
    let mut fixture = Fixture::new();
    fixture.put(
        "server.json",
        object(vec![("inbounds", Value::Array(vec![inbound("vless", "home", &["shared", "shared", "other"])]))]),
    );
    fixture.input.client = vec![path("clients/phone.json")];
    fixture.input.client_tag = vec!["backup".to_owned()];
    let configs = fixture.load();
    let sb = FakeSingBox::default();
    let plan = rotate(&fixture, IdentityKind::VlessUuid, &sb).unwrap();
    assert_eq!(sb.generated.get(), 1);
    assert_eq!(plan.edits.len(), 5);
    assert!(plan.edits.iter().all(|edit| new_text(edit) == new_text(&plan.edits[0])));
    let changed = plan.materialize(&configs).unwrap();
    let laptop = changed.iter().find(|c| c.path == path("clients/laptop.json")).unwrap();
    assert_eq!(from_json(&laptop.value)["outbounds"][1]["uuid"], "other");
}

#[test]
fn selectors_or_within_categories_and_across_categories() {
    let mut fixture = Fixture::new();
    fixture.input.client = vec![path("clients/phone.json"), path("clients/laptop.json")];
    fixture.input.client_tag = vec!["other".to_owned(), "nonexistent".to_owned()];
    fixture.input.inbound_tag = vec!["home".to_owned(), "nonexistent".to_owned()];
    let plan = rotate(&fixture, IdentityKind::VlessUuid, &FakeSingBox::default()).unwrap();
    assert_eq!(plan.edits.len(), 2);
    assert!(plan.edits.iter().all(|edit| matches!(&edit.old, Some(Json::String(s)) if s == "other")));
}

#[test]
fn duplicate_identity_across_inbounds_is_ambiguous_until_server_selected() {
    let mut fixture = Fixture::new();
    fixture.put(
        "server.json",
        object(vec![(
            "inbounds",
            Value::Array(vec![inbound("vless", "home", &["shared"]), inbound("vless", "office", &["shared"])]),
        )]),
    );
    let configs = fixture.load();
    let inventory = binding::discover(&configs, &fixture.input).unwrap();
    assert_eq!(inventory.unbound.iter().filter(|client| client.candidates.len() == 2).count(), 3);
    assert!(inventory.render(&configs, &fixture.input, None).contains("ambiguous"));
    let sb = FakeSingBox::default();
    assert!(rotate(&fixture, IdentityKind::VlessUuid, &sb).is_err());
    assert_eq!(sb.generated.get(), 0);
    fixture.input.inbound_tag = vec!["home".to_owned()];
    let plan = rotate(&fixture, IdentityKind::VlessUuid, &sb).unwrap();
    assert_eq!(plan.edits.len(), 4);
    assert!(plan.edits.iter().all(|edit| !edit.target.pointer.starts_with("/inbounds/1")));
}

#[test]
fn unmatched_clients_are_reported_and_never_rotated() {
    let mut fixture = Fixture::new();
    fixture.put("clients/unknown.json", object(vec![("outbounds", Value::Array(vec![outbound("vless", "home", "unknown")]))]));
    let configs = fixture.load();
    let inventory = binding::discover(&configs, &fixture.input).unwrap();
    assert_eq!(inventory.unbound.len(), 1);
    assert!(inventory.render(&configs, &fixture.input, None).contains("unmatched vless"));
    let plan = rotate(&fixture, IdentityKind::VlessUuid, &FakeSingBox::default()).unwrap();
    assert_eq!(plan.edits.len(), 6);
    assert!(plan.edits.iter().all(|edit| edit.target.file != path("clients/unknown.json")));
}

#[test]
fn hysteria_passwords_are_grouped_rotated_and_masked() {
    let mut fixture = Fixture::new();
    fixture.put(
        "server.json",
        object(vec![("inbounds", Value::Array(vec![inbound("hysteria2", "hy2", &["very-secret", "very-secret"])]))]),
    );
    fixture.put(
        "clients/phone.json",
        object(vec![(
            "outbounds",
            Value::Array(vec![outbound("hysteria2", "home", "very-secret"), outbound("hysteria2", "backup", "very-secret")]),
        )]),
    );
    fixture.input.client = vec![path("clients/phone.json")];
    fixture.input.client_tag = vec!["home".to_owned()];
    let configs = fixture.load();
    let inventory = binding::discover(&configs, &fixture.input).unwrap();
    let rendered = inventory.render(&configs, &fixture.input, Some(Protocol::Hysteria2));
    assert!(!rendered.contains("very-secret"));
    assert!(rendered.contains("********"));
    let plan = rotate(&fixture, IdentityKind::Hysteria2Password, &FakeSingBox::default()).unwrap();
    assert_eq!(plan.edits.len(), 4);
    assert!(!plan.render().contains("very-secret"));
    assert!(!plan.render().contains("secret-"));
    let changed = plan.materialize(&configs).unwrap();
    assert_eq!(changed.len(), 2);
    let server = from_json(&changed.iter().find(|c| c.path == path("server.json")).unwrap().value);
    let phone = from_json(&changed.iter().find(|c| c.path == path("clients/phone.json")).unwrap().value);
    assert_eq!(server["inbounds"][0]["users"][0]["password"], phone["outbounds"][1]["password"]);
}

#[test]
fn generated_collision_with_unselected_server_identity_is_rejected() {
    let mut fixture = Fixture::new();
    fixture.put(
        "server.json",
        object(vec![(
            "inbounds",
            Value::Array(vec![
                inbound("vless", "home", &["shared"]),
                inbound("vless", "office", &["aaaaaaaa-aaaa-4aaa-8aaa-000000000001"]),
            ]),
        )]),
    );
    fixture.input.inbound_tag = vec!["home".to_owned()];
    let error = rotate(&fixture, IdentityKind::VlessUuid, &FakeSingBox::default()).err().unwrap();
    assert!(error.message().contains("collides"));
}

#[test]
fn generic_materialization_rejects_stale_or_duplicate_edits() {
    let fixture = Fixture::new();
    let configs = fixture.load();
    let mut plan = rotate(&fixture, IdentityKind::VlessUuid, &FakeSingBox::default()).unwrap();
    let old = plan.edits[0].old.as_ref().map(|j| j.duplicate());
    plan.edits[0].old = Some(Json::String("stale".into()));
    assert!(plan.materialize(&configs).is_err());
    plan.edits[0].old = old;
    let duplicate = Edit {
        target: plan.edits[0].target.clone(),
        old: plan.edits[0].old.as_ref().map(|j| j.duplicate()),
        new: plan.edits[0].new.as_ref().map(|j| j.duplicate()),
    };
    plan.edits.push(duplicate);
    assert!(plan.materialize(&configs).is_err());
}

#[test]
fn generator_failure_and_empty_selection_produce_no_plan() {
    let mut fixture = Fixture::new();
    let sb = FakeSingBox::default();
    sb.fail_generate.set(true);
    assert_eq!(rotate(&fixture, IdentityKind::VlessUuid, &sb).err().unwrap().kind, ErrorKind::Generator);
    fixture.input.client_tag = vec!["nonexistent".to_owned()];
    let error = rotate(&fixture, IdentityKind::VlessUuid, &FakeSingBox::default()).err().unwrap();
    assert_eq!(error.kind, ErrorKind::NoMatchedIdentities);
}

#[test]
fn rotation_with_given_values_is_exact() {
    let fixture = Fixture::new();
    let configs = fixture.load();
    let inventory = binding::discover(&configs, &fixture.input).unwrap();
    let values = vec!["new-a".to_owned(), "new-b".to_owned()];
    let plan = plan::identities_with(&configs, &inventory, &fixture.input, IdentityKind::VlessUuid, &values).unwrap();
    assert_eq!(plan.edits.len(), 6);
    assert_eq!(plan.edits.iter().filter(|e| new_text(e) == "new-a").count(), 4);
    assert_eq!(plan.edits.iter().filter(|e| new_text(e) == "new-b").count(), 2);
    let too_few = vec!["new-a".to_owned()];
    let error = plan::identities_with(&configs, &inventory, &fixture.input, IdentityKind::VlessUuid, &too_few).err().unwrap();
    assert_eq!(error.kind, ErrorKind::Generator);
    let reused = vec!["new-a".to_owned(), "new-a".to_owned()];
    let error = plan::identities_with(&configs, &inventory, &fixture.input, IdentityKind::VlessUuid, &reused).err().unwrap();
    assert_eq!(error.kind, ErrorKind::GeneratedCollision);
    let empty = vec!["".to_owned(), "x".to_owned()];
    let error = plan::identities_with(&configs, &inventory, &fixture.input, IdentityKind::VlessUuid, &empty).err().unwrap();
    assert_eq!(error.kind, ErrorKind::EmptyGenerated);
}

#[test]
fn config_assembly_rejects_bad_sets() {
    let fixture = Fixture::new();
    let server = path("server.json");
    let doc = |p: &str| fixture.document(p);
    let layout = vec![("server.json".to_owned(), server.clone())];
    let err = ConfigSet::assemble(server.clone(), false, layout.clone(), vec![doc(&server)], Vec::new(), Vec::new()).err().unwrap();
    assert_eq!(err.kind, ErrorKind::NoClientFiles);
    let err = ConfigSet::assemble(server.clone(), true, Vec::new(), Vec::new(), vec![doc(&path("clients/phone.json"))], Vec::new())
        .err()
        .unwrap();
    assert_eq!(err.kind, ErrorKind::NoServerFiles);
    let aliased = vec![("a.json".to_owned(), server.clone()), ("b.json".to_owned(), server.clone())];
    let err = ConfigSet::assemble(server.clone(), true, aliased, vec![doc(&server)], vec![doc(&path("clients/phone.json"))], Vec::new())
        .err()
        .unwrap();
    assert_eq!(err.kind, ErrorKind::AliasedServerFiles);
    let err = ConfigSet::assemble(server.clone(), false, layout.clone(), vec![doc(&server)], vec![doc(&server)], Vec::new()).err().unwrap();
    assert_eq!(err.kind, ErrorKind::ServerAndClientFile);
    let not_object = Document { path: path("clients/array.json"), value: Json::Array(Vec::new()), original: b"[]".to_vec() };
    let err = ConfigSet::assemble(server.clone(), false, layout, vec![doc(&server)], vec![not_object], Vec::new()).err().unwrap();
    assert_eq!(err.kind, ErrorKind::NotAnObject);
}

#[test]
fn ambiguous_clients_are_refused_with_their_candidates() {
    let mut fixture = Fixture::new();
    fixture.put(
        "server.json",
        object(vec![(
            "inbounds",
            Value::Array(vec![inbound("vless", "home", &["shared"]), inbound("vless", "office", &["shared"])]),
        )]),
    );
    let configs = fixture.load();
    let inventory = binding::discover(&configs, &fixture.input).unwrap();
    let error = inventory.ensure_unambiguous(Protocol::Vless).err().unwrap();
    assert_eq!(error.kind, ErrorKind::Ambiguous);
    let server = path("server.json");
    let laptop = path("clients/laptop.json");
    assert_eq!(
        error.message(),
        format!(
            "ambiguous client {laptop}#/outbounds/0 tag=home; matches {server}#/inbounds/0 tag=home, {server}#/inbounds/1 tag=office; narrow with --inbound-tag"
        )
    );
    assert!(inventory.ensure_unambiguous(Protocol::Hysteria2).is_ok());
}

#[test]
fn discovery_errors_name_the_location() {
    let mut fixture = Fixture::new();
    fixture.put("clients/phone.json", object(vec![("outbounds", Value::Array(vec![object(vec![("type", Value::from("vless"))])]))]));
    let error = binding::discover(&fixture.load(), &fixture.input).err().unwrap();
    assert_eq!(error.kind, ErrorKind::MissingCredential);
    assert_eq!(error.message(), format!("{}#/outbounds/0 tag=<untagged>: missing or invalid uuid", path("clients/phone.json")));
    let mut fixture = Fixture::new();
    fixture.put("server.json", object(vec![("inbounds", Value::Array(vec![object(vec![("type", Value::from("vless")), ("users", Value::Array(vec![object(vec![])]))])]))]));
    let error = binding::discover(&fixture.load(), &fixture.input).err().unwrap();
    assert_eq!(error.message(), format!("{}#/inbounds/0/users/0/uuid: missing or invalid uuid", path("server.json")));
    fixture.put("server.json", object(vec![("inbounds", Value::from(1))]));
    let error = binding::discover(&fixture.load(), &fixture.input).err().unwrap();
    assert_eq!(error.message(), format!("{}: inbounds must be an array", path("server.json")));
}

#[test]
fn no_selected_identity_is_refused_before_generating() {
    let mut fixture = Fixture::new();
    fixture.input.client_tag = vec!["nowhere".to_owned()];
    let sb = FakeSingBox::default();
    assert_eq!(rotate(&fixture, IdentityKind::VlessUuid, &sb).err().unwrap().kind, ErrorKind::NoMatchedIdentities);
    let configs = fixture.load();
    let inventory = binding::discover(&configs, &fixture.input).unwrap();
    let error = plan::rotation(&configs, &inventory, &fixture.input, sb_rotate::cli::RotationKind::VlessUuid, &sb).err().unwrap();
    assert_eq!(error.kind, ErrorKind::NoMatchedIdentities);
    let error = plan::rotation_by_type(&configs, &inventory, &fixture.input, Protocol::Vless,
        Some(sb_rotate::cli::RotationMaterial::Uuid), &sb).err().unwrap();
    assert_eq!(error.kind, ErrorKind::NoMatchedIdentities);
    assert_eq!(sb.generated.get(), 0);
}
