use std::cell::{Cell, RefCell};
use std::collections::BTreeMap;

use sb_rotate::binding;
use sb_rotate::cli::{Input, Protocol, RotationMaterial};
use sb_rotate::config::{ConfigSet, Document};
use sb_rotate::error::{Error, ErrorKind};
use sb_rotate::json::{Json, JsonNumber, Member};
use sb_rotate::material::{MaterialValues, rotation_by_type_with};
use sb_rotate::plan::{self, OperationKind, RotationPlan};
use sb_rotate::singbox::{RealityKeyPair, SingBox, Version};
use serde_json::Value;

const ROOT: &str = "/srv/sb-rotate-types";

fn to_json(v: &Value) -> Json {
    match v {
        Value::Null => Json::Null,
        Value::Bool(b) => Json::Bool(*b),
        Value::Number(n) => {
            if let Some(u) = n.as_u64() {
                Json::Number(JsonNumber::Unsigned(u))
            } else if let Some(i) = n.as_i64() {
                Json::Number(JsonNumber::Negative(i))
            } else {
                Json::Number(JsonNumber::Other(n.to_string()))
            }
        }
        Value::String(s) => Json::String(s.clone()),
        Value::Array(items) => Json::Array(items.iter().map(to_json).collect()),
        Value::Object(map) => {
            Json::Object(map.iter().map(|(k, v)| Member { key: k.clone(), value: to_json(v) }).collect())
        }
    }
}

fn from_json(j: &Json) -> Value {
    match j {
        Json::Null => Value::Null,
        Json::Bool(b) => Value::Bool(*b),
        Json::Number(JsonNumber::Unsigned(u)) => Value::from(*u),
        Json::Number(JsonNumber::Negative(i)) => Value::from(*i),
        Json::Number(JsonNumber::Other(t)) => serde_json::from_str(t).unwrap(),
        Json::String(s) => Value::String(s.clone()),
        Json::Array(items) => Value::Array(items.iter().map(from_json).collect()),
        Json::Object(members) => {
            let mut map = serde_json::Map::new();
            for m in members {
                map.insert(m.key.clone(), from_json(&m.value));
            }
            Value::Object(map)
        }
    }
}

fn parse(text: &str) -> Value {
    serde_json::from_str(text).unwrap()
}

fn path(relative: &str) -> String {
    format!("{ROOT}/{relative}")
}

#[derive(Default)]
struct Generator {
    calls: Cell<usize>,
    fail_keys: Cell<bool>,
}

impl Generator {
    fn next(&self) -> usize {
        let n = self.calls.get() + 1;
        self.calls.set(n);
        n
    }
}

impl SingBox for Generator {
    fn version(&self) -> Result<Version, Error> {
        Ok(Version::new(1, 14, 0))
    }
    fn generate_uuid(&self) -> Result<String, Error> {
        Ok(format!("uuid-{}", self.next()))
    }
    fn generate_random_base64(&self, _: usize) -> Result<String, Error> {
        Ok(format!("password-{}", self.next()))
    }
    fn generate_random_hex(&self, _: usize) -> Result<String, Error> {
        Ok(format!("{:016x}", self.next()))
    }
    fn generate_reality_keypair(&self) -> Result<RealityKeyPair, Error> {
        if self.fail_keys.get() {
            return Err(Error::plain(ErrorKind::Generator));
        }
        let n = self.next();
        Ok(RealityKeyPair { private_key: format!("private-{n}"), public_key: format!("public-{n}") })
    }
    fn check_file(&self, _: &str) -> Result<(), Error> {
        Ok(())
    }
    fn check_directory(&self, _: &str) -> Result<(), Error> {
        Ok(())
    }
}

struct Fixture {
    files: RefCell<BTreeMap<String, Value>>,
    input: Input,
}

impl Fixture {
    fn new() -> Self {
        let input = Input { server: path("server.json"), clients: Some(path("clients")), ..Input::default() };
        let fixture = Fixture { files: RefCell::new(BTreeMap::new()), input };
        let mut inbounds = Vec::new();
        let mut outbounds = Vec::new();
        for (kind, field) in [("vless", "uuid"), ("hysteria2", "password")] {
            for n in 0..2 {
                let credential = format!("{kind}-{n}");
                let mut inbound = parse(&format!(
                    r#"{{"type": "{kind}", "tag": "{kind}-{n}", "users": [{{"{field}": "{credential}"}}, {{"{field}": "unmatched-{kind}-{n}"}}]}}"#
                ));
                let mut outbound = parse(&format!(
                    r#"{{"type": "{kind}", "tag": "{kind}-{n}", "{field}": "{credential}", "server": "unchanged.example", "server_port": 443}}"#
                ));
                if kind == "vless" {
                    inbound["tls"] = parse(&format!(
                        r#"{{"enabled": true, "reality": {{"enabled": true, "private_key": "old-private-{n}", "short_id": ["aaaaaaaaaaaaaaaa", "bbbbbbbbbbbbbbbb"]}}}}"#
                    ));
                    outbound["tls"] = parse(&format!(
                        r#"{{"enabled": true, "reality": {{"enabled": true, "public_key": "old-public-{n}", "short_id": "aaaaaaaaaaaaaaaa"}}}}"#
                    ));
                } else {
                    inbound["obfs"] = parse(&format!(r#"{{"type": "salamander", "password": "old-obfs-{n}"}}"#));
                    outbound["obfs"] = inbound["obfs"].clone();
                }
                inbounds.push(inbound);
                outbounds.push(outbound.clone());
                outbound["tag"] = Value::from(format!("copy-{kind}-{n}"));
                outbounds.push(outbound);
            }
        }
        let mut server = serde_json::Map::new();
        server.insert("inbounds".to_owned(), Value::Array(inbounds));
        fixture.put("server.json", Value::Object(server));
        let mut client = serde_json::Map::new();
        client.insert("outbounds".to_owned(), Value::Array(outbounds));
        fixture.put("clients/all.json", Value::Object(client));
        fixture
    }
    fn put(&self, relative: &str, value: Value) {
        self.files.borrow_mut().insert(path(relative), value);
    }
    fn get(&self, relative: &str) -> Value {
        self.files.borrow()[&path(relative)].clone()
    }
    fn document(&self, p: &str) -> Document {
        let value = self.files.borrow()[p].clone();
        Document { path: p.to_owned(), value: to_json(&value), original: serde_json::to_vec(&value).unwrap() }
    }
    fn configs(&self) -> ConfigSet {
        let server = path("server.json");
        let clients: Vec<String> =
            self.files.borrow().keys().filter(|p| p.starts_with(&path("clients/"))).cloned().collect();
        ConfigSet::assemble(
            server.clone(),
            false,
            vec![("server.json".to_owned(), server.clone())],
            vec![self.document(&server)],
            clients.iter().map(|p| self.document(p)).collect(),
            self.input.client.clone(),
        )
        .unwrap()
    }
    fn plan(&self, protocol: Protocol, only: Option<RotationMaterial>, sb: &Generator) -> Result<(ConfigSet, RotationPlan), Error> {
        let configs = self.configs();
        let inventory = binding::discover(&configs, &self.input)?;
        let plan = plan::rotation_by_type(&configs, &inventory, &self.input, protocol, only, sb)?;
        Ok((configs, plan))
    }
}

fn materialized(configs: &ConfigSet, plan: &RotationPlan, relative: &str) -> Value {
    let changed = plan.materialize(configs).unwrap();
    changed.iter().find(|c| c.path == path(relative)).map(|c| from_json(&c.value)).unwrap()
}

fn credential(protocol: Protocol) -> &'static str {
    match protocol {
        Protocol::Vless => "uuid",
        Protocol::Hysteria2 => "password",
    }
}

#[test]
fn type_rotation_composes_multiple_inbounds_and_shared_outbounds_in_one_apply() {
    for protocol in [Protocol::Vless, Protocol::Hysteria2] {
        let fixture = Fixture::new();
        let sb = Generator::default();
        let before_server = fixture.get("server.json");
        let before_client = fixture.get("clients/all.json");
        let (configs, plan) = fixture.plan(protocol, None, &sb).unwrap();
        assert_eq!(fixture.get("server.json"), before_server);
        assert_eq!(fixture.get("clients/all.json"), before_client);
        assert_eq!(plan.materialize(&configs).unwrap().len(), 2);
        let server = materialized(&configs, &plan, "server.json");
        let client = materialized(&configs, &plan, "clients/all.json");
        let start = if protocol == Protocol::Vless { 0 } else { 2 };
        let field = credential(protocol);
        for i in 0..4 {
            if !(start..start + 2).contains(&i) {
                assert_eq!(server["inbounds"][i], before_server["inbounds"][i]);
                assert_eq!(client["outbounds"][i * 2], before_client["outbounds"][i * 2]);
                continue;
            }
            let inbound = &server["inbounds"][i];
            let a = &client["outbounds"][i * 2];
            let b = &client["outbounds"][i * 2 + 1];
            assert_eq!(inbound["users"][0][field], a[field]);
            assert_eq!(a[field], b[field]);
            assert_ne!(a[field], before_client["outbounds"][i * 2][field]);
            assert_eq!(inbound["users"][1], before_server["inbounds"][i]["users"][1]);
            assert_eq!(a["server"], "unchanged.example");
            assert_eq!(a["server_port"], 443);
            if protocol == Protocol::Vless {
                assert_eq!(a["tls"]["reality"]["public_key"], b["tls"]["reality"]["public_key"]);
                assert_ne!(a["tls"]["reality"]["short_id"], b["tls"]["reality"]["short_id"]);
                let ids = inbound["tls"]["reality"]["short_id"].as_array().unwrap();
                assert_eq!(ids.len(), 3);
                assert_eq!(ids[0], "bbbbbbbbbbbbbbbb");
                assert!(ids.contains(&a["tls"]["reality"]["short_id"]));
                assert!(ids.contains(&b["tls"]["reality"]["short_id"]));
            } else {
                assert_eq!(inbound["obfs"], a["obfs"]);
                assert_eq!(a["obfs"], b["obfs"]);
                assert_ne!(a["obfs"], before_client["outbounds"][i * 2]["obfs"]);
            }
        }
        let a = &server["inbounds"][start];
        let b = &server["inbounds"][start + 1];
        assert_ne!(a["users"][0][field], b["users"][0][field]);
        if protocol == Protocol::Vless {
            assert_ne!(a["tls"]["reality"]["private_key"], b["tls"]["reality"]["private_key"]);
        } else {
            assert_ne!(a["obfs"]["password"], b["obfs"]["password"]);
        }
    }
}

#[test]
fn targeted_material_supports_multiple_inbounds_and_preserves_other_material() {
    for (protocol, only, suffix) in [
        (Protocol::Vless, RotationMaterial::Uuid, "/uuid"),
        (Protocol::Vless, RotationMaterial::RealityKeypair, "_key"),
        (Protocol::Vless, RotationMaterial::RealityShortId, "/short_id"),
        (Protocol::Hysteria2, RotationMaterial::Password, "/password"),
        (Protocol::Hysteria2, RotationMaterial::ObfsPassword, "/obfs/password"),
    ] {
        let fixture = Fixture::new();
        let (configs, plan) = fixture.plan(protocol, Some(only), &Generator::default()).unwrap();
        assert!(plan.edits.iter().all(|edit| edit.target.pointer.ends_with(suffix)));
        assert!(plan.edits.iter().any(|edit| edit.target.pointer.starts_with("/inbounds/")));
        plan.materialize(&configs).unwrap();
    }
}

#[test]
fn outbound_selection_expands_shared_users_but_not_other_users() {
    let mut fixture = Fixture::new();
    fixture.input.client_tag = vec!["vless-0".into()];
    let (configs, plan) = fixture.plan(Protocol::Vless, Some(RotationMaterial::Uuid), &Generator::default()).unwrap();
    assert_eq!(plan.edits.len(), 3);
    let client = materialized(&configs, &plan, "clients/all.json");
    assert_eq!(client["outbounds"][0]["uuid"], client["outbounds"][1]["uuid"]);
    assert_eq!(client["outbounds"][2]["uuid"], "vless-1");
    let (_, plan) = fixture.plan(Protocol::Vless, Some(RotationMaterial::RealityShortId), &Generator::default()).unwrap();
    assert_eq!(plan.edits.len(), 2);
}

#[test]
fn inbound_selection_limits_all_material_rotation() {
    let mut fixture = Fixture::new();
    fixture.input.inbound_tag = vec!["vless-1".into()];
    let (_, plan) = fixture.plan(Protocol::Vless, None, &Generator::default()).unwrap();
    assert!(plan.edits.iter().all(|edit| {
        edit.target.pointer.starts_with("/inbounds/1/")
            || edit.target.pointer.starts_with("/outbounds/2/")
            || edit.target.pointer.starts_with("/outbounds/3/")
    }));
}

#[test]
fn invalid_material_and_unsafe_selectors_fail_before_generation() {
    let mut fixture = Fixture::new();
    let sb = Generator::default();
    assert!(fixture.plan(Protocol::Vless, Some(RotationMaterial::Password), &sb).is_err());
    assert!(fixture.plan(Protocol::Hysteria2, Some(RotationMaterial::Uuid), &sb).is_err());
    for use_path in [false, true] {
        fixture.input.client_tag.clear();
        fixture.input.client.clear();
        if use_path {
            fixture.input.client.push(path("clients/all.json"));
        } else {
            fixture.input.client_tag.push("vless-0".into());
        }
        for (protocol, only) in [
            (Protocol::Vless, None),
            (Protocol::Hysteria2, None),
            (Protocol::Vless, Some(RotationMaterial::RealityKeypair)),
            (Protocol::Hysteria2, Some(RotationMaterial::ObfsPassword)),
        ] {
            assert!(fixture.plan(protocol, only, &sb).is_err());
        }
    }
    assert_eq!(sb.calls.get(), 0);
}

#[test]
fn optional_material_is_not_enabled_and_explicit_empty_selection_fails() {
    let fixture = Fixture::new();
    let mut server = fixture.get("server.json");
    let mut client = fixture.get("clients/all.json");
    for inbound in server["inbounds"].as_array_mut().unwrap() {
        inbound.as_object_mut().unwrap().remove("tls");
        inbound.as_object_mut().unwrap().remove("obfs");
    }
    for outbound in client["outbounds"].as_array_mut().unwrap() {
        outbound.as_object_mut().unwrap().remove("tls");
        outbound.as_object_mut().unwrap().remove("obfs");
    }
    fixture.put("server.json", server);
    fixture.put("clients/all.json", client);
    for protocol in [Protocol::Vless, Protocol::Hysteria2] {
        let (_, plan) = fixture.plan(protocol, None, &Generator::default()).unwrap();
        assert_eq!(plan.edits.len(), 6);
        assert!(plan.edits.iter().all(|edit| !edit.target.pointer.contains("tls") && !edit.target.pointer.contains("obfs")));
    }
    for (protocol, only) in [
        (Protocol::Vless, RotationMaterial::RealityKeypair),
        (Protocol::Vless, RotationMaterial::RealityShortId),
        (Protocol::Hysteria2, RotationMaterial::ObfsPassword),
    ] {
        assert!(fixture.plan(protocol, Some(only), &Generator::default()).is_err());
    }
}

#[test]
fn combined_generation_or_validation_failure_never_writes_partial_rotation() {
    let fixture = Fixture::new();
    let sb = Generator::default();
    let originals = ["server.json", "clients/all.json"].map(|name| fixture.get(name));
    sb.fail_keys.set(true);
    assert!(fixture.plan(Protocol::Vless, None, &sb).is_err());
    sb.fail_keys.set(false);
    fixture.plan(Protocol::Vless, None, &sb).unwrap();
    for (name, original) in ["server.json", "clients/all.json"].into_iter().zip(originals) {
        assert_eq!(fixture.get(name), original);
    }
}

#[test]
fn ambiguous_inbounds_are_not_silently_split_by_batching() {
    let fixture = Fixture::new();
    let mut server = fixture.get("server.json");
    server["inbounds"][1]["users"] = server["inbounds"][0]["users"].clone();
    fixture.put("server.json", server);
    let sb = Generator::default();
    let error = fixture.plan(Protocol::Vless, None, &sb).err().unwrap();
    assert_eq!(error.kind, ErrorKind::Ambiguous);
    assert!(error.message().contains("ambiguous"));
    assert_eq!(sb.calls.get(), 0);
}

#[test]
fn type_refusals_name_their_reason() {
    let mut fixture = Fixture::new();
    let sb = Generator::default();
    let kind = |r: Result<(ConfigSet, RotationPlan), Error>| r.err().unwrap().kind;
    assert_eq!(kind(fixture.plan(Protocol::Vless, Some(RotationMaterial::ObfsPassword), &sb)), ErrorKind::ProtocolMismatch);
    fixture.input.client_tag = vec!["vless-0".into()];
    assert_eq!(kind(fixture.plan(Protocol::Vless, None, &sb)), ErrorKind::ServiceWideSelectors);
    assert!(fixture.plan(Protocol::Vless, Some(RotationMaterial::RealityShortId), &sb).is_ok());
    fixture.input.client_tag.clear();
    fixture.input.inbound_tag = vec!["hysteria2-0".into()];
    assert_eq!(kind(fixture.plan(Protocol::Vless, Some(RotationMaterial::RealityKeypair), &sb)), ErrorKind::NoMatchingService);
}

#[test]
fn type_rotation_with_given_values_is_exact() {
    let fixture = Fixture::new();
    let configs = fixture.configs();
    let inventory = binding::discover(&configs, &fixture.input).unwrap();
    let values = MaterialValues {
        credentials: vec!["new-a".into(), "new-b".into()],
        keypairs: vec![
            RealityKeyPair { private_key: "k0".into(), public_key: "p0".into() },
            RealityKeyPair { private_key: "k1".into(), public_key: "p1".into() },
        ],
        short_ids: vec![
            "1111111111111111".into(),
            "2222222222222222".into(),
            "3333333333333333".into(),
            "4444444444444444".into(),
        ],
        obfs_passwords: Vec::new(),
    };
    let plan = rotation_by_type_with(&configs, &inventory, &fixture.input, Protocol::Vless, None, &values).unwrap();
    assert_eq!(plan.operation, OperationKind::Material(Protocol::Vless));
    let server = materialized(&configs, &plan, "server.json");
    let client = materialized(&configs, &plan, "clients/all.json");
    assert_eq!(server["inbounds"][0]["users"][0]["uuid"], "new-a");
    assert_eq!(server["inbounds"][1]["users"][0]["uuid"], "new-b");
    assert_eq!(server["inbounds"][0]["tls"]["reality"]["private_key"], "k0");
    assert_eq!(server["inbounds"][1]["tls"]["reality"]["private_key"], "k1");
    assert_eq!(
        server["inbounds"][0]["tls"]["reality"]["short_id"],
        parse(r#"["bbbbbbbbbbbbbbbb", "1111111111111111", "2222222222222222"]"#)
    );
    assert_eq!(client["outbounds"][2]["tls"]["reality"]["short_id"], "3333333333333333");
    assert_eq!(client["outbounds"][3]["tls"]["reality"]["public_key"], "p1");
    for edit in &plan.edits {
        let old = edit.old.as_ref().unwrap();
        assert!(!old.same(edit.new.as_ref().unwrap()));
        let document = if edit.target.file.ends_with("server.json") {
            &configs.server_documents[0].value
        } else {
            &configs.client_documents[0].value
        };
        assert!(document.pointer(&edit.target.pointer).unwrap().same(old));
    }
    let text = plan.render();
    assert!(text.contains("new-a") && text.contains("p0"));
    assert!(!text.contains("k0") && !text.contains("1111111111111111"));
    let short = MaterialValues { short_ids: values.short_ids[..3].to_vec(), ..values };
    let err = rotation_by_type_with(&configs, &inventory, &fixture.input, Protocol::Vless, None, &short).err().unwrap();
    assert_eq!(err.kind, ErrorKind::Generator);
}

#[test]
fn type_rotation_names_identities_then_services() {
    let fixture = Fixture::new();
    let server = path("server.json");
    let (_, plan) = fixture.plan(Protocol::Hysteria2, None, &Generator::default()).unwrap();
    assert_eq!(plan.operation, OperationKind::Material(Protocol::Hysteria2));
    assert_eq!(
        plan.contexts,
        vec![
            format!("hysteria2 inbound={server}#/inbounds/2 tag=hysteria2-0 users=[], 2 client occurrence(s)"),
            format!("hysteria2 inbound={server}#/inbounds/3 tag=hysteria2-1 users=[], 2 client occurrence(s)"),
            format!("hysteria2 inbound={server}#/inbounds/2 tag=hysteria2-0, 2 bound client occurrence(s)"),
            format!("hysteria2 inbound={server}#/inbounds/3 tag=hysteria2-1, 2 bound client occurrence(s)"),
        ]
    );
    assert!(!plan.render().contains("password-"));
}
