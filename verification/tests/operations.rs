use std::cell::{Cell, RefCell};
use std::collections::BTreeMap;

use sb_rotate::binding::{self, ConfigRef};
use sb_rotate::cli::{Input, PropertyKind, RotationKind};
use sb_rotate::config::{ConfigSet, Document};
use sb_rotate::error::{Error, ErrorKind};
use sb_rotate::json::{Json, JsonNumber, Member};
use sb_rotate::plan::{self, Edit, OperationKind, RotationPlan};
use sb_rotate::protocol::hysteria2::obfs_password_with;
use sb_rotate::protocol::properties;
use sb_rotate::protocol::vless::{keypair_with_keys, short_ids_with};
use sb_rotate::singbox::{RealityKeyPair, SingBox, Version};
use serde_json::Value;

const ROOT: &str = "/srv/sb-rotate-test";

fn to_json(v: &Value) -> Json {
    match v {
        Value::Null => Json::Null,
        Value::Bool(b) => Json::Bool(*b),
        Value::Number(n) => {
            if let Some(u) = n.as_u64() {
                Json::Number(JsonNumber::Unsigned(u))
            } else if let Some(i) = n.as_i64() {
                Json::Number(JsonNumber::Negative(i))
            } else {
                Json::Number(JsonNumber::Other(n.to_string()))
            }
        }
        Value::String(s) => Json::String(s.clone()),
        Value::Array(items) => Json::Array(items.iter().map(to_json).collect()),
        Value::Object(map) => Json::Object(
            map.iter()
                .map(|(k, v)| Member { key: k.clone(), value: to_json(v) })
                .collect(),
        ),
    }
}

fn from_json(j: &Json) -> Value {
    match j {
        Json::Null => Value::Null,
        Json::Bool(b) => Value::Bool(*b),
        Json::Number(JsonNumber::Unsigned(u)) => Value::from(*u),
        Json::Number(JsonNumber::Negative(i)) => Value::from(*i),
        Json::Number(JsonNumber::Other(t)) => serde_json::from_str(t).unwrap(),
        Json::String(s) => Value::String(s.clone()),
        Json::Array(items) => Value::Array(items.iter().map(from_json).collect()),
        Json::Object(members) => {
            let mut map = serde_json::Map::new();
            for m in members {
                map.insert(m.key.clone(), from_json(&m.value));
            }
            Value::Object(map)
        }
    }
}

fn parse(text: &str) -> Value {
    serde_json::from_str(text).unwrap()
}

fn path(relative: &str) -> String {
    format!("{ROOT}/{relative}")
}

#[derive(Default)]
struct Generator {
    calls: Cell<usize>,
    hex: RefCell<Option<String>>,
}

impl Generator {
    fn next(&self) -> usize {
        self.calls.set(self.calls.get() + 1);
        self.calls.get()
    }
}

impl SingBox for Generator {
    fn version(&self) -> Result<Version, Error> {
        Ok(Version::new(1, 14, 0))
    }
    fn generate_uuid(&self) -> Result<String, Error> {
        Err(Error::plain(ErrorKind::Generator))
    }
    fn generate_random_base64(&self, bytes: usize) -> Result<String, Error> {
        assert_eq!(bytes, 32);
        Ok(format!("new-password-{}", self.next()))
    }
    fn generate_random_hex(&self, bytes: usize) -> Result<String, Error> {
        assert_eq!(bytes, 8);
        let n = self.next();
        Ok(self.hex.borrow().clone().unwrap_or_else(|| format!("{n:016x}")))
    }
    fn generate_reality_keypair(&self) -> Result<RealityKeyPair, Error> {
        self.next();
        Ok(RealityKeyPair { private_key: "new-private-key".to_owned(), public_key: "new-public-key".to_owned() })
    }
    fn check_file(&self, _path: &str) -> Result<(), Error> {
        Ok(())
    }
    fn check_directory(&self, _path: &str) -> Result<(), Error> {
        Ok(())
    }
}

struct Fixture {
    files: RefCell<BTreeMap<String, Value>>,
    input: Input,
}

impl Fixture {
    fn new(hysteria: bool) -> Self {
        let input = Input { server: path("server.json"), clients: Some(path("clients")), ..Input::default() };
        let fixture = Fixture { files: RefCell::new(BTreeMap::new()), input };
        let protocol = if hysteria { "hysteria2" } else { "vless" };
        let credential = if hysteria { "password" } else { "uuid" };
        let tls = if hysteria {
            r#"{"enabled": true}"#.to_owned()
        } else {
            r#"{"enabled": true, "reality": {"enabled": true, "private_key": "old-private-key", "short_id": ["aaaaaaaaaaaaaaaa", "bbbbbbbbbbbbbbbb", "cccccccccccccccc"]}}"#.to_owned()
        };
        fixture.put(
            "server.json",
            parse(&format!(
                r#"{{"inbounds": [{{"type": "{protocol}", "tag": "home", "listen_port": 443, "users": [{{"{credential}": "alice"}}, {{"{credential}": "bob"}}], "tls": {tls}, "obfs": {{"type": "salamander", "password": "old-obfs"}}}}]}}"#
            )),
        );
        for (file, values) in [
            ("phone", vec![("home", "alice", "aaaaaaaaaaaaaaaa"), ("backup", "alice", "aaaaaaaaaaaaaaaa")]),
            ("laptop", vec![("home", "bob", "bbbbbbbbbbbbbbbb")]),
        ] {
            let outbounds: Vec<String> = values
                .into_iter()
                .map(|(tag, identity, id)| {
                    let tls = if hysteria {
                        r#"{"enabled": true, "server_name": "old.example"}"#.to_owned()
                    } else {
                        format!(r#"{{"enabled": true, "server_name": "old.example", "reality": {{"enabled": true, "public_key": "old-public-key", "short_id": "{id}"}}}}"#)
                    };
                    format!(
                        r#"{{"type": "{protocol}", "tag": "{tag}", "{credential}": "{identity}", "server": "old.example", "server_port": 443, "tls": {tls}, "obfs": {{"type": "salamander", "password": "old-obfs"}}, "unrelated": {{"keep": true}}}}"#
                    )
                })
                .collect();
            fixture.put(&format!("clients/{file}.json"), parse(&format!(r#"{{"outbounds": [{}]}}"#, outbounds.join(","))));
        }
        fixture
    }
    fn put(&self, relative: &str, value: Value) {
        self.files.borrow_mut().insert(path(relative), value);
    }
    fn get(&self, relative: &str) -> Value {
        self.files.borrow()[&path(relative)].clone()
    }
    fn mutate(&self, relative: &str, f: impl FnOnce(&mut Value)) {
        let mut value = self.get(relative);
        f(&mut value);
        self.put(relative, value);
    }
    fn document(&self, p: &str) -> Document {
        let value = self.files.borrow()[p].clone();
        Document { path: p.to_owned(), value: to_json(&value), original: serde_json::to_vec(&value).unwrap() }
    }
    fn configs(&self) -> ConfigSet {
        let server = path("server.json");
        let clients: Vec<String> =
            self.files.borrow().keys().filter(|p| p.starts_with(&path("clients/"))).cloned().collect();
        ConfigSet::assemble(
            server.clone(),
            false,
            vec![("server.json".to_owned(), server.clone())],
            vec![self.document(&server)],
            clients.iter().map(|p| self.document(p)).collect(),
            self.input.client.clone(),
        )
        .unwrap()
    }
    fn rotate(&self, kind: RotationKind, generator: &Generator) -> Result<RotationPlan, Error> {
        let configs = self.configs();
        let inventory = binding::discover(&configs, &self.input)?;
        plan::rotation(&configs, &inventory, &self.input, kind, generator)
    }
    fn set(&self, kind: PropertyKind, value: &str) -> Result<RotationPlan, Error> {
        let configs = self.configs();
        let inventory = binding::discover(&configs, &self.input)?;
        properties::set(&configs, &inventory, &self.input, kind, value)
    }
    fn materialized(&self, plan: &RotationPlan, relative: &str) -> Value {
        let changed = plan.materialize(&self.configs()).unwrap();
        changed
            .iter()
            .find(|c| c.path == path(relative))
            .map(|c| from_json(&c.value))
            .unwrap_or_else(|| self.get(relative))
    }
}

fn message(result: Result<RotationPlan, Error>) -> String {
    result.err().unwrap().message()
}

#[test]
fn short_id_selection_preserves_shared_and_unknown_accepted_ids() {
    let mut fixture = Fixture::new(false);
    fixture.input.client = vec![path("clients/phone.json")];
    fixture.input.client_tag = vec!["home".to_owned()];
    let generator = Generator::default();
    let plan = fixture.rotate(RotationKind::VlessRealityShortId, &generator).unwrap();
    assert_eq!(generator.calls.get(), 1);
    assert_eq!(plan.edits.len(), 2);
    let server = fixture.materialized(&plan, "server.json");
    assert_eq!(
        server["inbounds"][0]["tls"]["reality"]["short_id"],
        parse(r#"["aaaaaaaaaaaaaaaa", "bbbbbbbbbbbbbbbb", "cccccccccccccccc", "0000000000000001"]"#)
    );
    let phone = fixture.materialized(&plan, "clients/phone.json");
    assert_eq!(phone["outbounds"][0]["tls"]["reality"]["short_id"], "0000000000000001");
    assert_eq!(phone["outbounds"][1]["tls"]["reality"]["short_id"], "aaaaaaaaaaaaaaaa");
    assert_eq!(phone["outbounds"][0]["uuid"], "alice");
    assert!(!plan.render().contains("aaaaaaaaaaaaaaaa"));
    assert!(!plan.render().contains("0000000000000001"));
}

#[test]
fn short_ids_are_independent_per_outbound_and_retire_only_observed_old_ids() {
    let fixture = Fixture::new(false);
    let generator = Generator::default();
    let plan = fixture.rotate(RotationKind::VlessRealityShortId, &generator).unwrap();
    assert_eq!(generator.calls.get(), 3);
    let server = fixture.materialized(&plan, "server.json");
    let accepted = server["inbounds"][0]["tls"]["reality"]["short_id"].as_array().unwrap().clone();
    assert_eq!(accepted.len(), 4);
    assert_eq!(accepted[0], "cccccccccccccccc");
    let phone = fixture.materialized(&plan, "clients/phone.json");
    assert_ne!(phone["outbounds"][0]["tls"]["reality"]["short_id"], phone["outbounds"][1]["tls"]["reality"]["short_id"]);
}

#[test]
fn short_ids_compare_decoded_meaning_and_keep_equivalent_unselected_ids() {
    let mut fixture = Fixture::new(false);
    fixture.mutate("server.json", |v| {
        v["inbounds"][0]["tls"]["reality"]["short_id"] = parse(r#"["AB", "bbbbbbbbbbbbbbbb"]"#)
    });
    fixture.mutate("clients/phone.json", |v| {
        v["outbounds"][0]["tls"]["reality"]["short_id"] = Value::from("ab");
        v["outbounds"][1]["tls"]["reality"]["short_id"] = Value::from("ab00000000000000");
    });
    fixture.input.client_tag = vec!["home".into()];
    fixture.input.client = vec![path("clients/phone.json")];
    let plan = fixture.rotate(RotationKind::VlessRealityShortId, &Generator::default()).unwrap();
    assert_eq!(fixture.materialized(&plan, "server.json")["inbounds"][0]["tls"]["reality"]["short_id"][0], "AB");
}

#[test]
fn short_ids_reject_collisions_malformed_generators_and_inconsistent_membership() {
    for id in ["aaaaaaaaaaaaaaaa", "not-hex", "123"] {
        let fixture = Fixture::new(false);
        let generator = Generator::default();
        generator.hex.replace(Some(id.into()));
        assert!(fixture.rotate(RotationKind::VlessRealityShortId, &generator).is_err());
    }
    let fixture = Fixture::new(false);
    let generator = Generator::default();
    generator.hex.replace(Some("1111111111111111".into()));
    assert!(message(fixture.rotate(RotationKind::VlessRealityShortId, &generator)).contains("collides"));
    fixture.mutate("clients/phone.json", |v| {
        v["outbounds"][0]["tls"]["reality"]["short_id"] = Value::from("ffffffffffffffff")
    });
    let generator = Generator::default();
    assert!(fixture.rotate(RotationKind::VlessRealityShortId, &generator).is_err());
    assert_eq!(generator.calls.get(), 0);
}

#[test]
fn reality_keypair_updates_all_identities_and_masks_only_private_key() {
    let fixture = Fixture::new(false);
    let generator = Generator::default();
    let plan = fixture.rotate(RotationKind::VlessRealityKeypair, &generator).unwrap();
    assert_eq!(generator.calls.get(), 1);
    assert_eq!(plan.edits.len(), 4);
    let text = plan.render();
    assert!(!text.contains("old-private-key"));
    assert!(!text.contains("new-private-key"));
    assert!(text.contains("new-public-key"));
    assert_eq!(
        fixture.materialized(&plan, "server.json")["inbounds"][0]["tls"]["reality"]["private_key"],
        "new-private-key"
    );
    for file in ["clients/phone.json", "clients/laptop.json"] {
        for client in fixture.materialized(&plan, file)["outbounds"].as_array().unwrap() {
            assert_eq!(client["tls"]["reality"]["public_key"], "new-public-key");
            assert_eq!(client["unrelated"], parse(r#"{"keep": true}"#));
        }
    }
}

#[test]
fn keypair_skips_clients_without_reality_and_preflights_enabled_clients() {
    let fixture = Fixture::new(false);
    fixture.mutate("clients/laptop.json", |v| {
        v["outbounds"][0]["tls"].as_object_mut().unwrap().remove("reality");
    });
    let plan = fixture.rotate(RotationKind::VlessRealityKeypair, &Generator::default()).unwrap();
    assert_eq!(plan.edits.len(), 3);
    fixture.mutate("clients/phone.json", |v| {
        v["outbounds"][0]["tls"]["reality"].as_object_mut().unwrap().remove("public_key");
    });
    let generator = Generator::default();
    assert!(fixture.rotate(RotationKind::VlessRealityKeypair, &generator).is_err());
    assert_eq!(generator.calls.get(), 0);
}

#[test]
fn obfs_rotation_updates_whole_service_without_changing_auth_passwords() {
    let fixture = Fixture::new(true);
    let generator = Generator::default();
    let plan = fixture.rotate(RotationKind::Hysteria2ObfsPassword, &generator).unwrap();
    assert_eq!(generator.calls.get(), 1);
    assert_eq!(plan.edits.len(), 4);
    assert!(!plan.render().contains("new-password"));
    assert!(!plan.render().contains("old-obfs"));
    let laptop = fixture.materialized(&plan, "clients/laptop.json");
    assert_eq!(laptop["outbounds"][0]["obfs"]["password"], "new-password-1");
    assert_eq!(laptop["outbounds"][0]["password"], "bob");
}

#[test]
fn obfs_rotation_rejects_missing_or_mismatched_blocks_without_generation() {
    for field in ["type", "password"] {
        let fixture = Fixture::new(true);
        fixture.mutate("clients/laptop.json", |v| {
            v["outbounds"][0]["obfs"].as_object_mut().unwrap().remove(field);
        });
        let generator = Generator::default();
        assert!(fixture.rotate(RotationKind::Hysteria2ObfsPassword, &generator).is_err());
        assert_eq!(generator.calls.get(), 0);
    }
    let fixture = Fixture::new(true);
    fixture.mutate("clients/laptop.json", |v| v["outbounds"][0]["obfs"]["type"] = Value::from("different"));
    assert!(fixture.rotate(RotationKind::Hysteria2ObfsPassword, &Generator::default()).is_err());
}

#[test]
fn service_wide_operations_reject_client_selectors() {
    for hysteria in [false, true] {
        for path_selector in [false, true] {
            let mut fixture = Fixture::new(hysteria);
            if path_selector {
                fixture.input.client = vec![path("clients/phone.json")];
            } else {
                fixture.input.client_tag = vec!["home".into()];
            }
            let kind = if hysteria { RotationKind::Hysteria2ObfsPassword } else { RotationKind::VlessRealityKeypair };
            assert!(message(fixture.rotate(kind, &Generator::default())).contains("service-wide"));
            assert!(fixture.set(PropertyKind::Server, "new.example").is_err());
        }
    }
}

#[test]
fn multiple_services_require_unambiguous_inbound_selector() {
    let mut fixture = Fixture::new(false);
    fixture.mutate("server.json", |v| {
        let mut second = v["inbounds"][0].clone();
        second["tag"] = Value::from("office");
        second["users"] = parse(r#"[{"uuid": "office-user"}]"#);
        v["inbounds"].as_array_mut().unwrap().push(second);
    });
    fixture.mutate("clients/laptop.json", |v| {
        let mut second = v["outbounds"][0].clone();
        second["uuid"] = Value::from("office-user");
        second["tag"] = Value::from("office");
        v["outbounds"].as_array_mut().unwrap().push(second);
    });
    for kind in [RotationKind::VlessRealityKeypair, RotationKind::VlessRealityShortId] {
        assert!(message(fixture.rotate(kind, &Generator::default())).contains("multiple services"));
    }
    assert!(fixture.set(PropertyKind::Server, "new.example").is_err());
    fixture.input.inbound_tag = vec!["home".into()];
    assert!(fixture.rotate(RotationKind::VlessRealityKeypair, &Generator::default()).is_ok());
    assert!(fixture.set(PropertyKind::Server, "new.example").is_ok());
}

#[test]
fn address_port_and_tls_updates_touch_all_clients_but_not_server() {
    for hysteria in [false, true] {
        let fixture = Fixture::new(hysteria);
        for (kind, value, field, expected) in [
            (PropertyKind::Server, "new.example", "/server", Value::from("new.example")),
            (PropertyKind::ServerPort, "8443", "/server_port", Value::from(8443)),
            (PropertyKind::TlsServerName, "new-tls.example", "/tls/server_name", Value::from("new-tls.example")),
        ] {
            let plan = fixture.set(kind, value).unwrap();
            assert_eq!(plan.edits.len(), 3);
            assert!(plan.edits.iter().all(|edit| edit.target.file != fixture.input.server));
            for file in ["clients/phone.json", "clients/laptop.json"] {
                for outbound in fixture.materialized(&plan, file)["outbounds"].as_array().unwrap() {
                    assert_eq!(outbound.pointer(field).unwrap(), &expected);
                }
            }
        }
    }
}

#[test]
fn tls_name_can_be_added_but_tls_block_is_never_invented() {
    let fixture = Fixture::new(false);
    fixture.mutate("clients/phone.json", |v| {
        v["outbounds"][0]["tls"].as_object_mut().unwrap().remove("server_name");
    });
    let plan = fixture.set(PropertyKind::TlsServerName, "new.example").unwrap();
    assert!(plan.edits.iter().any(|edit| edit.old.is_none()));
    assert_eq!(fixture.materialized(&plan, "clients/phone.json")["outbounds"][0]["tls"]["server_name"], "new.example");
    fixture.mutate("clients/laptop.json", |v| v["outbounds"][0]["tls"]["enabled"] = Value::from(false));
    assert!(fixture.set(PropertyKind::TlsServerName, "new.example").is_err());
}

#[test]
fn port_hopping_sets_arrays_removes_scalar_ports_and_is_hysteria_only() {
    let fixture = Fixture::new(true);
    let plan = fixture.set(PropertyKind::ServerPorts, "20000:30000,40000").unwrap();
    assert_eq!(plan.edits.len(), 6);
    let changed = plan.materialize(&fixture.configs()).unwrap();
    assert_eq!(changed.len(), 2);
    for written in &changed {
        fixture.files.borrow_mut().insert(written.path.clone(), from_json(&written.value));
    }
    for file in ["clients/phone.json", "clients/laptop.json"] {
        for outbound in fixture.get(file)["outbounds"].as_array().unwrap() {
            assert!(outbound.get("server_port").is_none());
            assert_eq!(outbound["server_ports"], parse(r#"["20000:30000", "40000:40000"]"#));
        }
    }
    assert!(fixture.set(PropertyKind::ServerPort, "443").is_err());
    assert_eq!(fixture.get("server.json")["inbounds"][0]["listen_port"], 443);
    assert!(Fixture::new(false).set(PropertyKind::ServerPorts, "10000:20000").is_err());
}

#[test]
fn generic_edits_distinguish_missing_and_null_and_reject_overlap() {
    let fixture = Fixture::new(false);
    fixture.mutate("clients/phone.json", |v| v["outbounds"][0]["optional"] = Value::Null);
    let configs = fixture.configs();
    let reference = ConfigRef { file: path("clients/phone.json"), pointer: "/outbounds/0/optional".into() };
    let mut plan = RotationPlan::new(OperationKind::Property(PropertyKind::Server));
    plan.edits.push(Edit { target: reference.clone(), old: None, new: Some(Json::String("value".into())) });
    assert!(plan.materialize(&configs).is_err());
    plan.edits[0].old = Some(Json::Null);
    assert!(plan.materialize(&configs).is_ok());
    plan.edit(
        &configs,
        ConfigRef { file: reference.file.clone(), pointer: "/outbounds/0".into() },
        Some(Json::Object(Vec::new())),
    )
    .unwrap();
    assert!(plan.materialize(&configs).err().unwrap().message().contains("overlapping"));
}

#[test]
fn omitted_client_short_id_uses_the_empty_id_without_enabling_new_blocks() {
    let mut fixture = Fixture::new(false);
    fixture.mutate("server.json", |v| {
        v["inbounds"][0]["tls"]["reality"]["short_id"] = parse(r#"["", "bbbbbbbbbbbbbbbb"]"#)
    });
    fixture.mutate("clients/phone.json", |v| {
        v["outbounds"][0]["tls"]["reality"].as_object_mut().unwrap().remove("short_id");
        v["outbounds"][1]["tls"]["reality"]["short_id"] = Value::from("");
    });
    fixture.input.client = vec![path("clients/phone.json")];
    fixture.input.client_tag = vec!["home".into()];
    let plan = fixture.rotate(RotationKind::VlessRealityShortId, &Generator::default()).unwrap();
    assert!(plan.edits.iter().any(|edit| edit.old.is_none()));
    assert_eq!(fixture.materialized(&plan, "server.json")["inbounds"][0]["tls"]["reality"]["short_id"][0], "");
    assert_eq!(
        fixture.materialized(&plan, "clients/phone.json")["outbounds"][0]["tls"]["reality"]["short_id"],
        "0000000000000001"
    );
}

#[test]
fn service_operations_never_bind_through_keys_or_addresses_and_reject_ambiguity() {
    let fixture = Fixture::new(false);
    let mut unmatched = fixture.get("clients/laptop.json");
    unmatched["outbounds"][0]["uuid"] = Value::from("unknown-user");
    fixture.put("clients/unmatched.json", unmatched);
    let plan = fixture.rotate(RotationKind::VlessRealityKeypair, &Generator::default()).unwrap();
    assert_eq!(plan.edits.len(), 4);
    let plan = fixture.set(PropertyKind::Server, "new.example").unwrap();
    assert_eq!(plan.edits.len(), 3);
    fixture.mutate("server.json", |v| {
        let mut duplicate = v["inbounds"][0].clone();
        duplicate["tag"] = Value::from("other");
        v["inbounds"].as_array_mut().unwrap().push(duplicate);
    });
    let generator = Generator::default();
    for kind in [RotationKind::VlessRealityKeypair, RotationKind::VlessRealityShortId] {
        assert!(message(fixture.rotate(kind, &generator)).contains("ambiguous"));
    }
    assert_eq!(generator.calls.get(), 0);
    assert!(fixture.set(PropertyKind::Server, "new.example").is_err());
}

#[test]
fn generic_object_member_edits_honor_pointer_escapes() {
    let fixture = Fixture::new(false);
    let configs = fixture.configs();
    let reference = ConfigRef { file: path("clients/phone.json"), pointer: "/outbounds/0/a~1b~0c".into() };
    let mut plan = RotationPlan::new(OperationKind::Property(PropertyKind::Server));
    plan.edit(&configs, reference, Some(Json::Number(JsonNumber::Unsigned(42)))).unwrap();
    let phone = fixture.materialized(&plan, "clients/phone.json");
    assert_eq!(phone["outbounds"][0]["a/b~c"], 42);
    plan.edits[0].target.pointer = "/outbounds/0/bad~2escape".into();
    assert!(plan.materialize(&configs).is_err());
    plan.edits[0].target.pointer = "/outbounds/0/absent/child".into();
    assert!(plan.materialize(&configs).is_err());
}

#[test]
fn inspect_shows_reality_counts_without_exposing_secrets() {
    let fixture = Fixture::new(false);
    let configs = fixture.configs();
    let inventory = binding::discover(&configs, &fixture.input).unwrap();
    let text = inventory.render(&configs, &fixture.input, None);
    assert!(text.contains("3 accepted / 2 observed; clients: 3"));
    assert!(!text.contains("old-private-key"));
    assert!(!text.contains("aaaaaaaaaaaaaaaa"));
}

#[test]
fn property_values_are_parsed_before_any_edit() {
    let fixture = Fixture::new(true);
    for (kind, value) in [
        (PropertyKind::Server, "two words"),
        (PropertyKind::Server, ""),
        (PropertyKind::ServerPort, "0"),
        (PropertyKind::ServerPorts, "30000:20000"),
    ] {
        assert!(fixture.set(kind, value).is_err());
    }
    let err = fixture.set(PropertyKind::ServerPorts, "30000:20000").err().unwrap();
    assert_eq!(err.kind, ErrorKind::InvalidPortRange);
    let err = fixture.set(PropertyKind::TlsServerName, "a\tb").err().unwrap();
    assert_eq!(err.kind, ErrorKind::InvalidName);
}

#[test]
fn hysteria_port_updates_refuse_port_hopping_clients() {
    let fixture = Fixture::new(true);
    fixture.mutate("clients/laptop.json", |v| v["outbounds"][0]["server_ports"] = parse(r#"["1000:2000"]"#));
    assert_eq!(fixture.set(PropertyKind::ServerPort, "443").err().unwrap().kind, ErrorKind::ServerPortsInUse);
    fixture.mutate("clients/laptop.json", |v| v["outbounds"][0]["server_ports"] = parse("[]"));
    assert!(fixture.set(PropertyKind::ServerPort, "444").is_ok());
    fixture.mutate("clients/laptop.json", |v| v["outbounds"][0]["server_port"] = Value::from("443"));
    assert_eq!(fixture.set(PropertyKind::ServerPort, "444").err().unwrap().kind, ErrorKind::NoScalarPort);
}

#[test]
fn unchanged_values_produce_no_edits() {
    let fixture = Fixture::new(false);
    let plan = fixture.set(PropertyKind::Server, "old.example").unwrap();
    assert!(plan.edits.is_empty());
    let plan = fixture.set(PropertyKind::ServerPort, "443").unwrap();
    assert!(plan.edits.is_empty());
}

#[test]
fn edits_record_current_values_and_apply_them() {
    let fixture = Fixture::new(false);
    let configs = fixture.configs();
    let plan = fixture.set(PropertyKind::Server, "new.example").unwrap();
    for edit in &plan.edits {
        let current = configs.value(&edit.target.file, &edit.target.pointer).unwrap();
        assert!(current.same(edit.old.as_ref().unwrap()));
    }
    let changed = plan.materialize(&configs).unwrap();
    for edit in &plan.edits {
        let doc = &changed.iter().find(|c| c.path == edit.target.file).unwrap().value;
        assert!(doc.pointer(&edit.target.pointer).unwrap().same(edit.new.as_ref().unwrap()));
    }
}

#[test]
fn planners_use_the_given_values_exactly() {
    let fixture = Fixture::new(false);
    let configs = fixture.configs();
    let inventory = binding::discover(&configs, &fixture.input).unwrap();
    let keys = RealityKeyPair { private_key: "given-private".into(), public_key: "given-public".into() };
    let plan = keypair_with_keys(&configs, &inventory, &fixture.input, &keys).unwrap();
    assert_eq!(plan.edits.len(), 4);
    assert!(plan.edits[0].new.as_ref().unwrap().same(&Json::String("given-private".into())));
    assert!(plan.edits[1..].iter().all(|e| e.new.as_ref().unwrap().same(&Json::String("given-public".into()))));
    let same_private = RealityKeyPair { private_key: "old-private-key".into(), public_key: "x".into() };
    let err = keypair_with_keys(&configs, &inventory, &fixture.input, &same_private).err().unwrap();
    assert_eq!(err.kind, ErrorKind::GeneratedUnchanged);
    let ids = vec!["1111111111111111".to_owned(), "2222222222222222".to_owned(), "3333333333333333".to_owned()];
    let plan = short_ids_with(&configs, &inventory, &fixture.input, &ids).unwrap();
    assert_eq!(plan.edits.len(), 4);
    let server = from_json(plan.edits[3].new.as_ref().unwrap());
    assert_eq!(server, parse(r#"["cccccccccccccccc", "1111111111111111", "2222222222222222", "3333333333333333"]"#));
    let short = vec!["1111111111111111".to_owned()];
    assert_eq!(short_ids_with(&configs, &inventory, &fixture.input, &short).err().unwrap().kind, ErrorKind::Generator);
    let hysteria = Fixture::new(true);
    let configs = hysteria.configs();
    let inventory = binding::discover(&configs, &hysteria.input).unwrap();
    let plan = obfs_password_with(&configs, &inventory, &hysteria.input, &"given-obfs".to_owned()).unwrap();
    assert_eq!(plan.edits.len(), 4);
    assert!(plan.edits.iter().all(|e| e.new.as_ref().unwrap().same(&Json::String("given-obfs".into()))));
    let err = obfs_password_with(&configs, &inventory, &hysteria.input, &"old-obfs".to_owned()).err().unwrap();
    assert_eq!(err.kind, ErrorKind::GeneratedUnchanged);
    let err = obfs_password_with(&configs, &inventory, &hysteria.input, &String::new()).err().unwrap();
    assert_eq!(err.kind, ErrorKind::EmptyGenerated);
}

#[test]
fn plans_name_their_service_and_rotated_identities() {
    let fixture = Fixture::new(false);
    let server = path("server.json");
    let plan = fixture.rotate(RotationKind::VlessRealityKeypair, &Generator::default()).unwrap();
    assert_eq!(plan.contexts, vec![format!("vless inbound={server}#/inbounds/0 tag=home, 3 bound client occurrence(s)")]);
    let fixture = Fixture::new(true);
    fixture.mutate("server.json", |v| {
        v["inbounds"][0]["users"][0]["name"] = Value::from("Alice");
    });
    let plan = fixture.rotate(RotationKind::Hysteria2Password, &Generator::default()).unwrap();
    assert_eq!(
        plan.contexts,
        vec![
            format!("hysteria2 inbound={server}#/inbounds/0 tag=home users=[Alice], 2 client occurrence(s)"),
            format!("hysteria2 inbound={server}#/inbounds/0 tag=home users=[], 1 client occurrence(s)"),
        ]
    );
    assert!(plan.render().starts_with(&plan.contexts[0]));
}

#[test]
fn previews_and_rotations_edit_the_same_locations() {
    let fixture = Fixture::new(true);
    let configs = fixture.configs();
    let inventory = binding::discover(&configs, &fixture.input).unwrap();
    let a = obfs_password_with(&configs, &inventory, &fixture.input, &"first-obfs".to_owned()).unwrap();
    let b = obfs_password_with(&configs, &inventory, &fixture.input, &"second-obfs".to_owned()).unwrap();
    assert_eq!(a.edits.len(), b.edits.len());
    for (x, y) in a.edits.iter().zip(b.edits.iter()) {
        assert_eq!(x.target.file, y.target.file);
        assert_eq!(x.target.pointer, y.target.pointer);
        assert!(x.old.as_ref().unwrap().same(y.old.as_ref().unwrap()));
        assert!(!x.new.as_ref().unwrap().same(y.new.as_ref().unwrap()));
    }
    let vless = Fixture::new(false);
    let configs = vless.configs();
    let inventory = binding::discover(&configs, &vless.input).unwrap();
    let k1 = RealityKeyPair { private_key: "p1".into(), public_key: "q1".into() };
    let k2 = RealityKeyPair { private_key: "p2".into(), public_key: "q2".into() };
    let a = keypair_with_keys(&configs, &inventory, &vless.input, &k1).unwrap();
    let b = keypair_with_keys(&configs, &inventory, &vless.input, &k2).unwrap();
    assert_eq!(a.edits.len(), b.edits.len());
    for (x, y) in a.edits.iter().zip(b.edits.iter()) {
        assert_eq!(x.target.pointer, y.target.pointer);
        assert!(x.old.as_ref().unwrap().same(y.old.as_ref().unwrap()));
    }
}
