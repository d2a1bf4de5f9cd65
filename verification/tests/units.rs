use sb_rotate::cli::{Command, IdentityKind, Input, PropertyKind, Protocol, RotationKind};
use sb_rotate::error::ErrorKind;
use sb_rotate::journal::{JournalFault, check_journal};
use sb_rotate::json::{Json, JsonNumber, Member};
use sb_rotate::protocol::properties::{port, property_value};
use sb_rotate::protocol::vless::normalized_short_id;
use sb_rotate::recovery::{
    self,
    Action, Finished, Status, classify, digest, digest_matches, ensure_no_pending, finished, recovery_action, rollback_plan, valid_checksum,
};
use sb_rotate::singbox::{
    Executable, Version, accept_generated, accept_uuid, parse_reality_keypair, parse_version, supported_version, version_supported,
};

fn strings(items: &[&str]) -> Json {
    Json::Array(items.iter().map(|s| Json::String((*s).to_owned())).collect())
}

fn same(a: &Json, b: &Json) -> bool {
    a.same(b)
}

#[test]
fn parses_port_lists_and_rejects_invalid_values() {
    assert!(same(
        &property_value(PropertyKind::ServerPorts, "20000:30000, 40000").unwrap(),
        &strings(&["20000:30000", "40000:40000"])
    ));
    for value in ["", "0", "65536", "2:1", "1:", ":2", "1,", "1:2:3", "-1", "1.5", "+80"] {
        assert!(property_value(PropertyKind::ServerPorts, value).is_err(), "{value}");
    }
    assert!(property_value(PropertyKind::ServerPort, "443:444").is_err());
}

#[test]
fn parses_versions_and_respects_release_boundary() {
    let v = parse_version("sing-box version 1.14.0\nEnvironment: test").unwrap();
    assert_eq!((v.major, v.minor, v.patch, v.pre.as_str(), v.build.as_str()), (1, 14, 0, "", ""));
    assert!(version_supported(&v));
    let beta = parse_version("sing-box version 1.14.0-beta.9").unwrap();
    assert!(!version_supported(&beta));
    let alpha = parse_version("sing-box version 1.15.0-alpha.1").unwrap();
    assert!(version_supported(&alpha));
    assert!(parse_version("1.14.0").is_err());
    assert!(parse_version("sing-box version not-a-version").is_err());
}

#[test]
fn version_errors_tell_missing_from_malformed() {
    assert_eq!(parse_version("1.14.0").err().unwrap().kind, ErrorKind::VersionNotFound);
    assert_eq!(parse_version("sing-box version   \n").err().unwrap().kind, ErrorKind::VersionNotFound);
    assert_eq!(parse_version("sing-box version 1.14").err().unwrap().kind, ErrorKind::InvalidVersion);
    let v = parse_version("other line\r\nsing-box version 1.13.9 (extra)\r\n").unwrap();
    assert_eq!((v.major, v.minor, v.patch), (1, 13, 9));
    assert!(!version_supported(&v));
    assert!(version_supported(&Version::new(2, 0, 0)));
    assert!(!version_supported(&Version::new(1, 13, 99)));
    let with_build = parse_version("sing-box version 1.14.0+abc").unwrap();
    assert!(version_supported(&with_build));
}

#[test]
fn ports_are_decimal_and_in_range() {
    assert_eq!(port("443").unwrap(), 443);
    assert_eq!(port("00080").unwrap(), 80);
    assert_eq!(port("65535").unwrap(), 65535);
    for bad in ["", "65536", "99999999999999999999", " 1", "1 ", "x"] {
        assert_eq!(port(bad).err().unwrap().kind, ErrorKind::InvalidPort, "{bad}");
    }
    for zero in ["0", "000"] {
        let error = port(zero).err().unwrap();
        assert_eq!(error.kind, ErrorKind::ZeroPort);
        assert_eq!(error.message(), "port must be between 1 and 65535");
    }
}

#[test]
fn port_ranges_and_names_become_json() {
    assert!(same(&property_value(PropertyKind::ServerPorts, " 1:2 ,\t3").unwrap(), &strings(&["1:2", "3:3"])));
    assert!(same(&property_value(PropertyKind::ServerPorts, "007:08").unwrap(), &strings(&["7:8"])));
    assert_eq!(property_value(PropertyKind::ServerPorts, "5:4").err().unwrap().kind, ErrorKind::InvalidPortRange);
    assert_eq!(
        property_value(PropertyKind::ServerPorts, "443, 9000:8000 ,1:2").err().unwrap().message(),
        "port range start must not exceed its end"
    );
    assert_eq!(property_value(PropertyKind::ServerPorts, "443,x").err().unwrap().kind, ErrorKind::InvalidPort);
    assert_eq!(property_value(PropertyKind::ServerPorts, "443,1:0").err().unwrap().kind, ErrorKind::ZeroPort);
    assert!(same(&property_value(PropertyKind::ServerPort, "8443").unwrap(), &Json::Number(JsonNumber::Unsigned(8443))));
    assert!(same(&property_value(PropertyKind::Server, "example.org").unwrap(), &Json::String("example.org".into())));
    assert_eq!(property_value(PropertyKind::Server, "a b").err().unwrap().kind, ErrorKind::InvalidName);
    assert_eq!(property_value(PropertyKind::TlsServerName, "a\u{3000}b").err().unwrap().kind, ErrorKind::InvalidName);
}

#[test]
fn short_ids_normalize_to_their_meaning() {
    assert_eq!(normalized_short_id("AB").unwrap(), "ab00000000000000");
    assert_eq!(normalized_short_id("").unwrap(), "0000000000000000");
    assert_eq!(normalized_short_id("0123456789abcdef").unwrap(), "0123456789abcdef");
    for bad in ["abc", "zz", "0123456789abcdef00"] {
        assert_eq!(normalized_short_id(bad).err().unwrap().kind, ErrorKind::InvalidShortId);
    }
}

#[test]
fn generated_values_are_single_words() {
    assert_eq!(accept_generated("  abc==\n").unwrap(), "abc==");
    assert_eq!(accept_generated("\n").err().unwrap().kind, ErrorKind::InvalidGenerated);
    assert_eq!(accept_generated("two words").err().unwrap().kind, ErrorKind::InvalidGenerated);
    assert_eq!(accept_uuid("550e8400-e29b-41d4-a716-446655440000\n").unwrap(), "550e8400-e29b-41d4-a716-446655440000");
    assert_eq!(accept_uuid("not-a-uuid").err().unwrap().kind, ErrorKind::InvalidGenerated);
}

#[test]
fn uuid_forms_accepted_by_the_uuid_crate() {
    let forms = [
        "550e8400e29b41d4a716446655440000",
        "550E8400-E29B-41D4-A716-446655440000",
        "{550e8400-e29b-41d4-a716-446655440000}",
        "URN:uuid:550e8400-e29b-41d4-a716-446655440000",
    ];
    for f in forms {
        assert_eq!(accept_uuid(f).unwrap(), f);
    }
    let refused = [
        "550e8400-e29b-41d4-a716-44665544000g",
        "550e8400e29b-41d4-a716-4466554400000",
        "[550e8400-e29b-41d4-a716-446655440000]",
        "urn:uuid-550e8400-e29b-41d4-a716-446655440000",
        "550e8400e29b41d4a716446655440000a",
    ];
    for f in refused {
        assert_eq!(accept_uuid(f).err().unwrap().kind, ErrorKind::InvalidGenerated);
    }
}

#[test]
fn edited_files_are_written_as_indented_json() {
    let value = Json::Object(vec![
        Member { key: "a\"b".into(), value: Json::Array(vec![Json::Null, Json::Bool(true), Json::Number(JsonNumber::Negative(-5))]) },
        Member { key: "c".into(), value: Json::String("line\nbreak\u{1}".into()) },
    ]);
    let file = sb_rotate::plan::ChangedFile { path: "/x.json".into(), value };
    assert_eq!(
        String::from_utf8(file.contents()).unwrap(),
        "{\n  \"a\\\"b\": [\n    null,\n    true,\n    -5\n  ],\n  \"c\": \"line\\nbreak\\u0001\"\n}\n"
    );
    let file = sb_rotate::plan::ChangedFile { path: "/y.json".into(), value: Json::Number(JsonNumber::Other("1.5".into())) };
    assert_eq!(file.contents(), b"1.5\n".to_vec());
}

#[test]
fn config_files_are_read_as_json_objects() {
    let doc = sb_rotate::config::load_document("/s.json".into(), b"{\"b\": 1, \"a\": [-2, 1.5, \"x\"]}".to_vec()).unwrap();
    assert_eq!(doc.path, "/s.json");
    assert_eq!(doc.original, b"{\"b\": 1, \"a\": [-2, 1.5, \"x\"]}".to_vec());
    let expected = Json::Object(vec![
        Member {
            key: "a".into(),
            value: Json::Array(vec![
                Json::Number(JsonNumber::Negative(-2)),
                Json::Number(JsonNumber::Other("1.5".into())),
                Json::String("x".into()),
            ]),
        },
        Member { key: "b".into(), value: Json::Number(JsonNumber::Unsigned(1)) },
    ]);
    assert!(same(&doc.value, &expected));
    let error = sb_rotate::config::load_document("/c.json".into(), b"{".to_vec()).err().unwrap();
    assert_eq!(error.kind, ErrorKind::InvalidJson);
    assert_eq!(error.message(), "parsing JSON in /c.json");
    let error = sb_rotate::config::load_document("/c.json".into(), b"[1]".to_vec()).err().unwrap();
    assert_eq!(error.kind, ErrorKind::NotAnObject);
    assert_eq!(error.message(), "config must be an object: /c.json");
}

#[test]
fn file_roles_are_checked_before_reading() {
    let layout = vec![("s.json".to_owned(), "/d/s.json".to_owned())];
    assert!(sb_rotate::config::check_roles(&layout, &vec!["/c/a.json".to_owned()]).is_ok());
    let error = sb_rotate::config::check_roles(&layout, &vec!["/d/s.json".to_owned()]).err().unwrap();
    assert!(error.message().contains("both a server"));
    assert_eq!(sb_rotate::config::check_roles(&layout, &vec![]).err().unwrap().kind, ErrorKind::NoClientFiles);
    let aliased = vec![("a.json".to_owned(), "/d/s.json".to_owned()), ("b.json".to_owned(), "/d/s.json".to_owned())];
    assert_eq!(sb_rotate::config::check_server_layout(&aliased).err().unwrap().kind, ErrorKind::AliasedServerFiles);
    assert_eq!(sb_rotate::config::check_server_layout(&vec![]).err().unwrap().kind, ErrorKind::NoServerFiles);
}

#[test]
fn generated_random_text_has_the_requested_size() {
    let b64 = "q".repeat(43) + "=";
    assert_eq!(sb_rotate::singbox::accept_base64(&format!("{b64}\n"), 32).unwrap(), b64);
    assert_eq!(sb_rotate::singbox::accept_base64("abc", 32).err().unwrap().kind, ErrorKind::InvalidGenerated);
    assert_eq!(sb_rotate::singbox::accept_base64(&("*".repeat(44)), 32).err().unwrap().kind, ErrorKind::InvalidGenerated);
    assert_eq!(sb_rotate::singbox::accept_hex("0123456789abcdef", 8).unwrap(), "0123456789abcdef");
    assert_eq!(sb_rotate::singbox::accept_hex("0123456789abcdeg", 8).err().unwrap().kind, ErrorKind::InvalidGenerated);
    assert_eq!(sb_rotate::singbox::accept_hex("0123", 8).err().unwrap().kind, ErrorKind::InvalidGenerated);
}

#[test]
fn edited_client_copies_are_the_ones_validated() {
    let changed = vec![sb_rotate::plan::ChangedFile { path: "/c/b.json".into(), value: Json::Null }];
    let files = vec!["/c/a.json".to_owned(), "/c/b.json".to_owned()];
    assert_eq!(sb_rotate::plan::edited_among(&files, &changed), vec![1]);
}

#[test]
fn protocol_and_kind_tables() {
    assert_eq!(Protocol::parse("vless"), Some(Protocol::Vless));
    assert_eq!(Protocol::parse("hysteria2"), Some(Protocol::Hysteria2));
    assert_eq!(Protocol::parse("VLESS"), None);
    assert_eq!(Protocol::Vless.credential(), "uuid");
    assert_eq!(Protocol::Hysteria2.credential(), "password");
    assert_eq!(Protocol::Hysteria2.name(), "hysteria2");
    assert_eq!(RotationKind::VlessUuid.identity(), Some(IdentityKind::VlessUuid));
    assert_eq!(RotationKind::VlessRealityKeypair.identity(), None);
    assert_eq!(IdentityKind::Hysteria2Password.protocol(), Protocol::Hysteria2);
    assert_eq!(RotationKind::from(IdentityKind::Hysteria2Password), RotationKind::Hysteria2Password);
    let command = Command::Check { input: Input::default() };
    assert!(command.input().is_some());
    let recover = Command::Recover { journal: None, directory: None, dry_run: true };
    assert!(recover.input().is_none());
}

#[test]
fn executable_resolution_prefers_explicit_then_environment() {
    assert_eq!(Executable::resolve(Some("/opt/sb"), Some("/env/sb".into())).path, "/opt/sb");
    assert_eq!(Executable::resolve(None, Some("/env/sb".into())).path, "/env/sb");
    assert_eq!(Executable::resolve(None, None).path, "sing-box");
}

#[test]
fn recovery_never_overwrites_conflicts_or_finished_transactions() {
    assert_eq!(classify(true, true), Status::Original);
    assert_eq!(classify(false, true), Status::Installed);
    assert_eq!(classify(false, false), Status::Conflict);
    assert_eq!(Status::Conflict.name(), "CONFLICT (externally changed)");
    assert_eq!(finished(true, false, true).unwrap(), Some(Finished::Committed));
    assert_eq!(finished(false, true, true).unwrap(), Some(Finished::RolledBack));
    assert_eq!(finished(false, false, false).unwrap(), None);
    assert_eq!(finished(true, true, true).err().unwrap().kind, ErrorKind::InvalidJournal);
    assert_eq!(finished(true, false, false).err().unwrap().kind, ErrorKind::InvalidJournal);
    let statuses = vec![Status::Installed, Status::Conflict];
    assert_eq!(recovery_action(Some(Finished::Committed), true, true, &statuses, false).unwrap(), Action::Clean);
    assert_eq!(recovery_action(None, false, true, &statuses, false).unwrap(), Action::Clean);
    assert_eq!(recovery_action(None, true, false, &statuses, false).err().unwrap().kind, ErrorKind::RecoveryConflict);
    assert_eq!(recovery_action(None, true, false, &statuses, true).unwrap(), Action::RollBack);
    assert_eq!(recovery_action(None, true, true, &vec![Status::Original], false).err().unwrap().kind, ErrorKind::RecoveryConflict);
    assert_eq!(recovery_action(None, true, false, &vec![Status::Original, Status::Installed], false).unwrap(), Action::RollBack);
}

#[test]
fn pending_markers_block_mutations() {
    let dirs = vec!["/a".to_owned(), "/b".to_owned()];
    assert!(ensure_no_pending(&dirs, &vec![None, None]).is_ok());
    let err = ensure_no_pending(&dirs, &vec![None, Some("/b/.journal".into())]).err().unwrap();
    assert_eq!(err.kind, ErrorKind::PendingTransaction);
    assert!(err.context.contains("/b"));
    assert_eq!(
        err.message(),
        "pending config transaction in /b; journal: /b/.journal; run sb-rotate recover --directory <config-directory> --dry-run before making further changes"
    );
}

#[test]
fn checksums_are_sha256_hex() {
    let d = digest(b"abc");
    assert_eq!(d, "ba7816bf8f01cfea414140de5dae2223b00361a396177a9cb410ff61f20015ad");
    assert!(valid_checksum(&d));
    assert!(!valid_checksum("abc"));
    assert!(digest_matches(&d, b"abc"));
    assert!(!digest_matches(&d, b"abd"));
}

#[test]
fn reality_keypairs_are_read_from_labelled_lines() {
    let keys = parse_reality_keypair("PrivateKey: priv-123\nPublicKey: pub-456\n").unwrap();
    assert_eq!(keys.private_key, "priv-123");
    assert_eq!(keys.public_key, "pub-456");
    let keys = parse_reality_keypair("PublicKey:  p \r\nPrivateKey:\tk\r\n").unwrap();
    assert_eq!((keys.private_key.as_str(), keys.public_key.as_str()), ("k", "p"));
    assert_eq!(parse_reality_keypair("PrivateKey: a\n").err().unwrap().kind, ErrorKind::InvalidGenerated);
    assert_eq!(parse_reality_keypair("PrivateKey: a b\nPublicKey: c\n").err().unwrap().kind, ErrorKind::InvalidGenerated);
}

#[test]
fn old_versions_are_refused() {
    assert_eq!(supported_version(Version::new(1, 13, 0)).err().unwrap().kind, ErrorKind::UnsupportedVersion);
    let beta = parse_version("sing-box version 1.14.0-beta.9+build.3").unwrap();
    assert_eq!(
        supported_version(beta).err().unwrap().message(),
        "sing-box 1.14.0-beta.9+build.3 is unsupported; version >= 1.14.0 is required"
    );
    assert_eq!(supported_version(Version::new(1, 14, 0)).unwrap().minor, 14);
}

#[test]
fn tool_file_names_are_recognised() {
    assert!(recovery::replaceable_name("config.json"));
    assert!(!recovery::replaceable_name(".sb-rotate.pending"));
    assert!(!recovery::replaceable_name(".sb-rotate-abc.tmp"));
    assert!(recovery::staged_name_valid(".sb-rotate-x1y2.tmp"));
    assert!(!recovery::staged_name_valid(".sb-rotate-x1y2.json"));
    assert!(!recovery::staged_name_valid("sb-rotate-x1y2.tmp"));
    assert!(recovery::journal_name_valid(".sb-rotate-transaction-AbC"));
    assert!(!recovery::journal_name_valid(".sb-rotate-marker-AbC"));
}

#[test]
fn rollback_restores_installed_files_and_refuses_conflicts() {
    let plan = rollback_plan(&vec![Status::Installed, Status::Original, Status::Installed]).unwrap();
    assert_eq!(plan, vec![0, 2]);
    assert!(rollback_plan(&vec![Status::Original, Status::Original]).unwrap().is_empty());
    assert_eq!(rollback_plan(&vec![Status::Installed, Status::Conflict, Status::Conflict]), Err(1));
}

fn journal_path(key: &str, parent: Option<&str>, name: Option<&str>) -> sb_rotate::journal::JournalPath {
    sb_rotate::journal::JournalPath {
        key: key.to_owned(),
        absolute: key.starts_with('/'),
        parent: parent.map(str::to_owned),
        name: name.map(str::to_owned),
    }
}

fn journal_entry(file: &str) -> sb_rotate::journal::JournalEntry {
    let name = file.rsplit('/').next().unwrap();
    sb_rotate::journal::JournalEntry {
        file: journal_path(file, Some("/etc/sb"), Some(name)),
        staged: journal_path("/etc/sb/.sb-rotate-x.tmp", Some("/etc/sb"), Some(".sb-rotate-x.tmp")),
        same_attributes: true,
        original_replaceable: true,
        installed_replaceable: true,
        original_sha256: "a".repeat(64),
        installed_sha256: "b".repeat(64),
    }
}

fn journal_record() -> sb_rotate::journal::JournalRecord {
    sb_rotate::journal::JournalRecord {
        version: sb_rotate::recovery::JOURNAL_VERSION,
        platform_matches: true,
        name: Some(".sb-rotate-transaction-1".to_owned()),
        parent: Some("/etc/sb".to_owned()),
        directories: vec!["/etc/sb".to_owned()],
        directory_checks: vec![Some(true)],
        entries: vec![journal_entry("/etc/sb/server.json"), journal_entry("/etc/sb/client.json")],
        sources: vec![sb_rotate::journal::SourceAlias { source_absolute: true, expected: journal_path("/etc/sb", Some("/etc"), Some("sb")) }],
        listings: vec![sb_rotate::journal::Listing {
            directory: "/etc/sb".to_owned(),
            files: vec![sb_rotate::journal::ListedFile {
                bare_name: true,
                target: journal_path("/etc/sb/server.json", Some("/etc/sb"), Some("server.json")),
            }],
        }],
        unchanged: vec![journal_path("/etc/sb/other.json", Some("/etc/sb"), Some("other.json"))],
    }
}

#[test]
fn journal_checks_report_the_first_failure() {
    assert_eq!(check_journal(&journal_record()), Ok(()));
    let mut j = journal_record();
    j.version = 7;
    j.platform_matches = false;
    assert_eq!(check_journal(&j), Err(JournalFault::UnsupportedVersion));
    let mut j = journal_record();
    j.name = Some("transaction".to_owned());
    assert_eq!(check_journal(&j), Err(JournalFault::NotTransactionDirectory));
    let mut j = journal_record();
    j.entries.clear();
    assert_eq!(check_journal(&j), Err(JournalFault::Empty));
    let mut j = journal_record();
    j.parent = Some("/tmp".to_owned());
    assert_eq!(check_journal(&j), Err(JournalFault::ParentOutsideLockSet));
    let mut j = journal_record();
    j.directory_checks = vec![None];
    assert_eq!(check_journal(&j), Err(JournalFault::DirectoryUnresolved(0)));
    let mut j = journal_record();
    j.entries[1] = journal_entry("/etc/sb/server.json");
    assert_eq!(check_journal(&j), Err(JournalFault::InvalidTarget(1)));
    let mut j = journal_record();
    j.entries[0] = journal_entry("/etc/sb/.sb-rotate.pending");
    assert_eq!(check_journal(&j), Err(JournalFault::ReservedTargetName(0)));
    let mut j = journal_record();
    j.entries[1].staged.parent = Some("/etc".to_owned());
    assert_eq!(check_journal(&j), Err(JournalFault::InvalidStaged(1)));
    let mut j = journal_record();
    j.entries[0].installed_sha256 = "xyz".to_owned();
    assert_eq!(check_journal(&j), Err(JournalFault::InvalidChecksum(0)));
    let mut j = journal_record();
    j.sources[0].expected = journal_path("/var/x.json", Some("/var"), Some("x.json"));
    assert_eq!(check_journal(&j), Err(JournalFault::InvalidSourceAlias(0)));
    let mut j = journal_record();
    j.listings[0].files[0].bare_name = false;
    assert_eq!(check_journal(&j), Err(JournalFault::InvalidListing(0, 0)));
    let mut j = journal_record();
    j.unchanged[0] = journal_path("/etc/sb/client.json", Some("/etc/sb"), Some("client.json"));
    assert_eq!(check_journal(&j), Err(JournalFault::InvalidUnchanged(0)));
}

#[test]
fn missing_and_mistyped_fields_name_their_location() {
    let server = sb_rotate::config::load_document("/s.json".into(), br#"{"inbounds": [{"type": "vless", "tag": 1}]}"#.to_vec()).unwrap();
    let client = sb_rotate::config::load_document("/c.json".into(), br#"{"outbounds": []}"#.to_vec()).unwrap();
    let configs = sb_rotate::config::ConfigSet::assemble(
        "/s.json".into(),
        false,
        vec![("s.json".into(), "/s.json".into())],
        vec![server],
        vec![client],
        vec![],
    )
    .unwrap();
    let error = configs.value("/s.json", "/inbounds/0/users").err().unwrap();
    assert_eq!(error.message(), "missing JSON location /s.json#/inbounds/0/users");
    let inbound = sb_rotate::binding::EndpointRef {
        config: sb_rotate::binding::ConfigRef { file: "/s.json".into(), pointer: "/inbounds/0".into() },
        tag: None,
    };
    let error = sb_rotate::protocol::string_field(&configs, &inbound, "tag").err().unwrap();
    assert_eq!(error.message(), "/s.json#/inbounds/0 tag=<untagged>: tag must be a string");
    let error = sb_rotate::protocol::string_field(&configs, &inbound, "obfs/type").err().unwrap();
    assert_eq!(error.message(), "missing JSON location /s.json#/inbounds/0/obfs/type");
}
