//! Failures of discovery, planning and edit materialization.
use vstd::prelude::*;
use crate::text::append_str;

verus! {

/// What went wrong; the contracts of the library speak of these.
#[derive(Clone, Copy, Debug, PartialEq, Eq, Structural)]
pub enum ErrorKind {
    // loading
    NoServerFiles,
    AliasedServerFiles,
    NoClientFiles,
    ServerAndClientFile,
    NotAnObject,
    InvalidJson,
    // discovery
    NotAnArray,
    MissingCredential,
    Ambiguous,
    // selection and planning
    NoMatchedIdentities,
    ServiceWideSelectors,
    NoMatchingService,
    MultipleServices,
    NotAString,
    MissingLocation,
    NoRealityClients,
    InvalidShortId,
    ShortIdsNotAnArray,
    ShortIdNotAccepted,
    NoRealitySelected,
    ObfsNotConfigured,
    ObfsTypeMismatch,
    ServerPortsInUse,
    NoScalarPort,
    TlsNotEnabled,
    InvalidPort,
    ZeroPort,
    InvalidPortRange,
    InvalidName,
    ProtocolMismatch,
    // sing-box
    Executable,
    CheckFailed,
    // generated values
    Generator,
    EmptyGenerated,
    InvalidGenerated,
    GeneratedCollision,
    GeneratedUnchanged,
    // edits
    InvalidEditLocation,
    DuplicateEdit,
    OverlappingEdit,
    StaleEdit,
    // versions
    VersionNotFound,
    InvalidVersion,
    UnsupportedVersion,
    // recovery
    InvalidJournal,
    PendingTransaction,
    RecoveryConflict,
}

/// A failure: its kind and the config location or value it concerns.
#[derive(Debug)]
pub struct Error {
    pub kind: ErrorKind,
    pub context: String,
}

impl Error {
    pub fn new(kind: ErrorKind, context: String) -> (r: Error)
        ensures
            r.kind == kind,
            r.context@ == context@,
    {
        Error { kind, context }
    }

    pub fn plain(kind: ErrorKind) -> (r: Error)
        ensures
            r.kind == kind,
            r.context@ == Seq::<char>::empty(),
    {
        Error { kind, context: String::new() }
    }

    /// A human-readable description: the context, then what went wrong. The
    /// context of a discovery failure already says both, and is the message.
    pub fn message(&self) -> (r: String)
        ensures
            r@ == message_text(self.kind, self.context@),
    {
        if self.context.unicode_len() > 0 && names_itself(self.kind) {
            return self.context.clone();
        }
        if self.context.unicode_len() > 0 {
            match lead(self.kind) {
                Some(l) => {
                    let mut s = l.to_string();
                    append_str(&mut s, self.context.as_str());
                    return s;
                },
                None => {},
            }
        }
        let mut s = String::new();
        if self.context.unicode_len() > 0 {
            append_str(&mut s, self.context.as_str());
            append_str(&mut s, ": ");
        }
        append_str(&mut s, describe(self.kind));
        s
    }
}

/// Kinds of failure whose context is a whole sentence naming what went wrong
/// and where: those of discovery, a pending transaction and an unsupported
/// sing-box version.
pub open spec fn spec_names_itself(kind: ErrorKind) -> bool {
    kind == ErrorKind::NotAnArray || kind == ErrorKind::MissingCredential || kind == ErrorKind::Ambiguous
        || kind == ErrorKind::PendingTransaction || kind == ErrorKind::UnsupportedVersion || kind == ErrorKind::NotAString
}

pub fn names_itself(kind: ErrorKind) -> (r: bool)
    ensures
        r == spec_names_itself(kind),
{
    match kind {
        ErrorKind::NotAnArray | ErrorKind::MissingCredential | ErrorKind::Ambiguous | ErrorKind::PendingTransaction
        | ErrorKind::UnsupportedVersion | ErrorKind::NotAString => true,
        _ => false,
    }
}

/// Kinds of failure whose message leads with what went wrong, then names the
/// file it concerns.
pub open spec fn lead_text(kind: ErrorKind) -> Option<Seq<char>> {
    match kind {
        ErrorKind::InvalidJson => Some("parsing JSON in "@),
        ErrorKind::NotAnObject => Some("config must be an object: "@),
        ErrorKind::MissingLocation => Some("missing JSON location "@),
        _ => None,
    }
}

pub fn lead(kind: ErrorKind) -> (r: Option<&'static str>)
    ensures
        match r {
            Some(l) => lead_text(kind) == Some(l@),
            None => lead_text(kind) is None,
        },
{
    match kind {
        ErrorKind::InvalidJson => Some("parsing JSON in "),
        ErrorKind::NotAnObject => Some("config must be an object: "),
        ErrorKind::MissingLocation => Some("missing JSON location "),
        _ => None,
    }
}

/// The message of a failure of `kind` with `context`.
pub open spec fn message_text(kind: ErrorKind, context: Seq<char>) -> Seq<char> {
    if context.len() > 0 && spec_names_itself(kind) {
        context
    } else if context.len() > 0 && lead_text(kind) is Some {
        lead_text(kind)->Some_0 + context
    } else {
        (if context.len() > 0 { context + ": "@ } else { Seq::empty() }) + description(kind)
    }
}

/// The fixed description of each kind of failure.
pub open spec fn description(kind: ErrorKind) -> Seq<char> {
    match kind {
        ErrorKind::NoServerFiles => "server directory contains no JSON files"@,
        ErrorKind::AliasedServerFiles => "server directory contains aliases of the same config file"@,
        ErrorKind::NoClientFiles => "no client JSON files supplied"@,
        ErrorKind::ServerAndClientFile => "a file cannot be both a server fragment and an independent client config"@,
        ErrorKind::NotAnObject => "config must be an object"@,
        ErrorKind::InvalidJson => "invalid JSON"@,
        ErrorKind::NotAnArray => "must be an array"@,
        ErrorKind::MissingCredential => "missing or invalid credential"@,
        ErrorKind::Ambiguous => "ambiguous client; matches several inbounds; narrow with --inbound-tag"@,
        ErrorKind::NoMatchedIdentities => "no matched identities selected; use inspect to review bindings"@,
        ErrorKind::ServiceWideSelectors => "service-wide operations reject --client and --client-tag; supply all clients with --clients and select the service with --inbound-tag"@,
        ErrorKind::NoMatchingService => "no matching service with bound clients; use inspect to review bindings"@,
        ErrorKind::MultipleServices => "operation matches multiple services; narrow to one with --inbound-tag"@,
        ErrorKind::NotAString => "must be a string"@,
        ErrorKind::MissingLocation => "missing JSON location"@,
        ErrorKind::NoRealityClients => "service has no bound Reality clients"@,
        ErrorKind::InvalidShortId => "Reality short_id must contain an even number of hex digits (0 through 16)"@,
        ErrorKind::ShortIdsNotAnArray => "server Reality short_id must be an array of strings"@,
        ErrorKind::ShortIdNotAccepted => "Reality short_id is not accepted by the bound server"@,
        ErrorKind::NoRealitySelected => "no Reality client outbounds selected"@,
        ErrorKind::ObfsNotConfigured => "Hysteria2 obfs must be configured on the server"@,
        ErrorKind::ObfsTypeMismatch => "bound client's obfs type differs from the server"@,
        ErrorKind::ServerPortsInUse => "outbound uses server_ports; use --kind server-ports instead"@,
        ErrorKind::NoScalarPort => "server-port requires an existing scalar server_port"@,
        ErrorKind::TlsNotEnabled => "TLS must already be enabled; refusing to invent a TLS block"@,
        ErrorKind::InvalidPort => "port must be an integer between 1 and 65535"@,
        ErrorKind::ZeroPort => "port must be between 1 and 65535"@,
        ErrorKind::InvalidPortRange => "port range start must not exceed its end"@,
        ErrorKind::InvalidName => "server address / TLS server name must be nonempty and contain no whitespace"@,
        ErrorKind::ProtocolMismatch => "material does not belong to the selected protocol"@,
        ErrorKind::Executable => "could not run sing-box"@,
        ErrorKind::CheckFailed => "sing-box rejected the config"@,
        ErrorKind::Generator => "sing-box generator failed"@,
        ErrorKind::EmptyGenerated => "generator returned an empty value"@,
        ErrorKind::InvalidGenerated => "generator returned a malformed value"@,
        ErrorKind::GeneratedCollision => "generated value collides with an existing or newly generated value; retry"@,
        ErrorKind::GeneratedUnchanged => "generated value is unchanged; retry"@,
        ErrorKind::InvalidEditLocation => "invalid edit location"@,
        ErrorKind::DuplicateEdit => "duplicate edit"@,
        ErrorKind::OverlappingEdit => "overlapping edits"@,
        ErrorKind::StaleEdit => "stale edit"@,
        ErrorKind::VersionNotFound => "could not find 'sing-box version <semver>' in version output"@,
        ErrorKind::InvalidVersion => "invalid sing-box semantic version"@,
        ErrorKind::UnsupportedVersion => "sing-box version is unsupported; version >= 1.14.0 is required"@,
        ErrorKind::InvalidJournal => "invalid recovery journal"@,
        ErrorKind::PendingTransaction => "pending config transaction; run sb-rotate recover --directory <config-directory> --dry-run before making further changes"@,
        ErrorKind::RecoveryConflict => "recovery conflict: refusing to overwrite an external edit"@,
    }
}

/// The fixed description of each kind of failure.
pub fn describe(kind: ErrorKind) -> (r: &'static str)
    ensures
        r@ == description(kind),
{
    match kind {
        ErrorKind::NoServerFiles => "server directory contains no JSON files",
        ErrorKind::AliasedServerFiles => "server directory contains aliases of the same config file",
        ErrorKind::NoClientFiles => "no client JSON files supplied",
        ErrorKind::ServerAndClientFile => "a file cannot be both a server fragment and an independent client config",
        ErrorKind::NotAnObject => "config must be an object",
        ErrorKind::InvalidJson => "invalid JSON",
        ErrorKind::NotAnArray => "must be an array",
        ErrorKind::MissingCredential => "missing or invalid credential",
        ErrorKind::Ambiguous => "ambiguous client; matches several inbounds; narrow with --inbound-tag",
        ErrorKind::NoMatchedIdentities => "no matched identities selected; use inspect to review bindings",
        ErrorKind::ServiceWideSelectors => "service-wide operations reject --client and --client-tag; supply all clients with --clients and select the service with --inbound-tag",
        ErrorKind::NoMatchingService => "no matching service with bound clients; use inspect to review bindings",
        ErrorKind::MultipleServices => "operation matches multiple services; narrow to one with --inbound-tag",
        ErrorKind::NotAString => "must be a string",
        ErrorKind::MissingLocation => "missing JSON location",
        ErrorKind::NoRealityClients => "service has no bound Reality clients",
        ErrorKind::InvalidShortId => "Reality short_id must contain an even number of hex digits (0 through 16)",
        ErrorKind::ShortIdsNotAnArray => "server Reality short_id must be an array of strings",
        ErrorKind::ShortIdNotAccepted => "Reality short_id is not accepted by the bound server",
        ErrorKind::NoRealitySelected => "no Reality client outbounds selected",
        ErrorKind::ObfsNotConfigured => "Hysteria2 obfs must be configured on the server",
        ErrorKind::ObfsTypeMismatch => "bound client's obfs type differs from the server",
        ErrorKind::ServerPortsInUse => "outbound uses server_ports; use --kind server-ports instead",
        ErrorKind::NoScalarPort => "server-port requires an existing scalar server_port",
        ErrorKind::TlsNotEnabled => "TLS must already be enabled; refusing to invent a TLS block",
        ErrorKind::InvalidPort => "port must be an integer between 1 and 65535",
        ErrorKind::ZeroPort => "port must be between 1 and 65535",
        ErrorKind::InvalidPortRange => "port range start must not exceed its end",
        ErrorKind::InvalidName => "server address / TLS server name must be nonempty and contain no whitespace",
        ErrorKind::ProtocolMismatch => "material does not belong to the selected protocol",
        ErrorKind::Executable => "could not run sing-box",
        ErrorKind::CheckFailed => "sing-box rejected the config",
        ErrorKind::Generator => "sing-box generator failed",
        ErrorKind::EmptyGenerated => "generator returned an empty value",
        ErrorKind::InvalidGenerated => "generator returned a malformed value",
        ErrorKind::GeneratedCollision => "generated value collides with an existing or newly generated value; retry",
        ErrorKind::GeneratedUnchanged => "generated value is unchanged; retry",
        ErrorKind::InvalidEditLocation => "invalid edit location",
        ErrorKind::DuplicateEdit => "duplicate edit",
        ErrorKind::OverlappingEdit => "overlapping edits",
        ErrorKind::StaleEdit => "stale edit",
        ErrorKind::VersionNotFound => "could not find 'sing-box version <semver>' in version output",
        ErrorKind::InvalidVersion => "invalid sing-box semantic version",
        ErrorKind::UnsupportedVersion => "sing-box version is unsupported; version >= 1.14.0 is required",
        ErrorKind::InvalidJournal => "invalid recovery journal",
        ErrorKind::PendingTransaction => "pending config transaction; run sb-rotate recover --directory <config-directory> --dry-run before making further changes",
        ErrorKind::RecoveryConflict => "recovery conflict: refusing to overwrite an external edit",
    }
}

} // verus!
