//! Command model: what the user asked for, independent of argument parsing.
use vstd::prelude::*;
use crate::text::str_equal;

verus! {

/// The command line as a whole.
pub struct Cli {
    pub command: Command,
}

/// One invocation of the tool.
pub enum Command {
    /// Discover service and identity bindings (passwords are masked).
    Inspect { input: Input, protocol: Option<Protocol> },
    /// Generate and display a rotation without writing configs.
    Plan { input: Input, selection: Selection },
    /// Rotate an identity, Reality short IDs/keypair, or a shared obfs secret.
    Rotate { input: Input, selection: Selection },
    /// Update a service property on every bound client (never the listen port).
    SetProperty { input: Input, kind: PropertyKind, value: String, dry_run: bool },
    /// Validate the complete server set and each independent client config.
    Check { input: Input },
    /// Roll back or clean an interrupted transaction.
    Recover { journal: Option<String>, directory: Option<String>, dry_run: bool },
}

/// What a plan or rotation rotates: the material of one protocol (`--type`),
/// optionally only one kind of it (`--only`), or else one kind of rotation
/// (`--kind`).
pub struct Selection {
    pub kind: Option<RotationKind>,
    pub protocol: Option<Protocol>,
    pub only: Option<RotationMaterial>,
}

/// The config inputs and selectors shared by every config command.
pub struct Input {
    /// Server JSON file or config directory.
    pub server: String,
    /// Directory of independent client JSON files (non-recursive).
    pub clients: Option<String>,
    /// Selected client files; repeatable. Shared identities still rotate together.
    pub client: Vec<String>,
    pub inbound_tag: Vec<String>,
    pub client_tag: Vec<String>,
    /// Executable override; otherwise SING_BOX, then sing-box on PATH.
    pub sing_box: Option<String>,
}

impl Default for Input {
    fn default() -> (r: Input)
        ensures
            r.server@ == Seq::<char>::empty(),
            r.clients is None,
            r.client@.len() == 0,
            r.inbound_tag@.len() == 0,
            r.client_tag@.len() == 0,
            r.sing_box is None,
    {
        Input {
            server: String::new(),
            clients: None,
            client: Vec::new(),
            inbound_tag: Vec::new(),
            client_tag: Vec::new(),
            sing_box: None,
        }
    }
}

impl Command {
    pub open spec fn spec_input(&self) -> Option<&Input> {
        match self {
            Command::Inspect { input, .. } => Some(input),
            Command::Plan { input, .. } => Some(input),
            Command::Rotate { input, .. } => Some(input),
            Command::SetProperty { input, .. } => Some(input),
            Command::Check { input } => Some(input),
            Command::Recover { .. } => None,
        }
    }

    /// The config inputs of the command; `recover` works on a journal instead.
    pub fn input(&self) -> (r: Option<&Input>)
        ensures
            r == self.spec_input(),
    {
        match self {
            Command::Inspect { input, .. } => Some(input),
            Command::Plan { input, .. } => Some(input),
            Command::Rotate { input, .. } => Some(input),
            Command::SetProperty { input, .. } => Some(input),
            Command::Check { input } => Some(input),
            Command::Recover { .. } => None,
        }
    }
}

#[derive(Clone, Copy, Debug, PartialEq, Eq, Structural)]
pub enum Protocol {
    Vless,
    Hysteria2,
}

impl Protocol {
    /// The sing-box `type` of the protocol's inbounds and outbounds.
    pub open spec fn spec_name(self) -> Seq<char> {
        match self {
            Protocol::Vless => "vless"@,
            Protocol::Hysteria2 => "hysteria2"@,
        }
    }

    /// The field that carries the user credential.
    pub open spec fn spec_credential(self) -> Seq<char> {
        match self {
            Protocol::Vless => "uuid"@,
            Protocol::Hysteria2 => "password"@,
        }
    }

    pub open spec fn spec_parse(value: Seq<char>) -> Option<Protocol> {
        if value == "vless"@ {
            Some(Protocol::Vless)
        } else if value == "hysteria2"@ {
            Some(Protocol::Hysteria2)
        } else {
            None
        }
    }

    pub fn parse(value: &str) -> (r: Option<Protocol>)
        ensures
            r == Protocol::spec_parse(value@),
    {
        if str_equal(value, "vless") {
            Some(Protocol::Vless)
        } else if str_equal(value, "hysteria2") {
            Some(Protocol::Hysteria2)
        } else {
            None
        }
    }

    pub fn name(self) -> (r: &'static str)
        ensures
            r@ == self.spec_name(),
    {
        match self {
            Protocol::Vless => "vless",
            Protocol::Hysteria2 => "hysteria2",
        }
    }

    pub fn credential(self) -> (r: &'static str)
        ensures
            r@ == self.spec_credential(),
    {
        match self {
            Protocol::Vless => "uuid",
            Protocol::Hysteria2 => "password",
        }
    }
}

#[derive(Clone, Copy, Debug, PartialEq, Eq, Structural)]
pub enum RotationKind {
    VlessUuid,
    VlessRealityShortId,
    VlessRealityKeypair,
    Hysteria2Password,
    Hysteria2ObfsPassword,
}

impl RotationKind {
    pub open spec fn spec_identity(self) -> Option<IdentityKind> {
        match self {
            RotationKind::VlessUuid => Some(IdentityKind::VlessUuid),
            RotationKind::Hysteria2Password => Some(IdentityKind::Hysteria2Password),
            _ => None,
        }
    }

    /// The identity kind of an identity-scoped rotation.
    pub fn identity(self) -> (r: Option<IdentityKind>)
        ensures
            r == self.spec_identity(),
    {
        match self {
            RotationKind::VlessUuid => Some(IdentityKind::VlessUuid),
            RotationKind::Hysteria2Password => Some(IdentityKind::Hysteria2Password),
            _ => None,
        }
    }
}

impl From<IdentityKind> for RotationKind {
    fn from(kind: IdentityKind) -> (r: RotationKind)
        ensures
            r == rotation_of_identity(kind),
    {
        match kind {
            IdentityKind::VlessUuid => RotationKind::VlessUuid,
            IdentityKind::Hysteria2Password => RotationKind::Hysteria2Password,
        }
    }
}

pub open spec fn rotation_of_identity(kind: IdentityKind) -> RotationKind {
    match kind {
        IdentityKind::VlessUuid => RotationKind::VlessUuid,
        IdentityKind::Hysteria2Password => RotationKind::Hysteria2Password,
    }
}

impl vstd::std_specs::convert::FromSpecImpl<IdentityKind> for RotationKind {
    open spec fn obeys_from_spec() -> bool {
        true
    }

    open spec fn from_spec(v: IdentityKind) -> RotationKind {
        rotation_of_identity(v)
    }
}

/// One kind of material of a protocol, for a type-driven rotation limited to it.
#[derive(Clone, Copy, Debug, PartialEq, Eq, Structural)]
pub enum RotationMaterial {
    Uuid,
    Password,
    RealityKeypair,
    RealityShortId,
    ObfsPassword,
}

impl RotationMaterial {
    /// The rotation that rotates this material.
    pub open spec fn spec_kind(self) -> RotationKind {
        match self {
            RotationMaterial::Uuid => RotationKind::VlessUuid,
            RotationMaterial::Password => RotationKind::Hysteria2Password,
            RotationMaterial::RealityKeypair => RotationKind::VlessRealityKeypair,
            RotationMaterial::RealityShortId => RotationKind::VlessRealityShortId,
            RotationMaterial::ObfsPassword => RotationKind::Hysteria2ObfsPassword,
        }
    }

    pub fn kind(self) -> (r: RotationKind)
        ensures
            r == self.spec_kind(),
    {
        match self {
            RotationMaterial::Uuid => RotationKind::VlessUuid,
            RotationMaterial::Password => RotationKind::Hysteria2Password,
            RotationMaterial::RealityKeypair => RotationKind::VlessRealityKeypair,
            RotationMaterial::RealityShortId => RotationKind::VlessRealityShortId,
            RotationMaterial::ObfsPassword => RotationKind::Hysteria2ObfsPassword,
        }
    }
}

impl RotationKind {
    /// The protocol whose material a rotation of this kind rotates.
    pub open spec fn spec_protocol(self) -> Protocol {
        match self {
            RotationKind::VlessUuid | RotationKind::VlessRealityShortId | RotationKind::VlessRealityKeypair => Protocol::Vless,
            RotationKind::Hysteria2Password | RotationKind::Hysteria2ObfsPassword => Protocol::Hysteria2,
        }
    }

    pub fn protocol(self) -> (r: Protocol)
        ensures
            r == self.spec_protocol(),
    {
        match self {
            RotationKind::VlessUuid | RotationKind::VlessRealityShortId | RotationKind::VlessRealityKeypair => Protocol::Vless,
            RotationKind::Hysteria2Password | RotationKind::Hysteria2ObfsPassword => Protocol::Hysteria2,
        }
    }
}

#[derive(Clone, Copy, Debug, PartialEq, Eq, Structural)]
pub enum PropertyKind {
    Server,
    ServerPort,
    ServerPorts,
    TlsServerName,
}

#[derive(Clone, Copy, Debug, PartialEq, Eq, Structural)]
pub enum IdentityKind {
    VlessUuid,
    Hysteria2Password,
}

impl IdentityKind {
    pub open spec fn spec_protocol(self) -> Protocol {
        match self {
            IdentityKind::VlessUuid => Protocol::Vless,
            IdentityKind::Hysteria2Password => Protocol::Hysteria2,
        }
    }

    pub fn protocol(self) -> (r: Protocol)
        ensures
            r == self.spec_protocol(),
    {
        match self {
            IdentityKind::VlessUuid => Protocol::Vless,
            IdentityKind::Hysteria2Password => Protocol::Hysteria2,
        }
    }
}

} // verus!
