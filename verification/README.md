# sb-rotate

Discovers which sing-box client outbounds belong to which server inbounds and
users, and plans coordinated edits: rotating user credentials (VLESS UUIDs,
Hysteria2 passwords), Reality keypairs and short IDs, Hysteria2 obfs passwords,
and propagating service properties (server address, ports, TLS server name) to
every bound client.

## Layout

- `src/` is the library, verified with Verus. Given the generated values, each
  planner states in its contract exactly which edits it produces, or which
  error, over a mathematical model of the configs (`json`, `config`), of the
  discovered bindings (`binding`) and of plans (`plan`). The planners that ask
  sing-box for the values state every refusal decided before any value is
  generated; that any other failure is a generator failure or the one some
  generated values give; and that a plan they return is the one some generated
  values of the promised form give (a UUID, or the text of the requested number
  of random bytes). The `SingBox` trait states that form for its implementations;
  the executable's implementation checks it.
  Config files are read and written as JSON text with serde_json
  (`config::load_document`, `ChangedFile::contents`).
  - `binding`: discovery of services, identities and bound clients.
  - `plan`: edits, identity rotation, plan rendering and materialization.
  - `protocol`: the VLESS Reality, Hysteria2 obfs and service-property planners.
  - `material`: type-driven rotation of all material of one protocol.
  - `recovery`: the decisions of transaction recovery.
  - `journal`: the checks on a recovery journal read back from disk.
  - `singbox`: what the tool reads from the sing-box executable.
  - `laws`: properties of the planners as a whole, as proof functions.
- `app/` is the command-line program: argument parsing, file I/O, locking,
  the rollback journal and running sing-box.
- `tests/` exercises the library on in-memory config sets.
