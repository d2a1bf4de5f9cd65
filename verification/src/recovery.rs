//! Decisions of transaction recovery: how a journaled file compares with what the
//! transaction recorded, and whether a journal is rolled back, cleaned or refused.
//! Reading and writing the journal and the configs is left to the caller.
use vstd::prelude::*;
use sha2::Digest;
use crate::config::{first_match, lemma_first_match_skip};
use crate::error::{Error, ErrorKind};
use crate::text::{append_str, chars_of, ends_with_str, has_prefix, has_suffix, is_hex_digit, starts_with_str};

verus! {

/// How a journaled config file compares with the transaction's record of it.
#[derive(Clone, Copy, Debug, PartialEq, Eq, Structural)]
pub enum Status {
    /// It holds the original bytes and attributes.
    Original,
    /// It holds the installed replacement.
    Installed,
    /// Something else changed it.
    Conflict,
}

impl Status {
    pub open spec fn spec_name(self) -> Seq<char> {
        match self {
            Status::Original => "original"@,
            Status::Installed => "installed replacement"@,
            Status::Conflict => "CONFLICT (externally changed)"@,
        }
    }

    pub fn name(self) -> (r: &'static str)
        ensures
            r@ == self.spec_name(),
    {
        match self {
            Status::Original => "original",
            Status::Installed => "installed replacement",
            Status::Conflict => "CONFLICT (externally changed)",
        }
    }
}

/// A file that matches its original record is original; otherwise one that matches
/// the installed record is installed; anything else is a conflict.
pub fn classify(matches_original: bool, matches_installed: bool) -> (r: Status)
    ensures
        r == (if matches_original { Status::Original } else if matches_installed { Status::Installed } else { Status::Conflict }),
{
    if matches_original {
        Status::Original
    } else if matches_installed {
        Status::Installed
    } else {
        Status::Conflict
    }
}

/// A transaction's recorded outcome.
#[derive(Clone, Copy, Debug, PartialEq, Eq, Structural)]
pub enum Finished {
    Committed,
    RolledBack,
}

impl Finished {
    pub fn name(self) -> (r: &'static str)
        ensures
            r@ == (match self { Finished::Committed => "committed"@, Finished::RolledBack => "rolled back"@ }),
    {
        match self {
            Finished::Committed => "committed",
            Finished::RolledBack => "rolled back",
        }
    }
}

/// The outcome a journal's completion flags record: both outcomes at once, or an
/// outcome without the decision to start, make the journal invalid.
pub open spec fn spec_finished(committed: bool, rolled_back: bool, started: bool) -> Result<Option<Finished>, ErrorKind> {
    if committed && rolled_back {
        Err(ErrorKind::InvalidJournal)
    } else if (committed || rolled_back) && !started {
        Err(ErrorKind::InvalidJournal)
    } else if committed {
        Ok(Some(Finished::Committed))
    } else if rolled_back {
        Ok(Some(Finished::RolledBack))
    } else {
        Ok(None)
    }
}

pub fn finished(committed: bool, rolled_back: bool, started: bool) -> (r: Result<Option<Finished>, Error>)
    ensures
        match r {
            Ok(f) => spec_finished(committed, rolled_back, started) == Ok::<Option<Finished>, ErrorKind>(f),
            Err(e) => spec_finished(committed, rolled_back, started) == Err::<Option<Finished>, ErrorKind>(e.kind),
        },
{
    if committed && rolled_back {
        return Err(Error::plain(ErrorKind::InvalidJournal));
    }
    if (committed || rolled_back) && !started {
        return Err(Error::plain(ErrorKind::InvalidJournal));
    }
    if committed {
        Ok(Some(Finished::Committed))
    } else if rolled_back {
        Ok(Some(Finished::RolledBack))
    } else {
        Ok(None)
    }
}

/// What recovery does with a journal.
#[derive(Clone, Copy, Debug, PartialEq, Eq, Structural)]
pub enum Action {
    /// Remove the journal and the pending markers; configs are not touched.
    Clean,
    /// Restore every installed file to its original, then clean.
    RollBack,
}

pub open spec fn any_conflict(statuses: Seq<Status>) -> bool {
    exists|i: int| 0 <= i < statuses.len() && statuses[i] == Status::Conflict
}

/// The recovery of a journal: a finished or never-started transaction is only
/// cleaned; a started one is rolled back, unless a source changed or a file is in
/// conflict, which refuses it (a preview still reports it).
pub open spec fn spec_recovery_action(finished: Option<Finished>, started: bool, source_conflict: bool, statuses: Seq<Status>,
    dry_run: bool) -> Result<Action, ErrorKind> {
    if finished is Some || !started {
        Ok(Action::Clean)
    } else if (source_conflict || any_conflict(statuses)) && !dry_run {
        Err(ErrorKind::RecoveryConflict)
    } else {
        Ok(Action::RollBack)
    }
}

pub fn recovery_action(finished: Option<Finished>, started: bool, source_conflict: bool, statuses: &Vec<Status>, dry_run: bool)
    -> (r: Result<Action, Error>)
    ensures
        match r {
            Ok(a) => spec_recovery_action(finished, started, source_conflict, statuses@, dry_run) == Ok::<Action, ErrorKind>(a),
            Err(e) => spec_recovery_action(finished, started, source_conflict, statuses@, dry_run) == Err::<Action, ErrorKind>(e.kind),
        },
{
    if finished.is_some() || !started {
        return Ok(Action::Clean);
    }
    let conflicts = source_conflict || has_conflict(statuses);
    if conflicts && !dry_run {
        return Err(Error::plain(ErrorKind::RecoveryConflict));
    }
    Ok(Action::RollBack)
}

/// Whether some file is in conflict.
pub fn has_conflict(statuses: &Vec<Status>) -> (r: bool)
    ensures
        r == any_conflict(statuses@),
{
    let mut i: usize = 0;
    while i < statuses.len()
        invariant
            i <= statuses@.len(),
            forall|k: int| 0 <= k < i ==> statuses@[k] != Status::Conflict,
        decreases statuses@.len() - i,
    {
        if statuses[i] == Status::Conflict {
            return true;
        }
        i = i + 1;
    }
    false
}

/// The positions of the installed files among the first `n`, in order.
pub open spec fn installed_among(statuses: Seq<Status>, n: int) -> Seq<int>
    decreases n,
{
    if n <= 0 {
        Seq::empty()
    } else if statuses[n - 1] == Status::Installed {
        installed_among(statuses, n - 1).push(n - 1)
    } else {
        installed_among(statuses, n - 1)
    }
}

pub open spec fn is_conflict(s: Status) -> bool {
    s == Status::Conflict
}

/// What a rollback restores: every installed file, in journal order, leaving the
/// original ones alone; a file in conflict refuses the rollback, and the refusal
/// names the first such file.
pub open spec fn spec_rollback_plan(statuses: Seq<Status>) -> Result<Seq<int>, int> {
    match first_match(statuses, |s: Status| is_conflict(s), 0) {
        Some(k) => Err(k),
        None => Ok(installed_among(statuses, statuses.len() as int)),
    }
}

pub fn rollback_plan(statuses: &Vec<Status>) -> (r: Result<Vec<usize>, usize>)
    ensures
        match r {
            Ok(v) => spec_rollback_plan(statuses@) == Ok::<Seq<int>, int>(v@.map_values(|i: usize| i as int)),
            Err(k) => spec_rollback_plan(statuses@) == Err::<Seq<int>, int>(k as int),
        },
{
    let ghost f = |s: Status| is_conflict(s);
    let mut restore: Vec<usize> = Vec::new();
    let mut i: usize = 0;
    while i < statuses.len()
        invariant
            i <= statuses@.len(),
            f == (|s: Status| is_conflict(s)),
            forall|k: int| 0 <= k < i ==> !f(#[trigger] statuses@[k]),
            restore@.map_values(|j: usize| j as int) == installed_among(statuses@, i as int),
        decreases statuses@.len() - i,
    {
        proof {
            lemma_first_match_skip(statuses@, f, i as int);
        }
        match statuses[i] {
            Status::Conflict => {
                assert(f(statuses@[i as int]));
                return Err(i);
            },
            Status::Installed => {
                let ghost before = restore@.map_values(|j: usize| j as int);
                restore.push(i);
                assert(restore@.map_values(|j: usize| j as int) =~= before.push(i as int));
            },
            Status::Original => {},
        }
        i = i + 1;
    }
    proof {
        lemma_first_match_skip(statuses@, f, i as int);
    }
    Ok(restore)
}

/// Fails on the first directory with a pending transaction (its journal, when it
/// has one).
/// What a pending transaction is refused with: the directory and its journal.
pub open spec fn pending_text(directory: Seq<char>, journal: Seq<char>) -> Seq<char> {
    "pending config transaction in "@ + directory + "; journal: "@ + journal
        + "; run sb-rotate recover --directory <config-directory> --dry-run before making further changes"@
}

pub fn ensure_no_pending(directories: &Vec<String>, pending: &Vec<Option<String>>) -> (r: Result<(), Error>)
    requires
        directories@.len() == pending@.len(),
    ensures
        r is Ok <==> forall|i: int| 0 <= i < pending@.len() ==> pending@[i] is None,
        r matches Err(e) ==> e.kind == ErrorKind::PendingTransaction
            && exists|i: int| #![trigger pending@[i]] 0 <= i < pending@.len()
                && (forall|k: int| 0 <= k < i ==> pending@[k] is None)
                && (pending@[i] matches Some(j) && e.context@ == pending_text(directories@[i]@, j@)),
{
    let mut i: usize = 0;
    while i < pending.len()
        invariant
            directories@.len() == pending@.len(),
            i <= pending@.len(),
            forall|k: int| 0 <= k < i ==> pending@[k] is None,
        decreases pending@.len() - i,
    {
        match &pending[i] {
            Some(journal) => {
                let mut context = "pending config transaction in ".to_string();
                append_str(&mut context, directories[i].as_str());
                append_str(&mut context, "; journal: ");
                append_str(&mut context, journal.as_str());
                append_str(&mut context, "; run sb-rotate recover --directory <config-directory> --dry-run before making further changes");
                return Err(Error::new(ErrorKind::PendingTransaction, context));
            },
            None => {},
        }
        i = i + 1;
    }
    Ok(())
}

/// The journal format this tool writes and reads.
pub const JOURNAL_VERSION: u32 = 1;

/// A pending marker names a journal of this format by an absolute path.
pub fn marker_valid(version: u32, journal_is_absolute: bool) -> (r: bool)
    ensures
        r == (version == JOURNAL_VERSION && journal_is_absolute),
{
    version == JOURNAL_VERSION && journal_is_absolute
}

/// Every file this tool keeps beside the configs has a name that begins so.
pub open spec fn reserved_prefix() -> Seq<char> {
    ".sb-rotate"@
}

/// A config file the tool may replace: not one of its own files.
pub fn replaceable_name(name: &str) -> (r: bool)
    ensures
        r == !has_prefix(name@, reserved_prefix()),
{
    !starts_with_str(name, ".sb-rotate")
}

/// The name of a staged replacement: `.sb-rotate-` followed by a temporary name
/// ending in `.tmp`.
pub fn staged_name_valid(name: &str) -> (r: bool)
    ensures
        r == (has_prefix(name@, ".sb-rotate-"@) && has_suffix(name@, ".tmp"@)),
{
    starts_with_str(name, ".sb-rotate-") && ends_with_str(name, ".tmp")
}

/// The name of a transaction journal directory.
pub fn journal_name_valid(name: &str) -> (r: bool)
    ensures
        r == has_prefix(name@, ".sb-rotate-transaction-"@),
{
    starts_with_str(name, ".sb-rotate-transaction-")
}

/// A recorded checksum: 64 hexadecimal digits.
pub open spec fn well_formed_checksum(s: Seq<char>) -> bool {
    s.len() == 64 && forall|i: int| 0 <= i < s.len() ==> is_hex_digit(#[trigger] s[i])
}

pub fn valid_checksum(s: &str) -> (r: bool)
    ensures
        r == well_formed_checksum(s@),
{
    let cs = chars_of(s);
    if cs.len() != 64 {
        return false;
    }
    let mut i: usize = 0;
    while i < cs.len()
        invariant
            cs@ == s@,
            i <= cs@.len(),
            forall|k: int| 0 <= k < i ==> is_hex_digit(#[trigger] cs@[k]),
        decreases cs@.len() - i,
    {
        let c = cs[i];
        if !(('0' <= c && c <= '9') || ('a' <= c && c <= 'f') || ('A' <= c && c <= 'F')) {
            assert(!is_hex_digit(cs@[i as int]));
            return false;
        }
        i = i + 1;
    }
    true
}

/// The SHA-256 digest of some bytes, in lower-case hexadecimal.
pub uninterp spec fn sha256_hex(bytes: Seq<u8>) -> Seq<char>;

/// The SHA-256 digest of `bytes`, by `sha2::Sha256::digest`, formatted with `{:x}`.
/// Trusted: the result is `sha256_hex` of the bytes.
#[verifier::external_body]
fn sha256_digest(bytes: &[u8]) -> (r: String)
    ensures
        r@ == sha256_hex(bytes@),
{
    format!("{:x}", sha2::Sha256::digest(bytes))
}

/// The checksum a journal records for some bytes: their SHA-256 digest in
/// lower-case hexadecimal.
pub fn digest(bytes: &[u8]) -> (r: String)
    ensures
        r@ == sha256_hex(bytes@),
{
    sha256_digest(bytes)
}

/// Whether some bytes have a recorded checksum.
pub fn digest_matches(expected: &str, bytes: &[u8]) -> (r: bool)
    ensures
        r == (sha256_hex(bytes@) == expected@),
{
    let d = digest(bytes);
    crate::text::str_equal(d.as_str(), expected)
}

} // verus!
