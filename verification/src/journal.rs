//! Whether a recovery journal read from disk is one this tool may act on: the
//! checks on what it records, once the program has gathered what the file system
//! says of its paths.
use vstd::prelude::*;
use crate::binding::{contains_string, opt_string_view, seq_contains_str};
use crate::config::strings_of;
use crate::recovery::{JOURNAL_VERSION, journal_name_valid, replaceable_name, reserved_prefix, staged_name_valid, valid_checksum,
    well_formed_checksum};
use crate::text::{has_prefix, has_suffix, str_equal};

verus! {

/// A path recorded in a journal and what its checks read of it. `key` is the path
/// in normal form: two keys are equal exactly when the paths are.
pub struct JournalPath {
    pub key: String,
    pub absolute: bool,
    /// The key of the parent directory.
    pub parent: Option<String>,
    /// The last component.
    pub name: Option<String>,
}

pub struct JournalPathView {
    pub key: Seq<char>,
    pub absolute: bool,
    pub parent: Option<Seq<char>>,
    pub name: Option<Seq<char>>,
}

impl JournalPath {
    pub open spec fn view(&self) -> JournalPathView {
        JournalPathView { key: self.key@, absolute: self.absolute, parent: opt_string_view(self.parent), name: opt_string_view(self.name) }
    }
}

/// One replaced config file of a journal.
pub struct JournalEntry {
    pub file: JournalPath,
    pub staged: JournalPath,
    /// The original and the replacement record the same owner and permissions.
    pub same_attributes: bool,
    /// The recorded original state is one the tool may replace.
    pub original_replaceable: bool,
    /// The recorded replacement state is one the tool may replace.
    pub installed_replaceable: bool,
    pub original_sha256: String,
    pub installed_sha256: String,
}

pub struct JournalEntryView {
    pub file: JournalPathView,
    pub staged: JournalPathView,
    pub same_attributes: bool,
    pub original_replaceable: bool,
    pub installed_replaceable: bool,
    pub original_sha256: Seq<char>,
    pub installed_sha256: Seq<char>,
}

impl JournalEntry {
    pub open spec fn view(&self) -> JournalEntryView {
        JournalEntryView {
            file: self.file@,
            staged: self.staged@,
            same_attributes: self.same_attributes,
            original_replaceable: self.original_replaceable,
            installed_replaceable: self.installed_replaceable,
            original_sha256: self.original_sha256@,
            installed_sha256: self.installed_sha256@,
        }
    }
}

/// A source alias: the path named on the command line and the file it stood for.
pub struct SourceAlias {
    pub source_absolute: bool,
    pub expected: JournalPath,
}

pub struct SourceAliasView {
    pub source_absolute: bool,
    pub expected: JournalPathView,
}

impl SourceAlias {
    pub open spec fn view(&self) -> SourceAliasView {
        SourceAliasView { source_absolute: self.source_absolute, expected: self.expected@ }
    }
}

/// One entry of a recorded directory listing: whether its name is a bare file
/// name, and the file it names.
pub struct ListedFile {
    pub bare_name: bool,
    pub target: JournalPath,
}

pub struct ListedFileView {
    pub bare_name: bool,
    pub target: JournalPathView,
}

impl ListedFile {
    pub open spec fn view(&self) -> ListedFileView {
        ListedFileView { bare_name: self.bare_name, target: self.target@ }
    }
}

/// A recorded server config directory listing.
pub struct Listing {
    pub directory: String,
    pub files: Vec<ListedFile>,
}

pub struct ListingView {
    pub directory: Seq<char>,
    pub files: Seq<ListedFileView>,
}

impl Listing {
    pub open spec fn view(&self) -> ListingView {
        ListingView { directory: self.directory@, files: self.files@.map_values(|f: ListedFile| f@) }
    }
}

/// What a journal records, with what the file system says of its directories.
pub struct JournalRecord {
    pub version: u32,
    /// The journal was written on this platform.
    pub platform_matches: bool,
    /// The journal directory's name.
    pub name: Option<String>,
    /// The key of the directory holding the journal.
    pub parent: Option<String>,
    /// The keys of the locked directories.
    pub directories: Vec<String>,
    /// For each locked directory: whether it is an absolute path to a directory that
    /// is its own canonical form, or `None` when it could not be resolved.
    pub directory_checks: Vec<Option<bool>>,
    pub entries: Vec<JournalEntry>,
    pub sources: Vec<SourceAlias>,
    pub listings: Vec<Listing>,
    /// Files recorded as read and left unchanged.
    pub unchanged: Vec<JournalPath>,
}

pub struct JournalRecordView {
    pub version: u32,
    pub platform_matches: bool,
    pub name: Option<Seq<char>>,
    pub parent: Option<Seq<char>>,
    pub directories: Seq<Seq<char>>,
    pub directory_checks: Seq<Option<bool>>,
    pub entries: Seq<JournalEntryView>,
    pub sources: Seq<SourceAliasView>,
    pub listings: Seq<ListingView>,
    pub unchanged: Seq<JournalPathView>,
}

impl JournalRecord {
    pub open spec fn view(&self) -> JournalRecordView {
        JournalRecordView {
            version: self.version,
            platform_matches: self.platform_matches,
            name: opt_string_view(self.name),
            parent: opt_string_view(self.parent),
            directories: strings_of(self.directories@),
            directory_checks: self.directory_checks@,
            entries: self.entries@.map_values(|e: JournalEntry| e@),
            sources: self.sources@.map_values(|s: SourceAlias| s@),
            listings: self.listings@.map_values(|l: Listing| l@),
            unchanged: self.unchanged@.map_values(|p: JournalPath| p@),
        }
    }
}

/// Why a journal is refused; the numbers are positions in the record.
#[derive(Clone, Copy, Debug, PartialEq, Eq, Structural)]
pub enum JournalFault {
    UnsupportedVersion,
    OtherPlatform,
    NotTransactionDirectory,
    Empty,
    ParentOutsideLockSet,
    DirectoryChanged(usize),
    DirectoryUnresolved(usize),
    InvalidTarget(usize),
    TargetWithoutName(usize),
    ReservedTargetName(usize),
    InvalidStaged(usize),
    ChangesAttributes(usize),
    OriginalNotReplaceable(usize),
    InstalledNotReplaceable(usize),
    InvalidChecksum(usize),
    InvalidSourceAlias(usize),
    ListingOutsideLockSet(usize),
    InvalidListing(usize, usize),
    InvalidUnchanged(usize),
}

pub open spec fn inside(dirs: Seq<Seq<char>>, p: Option<Seq<char>>) -> bool {
    p matches Some(q) && seq_contains_str(dirs, q)
}

/// A path the journal may name beside its targets: absolute, and a locked
/// directory or a file directly inside one.
pub open spec fn in_scope(dirs: Seq<Seq<char>>, p: JournalPathView) -> bool {
    p.absolute && (seq_contains_str(dirs, p.key) || inside(dirs, p.parent))
}

pub open spec fn directory_fault(checks: Seq<Option<bool>>, i: nat) -> Option<JournalFault>
    decreases checks.len() - i,
{
    if i >= checks.len() {
        None
    } else {
        match checks[i as int] {
            Some(true) => directory_fault(checks, i + 1),
            Some(false) => Some(JournalFault::DirectoryChanged(i as usize)),
            None => Some(JournalFault::DirectoryUnresolved(i as usize)),
        }
    }
}

/// The checks of entry `i`, given the targets of the entries before it.
pub open spec fn entry_fault(dirs: Seq<Seq<char>>, e: JournalEntryView, i: nat, seen: Seq<Seq<char>>) -> Option<JournalFault> {
    if !(e.file.absolute && inside(dirs, e.file.parent) && !seq_contains_str(seen, e.file.key)) {
        Some(JournalFault::InvalidTarget(i as usize))
    } else if e.file.name is None {
        Some(JournalFault::TargetWithoutName(i as usize))
    } else if has_prefix(e.file.name->0, reserved_prefix()) {
        Some(JournalFault::ReservedTargetName(i as usize))
    } else if !(e.staged.parent == e.file.parent
        && (e.staged.name matches Some(n) && has_prefix(n, ".sb-rotate-"@) && has_suffix(n, ".tmp"@))) {
        Some(JournalFault::InvalidStaged(i as usize))
    } else if !e.same_attributes {
        Some(JournalFault::ChangesAttributes(i as usize))
    } else if !e.original_replaceable {
        Some(JournalFault::OriginalNotReplaceable(i as usize))
    } else if !e.installed_replaceable {
        Some(JournalFault::InstalledNotReplaceable(i as usize))
    } else if !(well_formed_checksum(e.original_sha256) && well_formed_checksum(e.installed_sha256)) {
        Some(JournalFault::InvalidChecksum(i as usize))
    } else {
        None
    }
}

pub open spec fn target_keys(es: Seq<JournalEntryView>) -> Seq<Seq<char>> {
    es.map_values(|e: JournalEntryView| e.file.key)
}

pub open spec fn path_keys(ps: Seq<JournalPathView>) -> Seq<Seq<char>> {
    ps.map_values(|p: JournalPathView| p.key)
}

pub open spec fn entries_fault(dirs: Seq<Seq<char>>, es: Seq<JournalEntryView>, i: nat) -> Option<JournalFault>
    decreases es.len() - i,
{
    if i >= es.len() {
        None
    } else {
        match entry_fault(dirs, es[i as int], i, target_keys(es).take(i as int)) {
            Some(f) => Some(f),
            None => entries_fault(dirs, es, i + 1),
        }
    }
}

pub open spec fn sources_fault(dirs: Seq<Seq<char>>, ss: Seq<SourceAliasView>, i: nat) -> Option<JournalFault>
    decreases ss.len() - i,
{
    if i >= ss.len() {
        None
    } else if !(ss[i as int].source_absolute && in_scope(dirs, ss[i as int].expected)) {
        Some(JournalFault::InvalidSourceAlias(i as usize))
    } else {
        sources_fault(dirs, ss, i + 1)
    }
}

pub open spec fn listed_fault(dirs: Seq<Seq<char>>, fs: Seq<ListedFileView>, v: nat, i: nat) -> Option<JournalFault>
    decreases fs.len() - i,
{
    if i >= fs.len() {
        None
    } else if !(fs[i as int].bare_name && in_scope(dirs, fs[i as int].target)) {
        Some(JournalFault::InvalidListing(v as usize, i as usize))
    } else {
        listed_fault(dirs, fs, v, i + 1)
    }
}

pub open spec fn listings_fault(dirs: Seq<Seq<char>>, ls: Seq<ListingView>, v: nat) -> Option<JournalFault>
    decreases ls.len() - v,
{
    if v >= ls.len() {
        None
    } else if !seq_contains_str(dirs, ls[v as int].directory) {
        Some(JournalFault::ListingOutsideLockSet(v as usize))
    } else {
        match listed_fault(dirs, ls[v as int].files, v, 0) {
            Some(f) => Some(f),
            None => listings_fault(dirs, ls, v + 1),
        }
    }
}

/// An unchanged file is in scope and named nowhere else in the journal.
pub open spec fn unchanged_fault(dirs: Seq<Seq<char>>, targets: Seq<Seq<char>>, us: Seq<JournalPathView>, i: nat) -> Option<JournalFault>
    decreases us.len() - i,
{
    if i >= us.len() {
        None
    } else if !(in_scope(dirs, us[i as int]) && !seq_contains_str(targets + path_keys(us).take(i as int), us[i as int].key)) {
        Some(JournalFault::InvalidUnchanged(i as usize))
    } else {
        unchanged_fault(dirs, targets, us, i + 1)
    }
}

/// The first check a journal fails, in the order they are made.
pub open spec fn journal_fault(j: JournalRecordView) -> Option<JournalFault> {
    if j.version != JOURNAL_VERSION {
        Some(JournalFault::UnsupportedVersion)
    } else if !j.platform_matches {
        Some(JournalFault::OtherPlatform)
    } else if !(j.name matches Some(n) && has_prefix(n, ".sb-rotate-transaction-"@)) {
        Some(JournalFault::NotTransactionDirectory)
    } else if j.entries.len() == 0 {
        Some(JournalFault::Empty)
    } else if !inside(j.directories, j.parent) {
        Some(JournalFault::ParentOutsideLockSet)
    } else if directory_fault(j.directory_checks, 0) is Some {
        directory_fault(j.directory_checks, 0)
    } else if entries_fault(j.directories, j.entries, 0) is Some {
        entries_fault(j.directories, j.entries, 0)
    } else if sources_fault(j.directories, j.sources, 0) is Some {
        sources_fault(j.directories, j.sources, 0)
    } else if listings_fault(j.directories, j.listings, 0) is Some {
        listings_fault(j.directories, j.listings, 0)
    } else {
        unchanged_fault(j.directories, target_keys(j.entries), j.unchanged, 0)
    }
}

fn inside_exec(dirs: &Vec<String>, p: &Option<String>) -> (r: bool)
    ensures
        r == inside(strings_of(dirs@), opt_string_view(*p)),
{
    match p {
        Some(q) => contains_string(dirs, q.as_str()),
        None => false,
    }
}

fn in_scope_exec(dirs: &Vec<String>, p: &JournalPath) -> (r: bool)
    ensures
        r == in_scope(strings_of(dirs@), p@),
{
    p.absolute && (contains_string(dirs, p.key.as_str()) || inside_exec(dirs, &p.parent))
}

fn same_option(a: &Option<String>, b: &Option<String>) -> (r: bool)
    ensures
        r == (opt_string_view(*a) == opt_string_view(*b)),
{
    match (a, b) {
        (Some(x), Some(y)) => str_equal(x.as_str(), y.as_str()),
        (None, None) => true,
        _ => false,
    }
}

fn check_entry(dirs: &Vec<String>, e: &JournalEntry, i: usize, seen: &Vec<String>) -> (r: Option<JournalFault>)
    ensures
        r == entry_fault(strings_of(dirs@), e@, i as nat, strings_of(seen@)),
{
    if !(e.file.absolute && inside_exec(dirs, &e.file.parent) && !contains_string(seen, e.file.key.as_str())) {
        return Some(JournalFault::InvalidTarget(i));
    }
    let name = match &e.file.name {
        Some(n) => n,
        None => {
            return Some(JournalFault::TargetWithoutName(i));
        },
    };
    if !replaceable_name(name.as_str()) {
        return Some(JournalFault::ReservedTargetName(i));
    }
    let staged_ok = match &e.staged.name {
        Some(n) => staged_name_valid(n.as_str()),
        None => false,
    };
    if !(same_option(&e.staged.parent, &e.file.parent) && staged_ok) {
        return Some(JournalFault::InvalidStaged(i));
    }
    if !e.same_attributes {
        return Some(JournalFault::ChangesAttributes(i));
    }
    if !e.original_replaceable {
        return Some(JournalFault::OriginalNotReplaceable(i));
    }
    if !e.installed_replaceable {
        return Some(JournalFault::InstalledNotReplaceable(i));
    }
    if !(valid_checksum(e.original_sha256.as_str()) && valid_checksum(e.installed_sha256.as_str())) {
        return Some(JournalFault::InvalidChecksum(i));
    }
    None
}

fn check_directories(checks: &Vec<Option<bool>>) -> (r: Option<JournalFault>)
    ensures
        r == directory_fault(checks@, 0),
{
    let mut i: usize = 0;
    while i < checks.len()
        invariant
            i <= checks@.len(),
            directory_fault(checks@, 0) == directory_fault(checks@, i as nat),
        decreases checks@.len() - i,
    {
        match checks[i] {
            Some(true) => {},
            Some(false) => {
                return Some(JournalFault::DirectoryChanged(i));
            },
            None => {
                return Some(JournalFault::DirectoryUnresolved(i));
            },
        }
        i = i + 1;
    }
    None
}

/// Checks the entries, leaving their targets in `seen`.
fn check_entries(dirs: &Vec<String>, entries: &Vec<JournalEntry>, seen: &mut Vec<String>) -> (r: Option<JournalFault>)
    requires
        old(seen)@.len() == 0,
    ensures
        r == entries_fault(strings_of(dirs@), entries@.map_values(|e: JournalEntry| e@), 0),
        r is None ==> strings_of(final(seen)@) == target_keys(entries@.map_values(|e: JournalEntry| e@)),
{
    let ghost es = entries@.map_values(|e: JournalEntry| e@);
    let ghost ds = strings_of(dirs@);
    let mut i: usize = 0;
    assert(strings_of(seen@) =~= target_keys(es).take(0));
    while i < entries.len()
        invariant
            es == entries@.map_values(|e: JournalEntry| e@),
            ds == strings_of(dirs@),
            i <= entries@.len(),
            strings_of(seen@) == target_keys(es).take(i as int),
            entries_fault(ds, es, 0) == entries_fault(ds, es, i as nat),
        decreases entries@.len() - i,
    {
        assert(es[i as int] == entries@[i as int]@);
        match check_entry(dirs, &entries[i], i, seen) {
            Some(f) => {
                return Some(f);
            },
            None => {},
        }
        let ghost before = strings_of(seen@);
        seen.push(entries[i].file.key.clone());
        assert(strings_of(seen@) =~= before.push(es[i as int].file.key));
        assert(target_keys(es).take(i + 1) =~= target_keys(es).take(i as int).push(es[i as int].file.key));
        i = i + 1;
    }
    assert(target_keys(es).take(i as int) =~= target_keys(es));
    None
}

fn check_sources(dirs: &Vec<String>, sources: &Vec<SourceAlias>) -> (r: Option<JournalFault>)
    ensures
        r == sources_fault(strings_of(dirs@), sources@.map_values(|s: SourceAlias| s@), 0),
{
    let ghost ss = sources@.map_values(|s: SourceAlias| s@);
    let ghost ds = strings_of(dirs@);
    let mut i: usize = 0;
    while i < sources.len()
        invariant
            ss == sources@.map_values(|s: SourceAlias| s@),
            ds == strings_of(dirs@),
            i <= sources@.len(),
            sources_fault(ds, ss, 0) == sources_fault(ds, ss, i as nat),
        decreases sources@.len() - i,
    {
        assert(ss[i as int] == sources@[i as int]@);
        if !(sources[i].source_absolute && in_scope_exec(dirs, &sources[i].expected)) {
            return Some(JournalFault::InvalidSourceAlias(i));
        }
        i = i + 1;
    }
    None
}

fn check_listing(dirs: &Vec<String>, listing: &Listing, v: usize) -> (r: Option<JournalFault>)
    ensures
        r == (if !seq_contains_str(strings_of(dirs@), listing@.directory) {
            Some(JournalFault::ListingOutsideLockSet(v))
        } else {
            listed_fault(strings_of(dirs@), listing@.files, v as nat, 0)
        }),
{
    if !contains_string(dirs, listing.directory.as_str()) {
        return Some(JournalFault::ListingOutsideLockSet(v));
    }
    let ghost fs = listing@.files;
    let ghost ds = strings_of(dirs@);
    let mut i: usize = 0;
    while i < listing.files.len()
        invariant
            fs == listing@.files,
            ds == strings_of(dirs@),
            seq_contains_str(ds, listing@.directory),
            i <= listing.files@.len(),
            listed_fault(ds, fs, v as nat, 0) == listed_fault(ds, fs, v as nat, i as nat),
        decreases listing.files@.len() - i,
    {
        assert(fs[i as int] == listing.files@[i as int]@);
        if !(listing.files[i].bare_name && in_scope_exec(dirs, &listing.files[i].target)) {
            return Some(JournalFault::InvalidListing(v, i));
        }
        i = i + 1;
    }
    None
}

fn check_listings(dirs: &Vec<String>, listings: &Vec<Listing>) -> (r: Option<JournalFault>)
    ensures
        r == listings_fault(strings_of(dirs@), listings@.map_values(|l: Listing| l@), 0),
{
    let ghost ls = listings@.map_values(|l: Listing| l@);
    let ghost ds = strings_of(dirs@);
    let mut v: usize = 0;
    while v < listings.len()
        invariant
            ls == listings@.map_values(|l: Listing| l@),
            ds == strings_of(dirs@),
            v <= listings@.len(),
            listings_fault(ds, ls, 0) == listings_fault(ds, ls, v as nat),
        decreases listings@.len() - v,
    {
        assert(ls[v as int] == listings@[v as int]@);
        match check_listing(dirs, &listings[v], v) {
            Some(f) => {
                return Some(f);
            },
            None => {},
        }
        v = v + 1;
    }
    None
}

fn check_unchanged(dirs: &Vec<String>, unchanged: &Vec<JournalPath>, seen: &mut Vec<String>) -> (r: Option<JournalFault>)
    ensures
        r == unchanged_fault(strings_of(dirs@), strings_of(old(seen)@), unchanged@.map_values(|p: JournalPath| p@), 0),
{
    let ghost us = unchanged@.map_values(|p: JournalPath| p@);
    let ghost ds = strings_of(dirs@);
    let ghost targets = strings_of(seen@);
    let mut i: usize = 0;
    assert(strings_of(seen@) =~= targets + path_keys(us).take(0));
    while i < unchanged.len()
        invariant
            us == unchanged@.map_values(|p: JournalPath| p@),
            ds == strings_of(dirs@),
            targets == strings_of(old(seen)@),
            i <= unchanged@.len(),
            strings_of(seen@) == targets + path_keys(us).take(i as int),
            unchanged_fault(ds, targets, us, 0) == unchanged_fault(ds, targets, us, i as nat),
        decreases unchanged@.len() - i,
    {
        assert(us[i as int] == unchanged@[i as int]@);
        if !(in_scope_exec(dirs, &unchanged[i]) && !contains_string(seen, unchanged[i].key.as_str())) {
            return Some(JournalFault::InvalidUnchanged(i));
        }
        let ghost before = strings_of(seen@);
        seen.push(unchanged[i].key.clone());
        assert(strings_of(seen@) =~= before.push(us[i as int].key));
        assert(path_keys(us).take(i + 1) =~= path_keys(us).take(i as int).push(us[i as int].key));
        assert(targets + path_keys(us).take(i + 1) =~= (targets + path_keys(us).take(i as int)).push(us[i as int].key));
        i = i + 1;
    }
    None
}

/// Checks a journal read from disk, reporting the first check it fails.
pub fn check_journal(j: &JournalRecord) -> (r: Result<(), JournalFault>)
    ensures
        match r {
            Ok(()) => journal_fault(j@) is None,
            Err(f) => journal_fault(j@) == Some(f),
        },
{
    if j.version != JOURNAL_VERSION {
        return Err(JournalFault::UnsupportedVersion);
    }
    if !j.platform_matches {
        return Err(JournalFault::OtherPlatform);
    }
    let named = match &j.name {
        Some(n) => journal_name_valid(n.as_str()),
        None => false,
    };
    if !named {
        return Err(JournalFault::NotTransactionDirectory);
    }
    if j.entries.len() == 0 {
        return Err(JournalFault::Empty);
    }
    if !inside_exec(&j.directories, &j.parent) {
        return Err(JournalFault::ParentOutsideLockSet);
    }
    if let Some(f) = check_directories(&j.directory_checks) {
        return Err(f);
    }
    let mut seen: Vec<String> = Vec::new();
    if let Some(f) = check_entries(&j.directories, &j.entries, &mut seen) {
        return Err(f);
    }
    if let Some(f) = check_sources(&j.directories, &j.sources) {
        return Err(f);
    }
    if let Some(f) = check_listings(&j.directories, &j.listings) {
        return Err(f);
    }
    match check_unchanged(&j.directories, &j.unchanged, &mut seen) {
        Some(f) => Err(f),
        None => Ok(()),
    }
}

} // verus!
