//! The loaded server config set and client configs.
use vstd::prelude::*;
use crate::error::{Error, ErrorKind};
use crate::json::{Json, JsonView, lookup_pointer, parse_json, parsed_json};
use crate::text::{append_str, str_equal};

verus! {

/// One loaded JSON config file.
pub struct Document {
    pub path: String,
    pub value: Json,
    /// The bytes the file held when it was read.
    pub original: Vec<u8>,
}

pub struct DocView {
    pub path: Seq<char>,
    pub value: JsonView,
}

impl Document {
    pub open spec fn view(&self) -> DocView {
        DocView { path: self.path@, value: self.value@ }
    }
}

pub open spec fn docs_view(ds: Seq<Document>) -> Seq<DocView> {
    ds.map_values(|d: Document| d@)
}

/// The position of the first element of `s` satisfying `f`, searching from `i`.
pub open spec fn first_match<A>(s: Seq<A>, f: spec_fn(A) -> bool, i: int) -> Option<int>
    decreases s.len() - i,
{
    if i < 0 || i >= s.len() {
        None
    } else if f(s[i]) {
        Some(i)
    } else {
        first_match(s, f, i + 1)
    }
}

pub proof fn lemma_first_match_skip<A>(s: Seq<A>, f: spec_fn(A) -> bool, i: int)
    requires
        0 <= i <= s.len(),
        forall|k: int| 0 <= k < i ==> !f(#[trigger] s[k]),
    ensures
        first_match(s, f, 0) == first_match(s, f, i),
    decreases i,
{
    if i > 0 {
        lemma_first_match_skip(s, f, i - 1);
    }
}

pub proof fn lemma_first_match_props<A>(s: Seq<A>, f: spec_fn(A) -> bool, i: int)
    requires
        0 <= i,
    ensures
        first_match(s, f, i) matches Some(p) ==> i <= p < s.len() && f(s[p])
            && forall|k: int| i <= k < p ==> !f(#[trigger] s[k]),
        first_match(s, f, i) is None ==> forall|k: int| i <= k < s.len() ==> !f(#[trigger] s[k]),
    decreases s.len() - i,
{
    if i < s.len() && !f(s[i]) {
        lemma_first_match_props(s, f, i + 1);
    }
}

/// The value of the first document stored at `path`.
pub open spec fn find_doc(docs: Seq<DocView>, path: Seq<char>) -> Option<JsonView> {
    match first_match(docs, |d: DocView| d.path == path, 0) {
        Some(p) => Some(docs[p].value),
        None => None,
    }
}

/// The supplied server config set and client configs.
pub struct ConfigSet {
    /// The server file, or the server config directory.
    pub server: String,
    pub server_is_directory: bool,
    /// File names inside the server set and the files they name.
    pub server_layout: Vec<(String, String)>,
    /// The server fragments, in the order discovery reads them.
    pub server_documents: Vec<Document>,
    /// The independent client configs, in the order discovery reads them.
    pub client_documents: Vec<Document>,
    /// Client files named explicitly; when any is named, only those are selected.
    pub selected_clients: Vec<String>,
}

pub open spec fn strings_of(v: Seq<String>) -> Seq<Seq<char>> {
    v.map_values(|s: String| s@)
}

impl ConfigSet {
    pub open spec fn server_docs(&self) -> Seq<DocView> {
        docs_view(self.server_documents@)
    }

    pub open spec fn client_docs(&self) -> Seq<DocView> {
        docs_view(self.client_documents@)
    }

    pub open spec fn all_docs(&self) -> Seq<DocView> {
        self.server_docs() + self.client_docs()
    }

    pub open spec fn selected(&self) -> Seq<Seq<char>> {
        strings_of(self.selected_clients@)
    }

    /// The value at `pointer` inside `file`.
    pub open spec fn spec_value(&self, file: Seq<char>, pointer: Seq<char>) -> Option<JsonView> {
        match find_doc(self.all_docs(), file) {
            Some(doc) => lookup_pointer(doc, pointer),
            None => None,
        }
    }

    /// The loaded document stored at `file`.
    pub fn document<'a>(&'a self, file: &str) -> (r: Option<&'a Json>)
        ensures
            match r {
                Some(v) => find_doc(self.all_docs(), file@) == Some(v@),
                None => find_doc(self.all_docs(), file@) is None,
            },
    {
        let ghost docs = self.all_docs();
        let ghost f = |d: DocView| d.path == file@;
        let ns = self.server_documents.len();
        let mut i: usize = 0;
        while i < ns
            invariant
                docs == self.all_docs(),
                f == (|d: DocView| d.path == file@),
                ns == self.server_documents@.len(),
                i <= ns,
                forall|k: int| 0 <= k < i ==> !f(#[trigger] docs[k]),
            decreases ns - i,
        {
            assert(docs[i as int] == self.server_documents@[i as int]@);
            if str_equal(self.server_documents[i].path.as_str(), file) {
                proof {
                    lemma_first_match_skip(docs, f, i as int);
                }
                return Some(&self.server_documents[i].value);
            }
            i = i + 1;
        }
        let nc = self.client_documents.len();
        let mut j: usize = 0;
        while j < nc
            invariant
                docs == self.all_docs(),
                f == (|d: DocView| d.path == file@),
                ns == self.server_documents@.len(),
                nc == self.client_documents@.len(),
                docs.len() == ns + nc,
                j <= nc,
                forall|k: int| 0 <= k < ns + j ==> !f(#[trigger] docs[k]),
            decreases nc - j,
        {
            assert(docs[ns + j] == self.client_documents@[j as int]@);
            if str_equal(self.client_documents[j].path.as_str(), file) {
                proof {
                    lemma_first_match_skip(docs, f, ns + j);
                }
                return Some(&self.client_documents[j].value);
            }
            j = j + 1;
        }
        proof {
            lemma_first_match_skip(docs, f, docs.len() as int);
        }
        None
    }

    /// The value at `pointer` inside `file`.
    pub fn value<'a>(&'a self, file: &str, pointer: &str) -> (r: Result<&'a Json, Error>)
        ensures
            match r {
                Ok(v) => self.spec_value(file@, pointer@) == Some(v@),
                Err(e) => self.spec_value(file@, pointer@) is None && e.kind == ErrorKind::MissingLocation
                    && e.context@ == file@ + "#"@ + pointer@,
            },
    {
        let found = match self.document(file) {
            Some(doc) => doc.pointer(pointer),
            None => None,
        };
        match found {
            Some(v) => Ok(v),
            None => {
                let mut context = file.to_string();
                append_str(&mut context, "#");
                append_str(&mut context, pointer);
                Err(Error::new(ErrorKind::MissingLocation, context))
            },
        }
    }
}

/// Some two entries of `s` are equal.
pub open spec fn has_repeats(s: Seq<Seq<char>>) -> bool {
    exists|i: int, j: int| 0 <= i < j < s.len() && #[trigger] s[i] == #[trigger] s[j]
}

/// Some entry of `a` is also in `b`.
pub open spec fn overlap(a: Seq<Seq<char>>, b: Seq<Seq<char>>) -> bool {
    exists|i: int, j: int| 0 <= i < a.len() && 0 <= j < b.len() && #[trigger] a[i] == #[trigger] b[j]
}

pub open spec fn paths_of(docs: Seq<DocView>) -> Seq<Seq<char>> {
    docs.map_values(|d: DocView| d.path)
}

pub open spec fn targets_of(layout: Seq<(String, String)>) -> Seq<Seq<char>> {
    layout.map_values(|e: (String, String)| e.1@)
}

/// Why a config set cannot be assembled, if it cannot: two server entries that
/// name one file, no server file, no client file, a file in both roles, or a
/// config that is not a JSON object.
pub open spec fn assembly_error(layout: Seq<Seq<char>>, server_docs: Seq<DocView>, client_docs: Seq<DocView>) -> Option<ErrorKind> {
    if has_repeats(layout) {
        Some(ErrorKind::AliasedServerFiles)
    } else if layout.len() == 0 {
        Some(ErrorKind::NoServerFiles)
    } else if client_docs.len() == 0 {
        Some(ErrorKind::NoClientFiles)
    } else if overlap(paths_of(server_docs), paths_of(client_docs)) {
        Some(ErrorKind::ServerAndClientFile)
    } else if exists|i: int| 0 <= i < (server_docs + client_docs).len() && !((server_docs + client_docs)[i].value is Object) {
        Some(ErrorKind::NotAnObject)
    } else {
        None
    }
}

fn repeats(s: &Vec<String>) -> (r: bool)
    ensures
        r == has_repeats(strings_of(s@)),
{
    let ghost v = strings_of(s@);
    let mut i: usize = 0;
    while i < s.len()
        invariant
            v == strings_of(s@),
            i <= s@.len(),
            forall|a: int, b: int| 0 <= a < b < s@.len() && a < i ==> #[trigger] v[a] != #[trigger] v[b],
        decreases s@.len() - i,
    {
        let mut j: usize = i + 1;
        while j < s.len()
            invariant
                v == strings_of(s@),
                i < s@.len(),
                i + 1 <= j <= s@.len(),
                forall|a: int, b: int| 0 <= a < b < s@.len() && a < i ==> #[trigger] v[a] != #[trigger] v[b],
                forall|b: int| i < b < j ==> v[i as int] != #[trigger] v[b],
            decreases s@.len() - j,
        {
            if str_equal(s[i].as_str(), s[j].as_str()) {
                assert(v[i as int] == v[j as int]);
                return true;
            }
            j = j + 1;
        }
        i = i + 1;
    }
    false
}

fn shared(a: &Vec<String>, b: &Vec<String>) -> (r: bool)
    ensures
        r == overlap(strings_of(a@), strings_of(b@)),
{
    let ghost av = strings_of(a@);
    let ghost bv = strings_of(b@);
    let mut i: usize = 0;
    while i < a.len()
        invariant
            av == strings_of(a@),
            bv == strings_of(b@),
            i <= a@.len(),
            forall|x: int, y: int| 0 <= x < i && 0 <= y < b@.len() ==> #[trigger] av[x] != #[trigger] bv[y],
        decreases a@.len() - i,
    {
        let mut j: usize = 0;
        while j < b.len()
            invariant
                av == strings_of(a@),
                bv == strings_of(b@),
                i < a@.len(),
                j <= b@.len(),
                forall|x: int, y: int| 0 <= x < i && 0 <= y < b@.len() ==> #[trigger] av[x] != #[trigger] bv[y],
                forall|y: int| 0 <= y < j ==> av[i as int] != #[trigger] bv[y],
            decreases b@.len() - j,
        {
            if str_equal(a[i].as_str(), b[j].as_str()) {
                assert(av[i as int] == bv[j as int]);
                return true;
            }
            j = j + 1;
        }
        i = i + 1;
    }
    false
}

fn doc_paths(docs: &Vec<Document>) -> (r: Vec<String>)
    ensures
        strings_of(r@) == paths_of(docs_view(docs@)),
{
    let mut out: Vec<String> = Vec::new();
    let mut i: usize = 0;
    while i < docs.len()
        invariant
            i <= docs@.len(),
            strings_of(out@) == paths_of(docs_view(docs@)).take(i as int),
        decreases docs@.len() - i,
    {
        let ghost before = strings_of(out@);
        let p = docs[i].path.clone();
        out.push(p);
        assert(strings_of(out@) =~= before.push(p@));
        assert(paths_of(docs_view(docs@)).take(i + 1) =~= paths_of(docs_view(docs@)).take(i as int).push(docs@[i as int].path@));
        assert(strings_of(out@) =~= paths_of(docs_view(docs@)).take(i + 1));
        i = i + 1;
    }
    assert(paths_of(docs_view(docs@)).take(i as int) =~= paths_of(docs_view(docs@)));
    out
}

fn all_objects(docs: &Vec<Document>) -> (r: bool)
    ensures
        r == forall|i: int| 0 <= i < docs@.len() ==> (#[trigger] docs@[i]).value@ is Object,
{
    let mut i: usize = 0;
    while i < docs.len()
        invariant
            i <= docs@.len(),
            forall|k: int| 0 <= k < i ==> (#[trigger] docs@[k]).value@ is Object,
        decreases docs@.len() - i,
    {
        match &docs[i].value {
            Json::Object(_) => {},
            _ => {
                return false;
            },
        }
        i = i + 1;
    }
    true
}

/// Why the roles of the supplied files are refused, if they are: two server
/// entries that name one file, no server file, no client file, or a file in both
/// roles.
pub open spec fn role_error(targets: Seq<Seq<char>>, clients: Seq<Seq<char>>) -> Option<ErrorKind> {
    if has_repeats(targets) {
        Some(ErrorKind::AliasedServerFiles)
    } else if targets.len() == 0 {
        Some(ErrorKind::NoServerFiles)
    } else if clients.len() == 0 {
        Some(ErrorKind::NoClientFiles)
    } else if overlap(targets, clients) {
        Some(ErrorKind::ServerAndClientFile)
    } else {
        None
    }
}

fn layout_targets(server_layout: &Vec<(String, String)>) -> (r: Vec<String>)
    ensures
        strings_of(r@) == targets_of(server_layout@),
{
    let mut targets: Vec<String> = Vec::new();
    let mut i: usize = 0;
    while i < server_layout.len()
        invariant
            i <= server_layout@.len(),
            strings_of(targets@) == targets_of(server_layout@).take(i as int),
        decreases server_layout@.len() - i,
    {
        let ghost before = strings_of(targets@);
        let t = server_layout[i].1.clone();
        targets.push(t);
        assert(strings_of(targets@) =~= before.push(t@));
        assert(targets_of(server_layout@).take(i + 1) =~= targets_of(server_layout@).take(i as int).push(server_layout@[i as int].1@));
        i = i + 1;
    }
    assert(targets_of(server_layout@).take(i as int) =~= targets_of(server_layout@));
    targets
}

/// The checks on the server set alone, made before the client files are looked
/// up: no two entries name one file, and there is a file.
pub fn check_server_layout(server_layout: &Vec<(String, String)>) -> (r: Result<(), Error>)
    ensures
        match r {
            Ok(()) => !has_repeats(targets_of(server_layout@)) && targets_of(server_layout@).len() > 0,
            Err(e) => (has_repeats(targets_of(server_layout@)) && e.kind == ErrorKind::AliasedServerFiles)
                || (!has_repeats(targets_of(server_layout@)) && targets_of(server_layout@).len() == 0
                    && e.kind == ErrorKind::NoServerFiles),
        },
{
    let targets = layout_targets(server_layout);
    if repeats(&targets) {
        return Err(Error::plain(ErrorKind::AliasedServerFiles));
    }
    if targets.len() == 0 {
        return Err(Error::plain(ErrorKind::NoServerFiles));
    }
    Ok(())
}

/// The roles of the supplied files, checked before any is read.
pub fn check_roles(server_layout: &Vec<(String, String)>, client_files: &Vec<String>) -> (r: Result<(), Error>)
    ensures
        match r {
            Ok(()) => role_error(targets_of(server_layout@), strings_of(client_files@)) is None,
            Err(e) => role_error(targets_of(server_layout@), strings_of(client_files@)) == Some(e.kind),
        },
{
    check_server_layout(server_layout)?;
    let targets = layout_targets(server_layout);
    if client_files.len() == 0 {
        return Err(Error::plain(ErrorKind::NoClientFiles));
    }
    if shared(&targets, client_files) {
        return Err(Error::plain(ErrorKind::ServerAndClientFile));
    }
    Ok(())
}

/// A config file from the bytes it was read from: its JSON text, which must hold
/// an object. A refusal names the file.
pub fn load_document(path: String, original: Vec<u8>) -> (r: Result<Document, Error>)
    ensures
        match r {
            Ok(d) => parsed_json(original@) == Some(d.value@) && d.value@ is Object && d.path@ == path@ && d.original@ == original@,
            Err(e) => e.context@ == path@ && match parsed_json(original@) {
                None => e.kind == ErrorKind::InvalidJson,
                Some(v) => !(v is Object) && e.kind == ErrorKind::NotAnObject,
            },
        },
{
    let value = match parse_json(original.as_slice()) {
        Some(v) => v,
        None => {
            return Err(Error::new(ErrorKind::InvalidJson, path));
        },
    };
    match &value {
        Json::Object(_) => {},
        _ => {
            return Err(Error::new(ErrorKind::NotAnObject, path));
        },
    }
    Ok(Document { path, value, original })
}

impl ConfigSet {
    /// A config set from the server layout (entry name and the file it names), the
    /// loaded server fragments and client configs, and the explicitly selected client
    /// files. The documents are kept as given, each with the bytes it was read from.
    pub fn assemble(server: String, server_is_directory: bool, server_layout: Vec<(String, String)>, server_documents: Vec<Document>,
        client_documents: Vec<Document>, selected_clients: Vec<String>) -> (r: Result<ConfigSet, Error>)
        ensures
            match r {
                Ok(c) => assembly_error(targets_of(server_layout@), docs_view(server_documents@), docs_view(client_documents@)) is None
                    && c.server@ == server@ && c.server_is_directory == server_is_directory
                    && c.server_layout@ == server_layout@
                    && c.server_docs() == docs_view(server_documents@)
                    && c.client_docs() == docs_view(client_documents@)
                    && c.server_documents@ == server_documents@
                    && c.client_documents@ == client_documents@
                    && c.selected() == strings_of(selected_clients@),
                Err(e) => assembly_error(targets_of(server_layout@), docs_view(server_documents@), docs_view(client_documents@))
                    == Some(e.kind),
            },
    {
        let mut targets: Vec<String> = Vec::new();
        let mut i: usize = 0;
        while i < server_layout.len()
            invariant
                i <= server_layout@.len(),
                strings_of(targets@) == targets_of(server_layout@).take(i as int),
            decreases server_layout@.len() - i,
        {
            let ghost before = strings_of(targets@);
            let t = server_layout[i].1.clone();
            targets.push(t);
            assert(strings_of(targets@) =~= before.push(t@));
            assert(targets_of(server_layout@).take(i + 1) =~= targets_of(server_layout@).take(i as int).push(server_layout@[i as int].1@));
            assert(strings_of(targets@) =~= targets_of(server_layout@).take(i + 1));
            i = i + 1;
        }
        assert(targets_of(server_layout@).take(i as int) =~= targets_of(server_layout@));
        if repeats(&targets) {
            return Err(Error::plain(ErrorKind::AliasedServerFiles));
        }
        if server_layout.len() == 0 {
            return Err(Error::plain(ErrorKind::NoServerFiles));
        }
        if client_documents.len() == 0 {
            return Err(Error::plain(ErrorKind::NoClientFiles));
        }
        let server_paths = doc_paths(&server_documents);
        let client_paths = doc_paths(&client_documents);
        if shared(&server_paths, &client_paths) {
            return Err(Error::plain(ErrorKind::ServerAndClientFile));
        }
        let ghost all = docs_view(server_documents@) + docs_view(client_documents@);
        let servers_ok = all_objects(&server_documents);
        let clients_ok = all_objects(&client_documents);
        proof {
            let ns = server_documents@.len() as int;
            if !servers_ok {
                let k = choose|k: int| 0 <= k < ns && !(server_documents@[k].value@ is Object);
                assert(all[k] == server_documents@[k]@);
            }
            if !clients_ok {
                let k = choose|k: int| 0 <= k < client_documents@.len() && !(client_documents@[k].value@ is Object);
                assert(all[ns + k] == client_documents@[k]@);
            }
            if servers_ok && clients_ok {
                assert forall|k: int| 0 <= k < all.len() implies all[k].value is Object by {
                    if k < ns {
                        assert(all[k] == server_documents@[k]@);
                    } else {
                        assert(all[k] == client_documents@[k - ns]@);
                    }
                }
            }
        }
        if !servers_ok || !clients_ok {
            return Err(Error::plain(ErrorKind::NotAnObject));
        }
        Ok(ConfigSet { server, server_is_directory, server_layout, server_documents, client_documents, selected_clients })
    }
}

} // verus!
