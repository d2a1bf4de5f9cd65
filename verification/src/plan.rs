//! Rotation plans: protocol-independent lists of edits that must succeed together.
use vstd::prelude::*;
use crate::binding::{ConfigRef, ConfigRefView, IdentityBinding, IdentityView, Inventory, InventoryView, ServiceBinding, ServiceView,
    contains_string, field_ref, has_ambiguity, seq_contains_str};
use crate::cli::{IdentityKind, Input, PropertyKind, Protocol, RotationKind, rotation_of_identity};
use crate::protocol::{any_selected, some_selected_client};
use crate::protocol::hysteria2::{obfs_context, obfs_outcome, obfs_password, obfs_preflight};
use crate::protocol::vless::{keypair, keypair_context, keypair_outcome, keypair_preflight, short_id_context, short_id_preflight, short_ids, short_ids_outcome};
use crate::singbox::{PASSWORD_BYTES, SHORT_ID_BYTES, SingBox, base64_text, generator_failure, hex_text, uuid_parses};
pub use crate::material::{rotation_by_type, rotation_by_type_with};
use crate::text::{append_str, chars_of, ends_with_str, has_suffix, u64_text};
use crate::config::{ConfigSet, DocView, find_doc, first_match, lemma_first_match_props, lemma_first_match_skip, strings_of};
use crate::error::{Error, ErrorKind};
use crate::json::{Json, JsonView, as_text, json_text, pretty_json, edit_target, items_view, lemma_array_view, member_of, option_view, parse_pointer,
    pointer_tokens, set_path, strings_view};

verus! {

/// What a plan does.
#[derive(Clone, Copy, Debug, PartialEq, Eq, Structural)]
pub enum OperationKind {
    Rotate(RotationKind),
    Property(PropertyKind),
    /// A type-driven rotation of the material of one protocol.
    Material(Protocol),
}

/// One edit: the value at `target` goes from `old` to `new`. `None` is an absent
/// object member (distinct from JSON `null`).
pub struct Edit {
    pub target: ConfigRef,
    pub old: Option<Json>,
    pub new: Option<Json>,
}

pub struct EditView {
    pub target: ConfigRefView,
    pub old: Option<JsonView>,
    pub new: Option<JsonView>,
}

impl Edit {
    pub open spec fn view(&self) -> EditView {
        EditView { target: self.target@, old: option_view(self.old), new: option_view(self.new) }
    }
}

pub open spec fn edits_view(v: Seq<Edit>) -> Seq<EditView> {
    v.map_values(|e: Edit| e@)
}

/// A complete list of edits, and lines that describe what they belong to.
pub struct RotationPlan {
    pub operation: OperationKind,
    pub edits: Vec<Edit>,
    pub contexts: Vec<String>,
}

pub fn clone_option_json(o: &Option<Json>) -> (r: Option<Json>)
    ensures
        option_view(r) == option_view(*o),
{
    match o {
        Some(j) => Some(j.duplicate()),
        None => None,
    }
}

pub fn same_option_json(a: &Option<Json>, b: &Option<Json>) -> (r: bool)
    ensures
        r == (option_view(*a) == option_view(*b)),
{
    match (a, b) {
        (Some(x), Some(y)) => x.same(y),
        (None, None) => true,
        _ => false,
    }
}

/// What an edit at `pointer` inside `file` would replace (see `edit_target`).
pub open spec fn config_edit_target(configs: ConfigSet, file: Seq<char>, pointer: Seq<char>) -> Option<Option<JsonView>> {
    match find_doc(configs.all_docs(), file) {
        Some(doc) => match pointer_tokens(pointer) {
            Some(tokens) => edit_target(doc, tokens),
            None => None,
        },
        None => None,
    }
}

/// Adding a requested edit: it records the current value as `old`, and an edit
/// that would not change anything is left out.
pub open spec fn plan_edit(edits: Seq<EditView>, configs: ConfigSet, target: ConfigRefView, new: Option<JsonView>) -> Result<Seq<EditView>, ErrorKind> {
    match config_edit_target(configs, target.file, target.pointer) {
        None => Err(ErrorKind::InvalidEditLocation),
        Some(old) => if old == new {
            Ok(edits)
        } else {
            Ok(edits.push(EditView { target, old, new }))
        },
    }
}

impl ConfigSet {
    /// The current value at an edit location; `Err` when it cannot be edited.
    pub fn edit_target_of<'a>(&'a self, file: &str, pointer: &str) -> (r: Result<Option<&'a Json>, Error>)
        ensures
            match r {
                Ok(Some(v)) => config_edit_target(*self, file@, pointer@) == Some(Some(v@)),
                Ok(None) => config_edit_target(*self, file@, pointer@) == Some(None::<JsonView>),
                Err(e) => config_edit_target(*self, file@, pointer@) is None && e.kind == ErrorKind::InvalidEditLocation,
            },
    {
        let doc = match self.document(file) {
            Some(d) => d,
            None => {
                return Err(Error::plain(ErrorKind::InvalidEditLocation));
            },
        };
        let tokens = match parse_pointer(pointer) {
            Some(t) => t,
            None => {
                return Err(Error::plain(ErrorKind::InvalidEditLocation));
            },
        };
        match doc.edit_target(&tokens) {
            Ok(v) => Ok(v),
            Err(()) => Err(Error::plain(ErrorKind::InvalidEditLocation)),
        }
    }
}

impl RotationPlan {
    pub open spec fn view(&self) -> Seq<EditView> {
        edits_view(self.edits@)
    }

    pub fn new(operation: OperationKind) -> (r: RotationPlan)
        ensures
            r.operation == operation,
            r@ == Seq::<EditView>::empty(),
            r.contexts@.len() == 0,
    {
        let r = RotationPlan { operation, edits: Vec::new(), contexts: Vec::new() };
        assert(r@ =~= Seq::<EditView>::empty());
        r
    }

    /// Adds an edit that sets (`Some`) or removes (`None`) the value at `target`.
    pub fn edit(&mut self, configs: &ConfigSet, target: ConfigRef, new: Option<Json>) -> (r: Result<(), Error>)
        ensures
            final(self).operation == old(self).operation,
            final(self).contexts == old(self).contexts,
            match r {
                Ok(()) => plan_edit(old(self)@, *configs, target@, option_view(new)) == Ok::<Seq<EditView>, ErrorKind>(final(self)@),
                Err(e) => plan_edit(old(self)@, *configs, target@, option_view(new)) == Err::<Seq<EditView>, ErrorKind>(e.kind),
            },
    {
        let current = configs.edit_target_of(target.file.as_str(), target.pointer.as_str())?;
        let old_value = match current {
            Some(v) => Some(v.duplicate()),
            None => None,
        };
        if same_option_json(&old_value, &new) {
            return Ok(());
        }
        let ghost before = self@;
        let e = Edit { target, old: old_value, new };
        self.edits.push(e);
        assert(self@ =~= before.push(e@));
        Ok(())
    }
}


/// Adding a sequence of requested edits in order.
pub open spec fn plan_edits(edits: Seq<EditView>, configs: ConfigSet, requests: Seq<(ConfigRefView, Option<JsonView>)>, k: nat) -> Result<Seq<EditView>, ErrorKind>
    decreases requests.len() - k,
{
    if k >= requests.len() {
        Ok(edits)
    } else {
        match plan_edit(edits, configs, requests[k as int].0, requests[k as int].1) {
            Err(e) => Err(e),
            Ok(next) => plan_edits(next, configs, requests, k + 1),
        }
    }
}

pub proof fn lemma_plan_edits_single(edits: Seq<EditView>, configs: ConfigSet, r: (ConfigRefView, Option<JsonView>))
    ensures
        plan_edits(edits, configs, seq![r], 0) == plan_edit(edits, configs, r.0, r.1),
{
    let reqs = seq![r];
    assert(reqs[0] == r);
    match plan_edit(edits, configs, r.0, r.1) {
        Err(e) => {},
        Ok(next) => {
            assert(plan_edits(next, configs, reqs, 1) == Ok::<Seq<EditView>, ErrorKind>(next));
        },
    }
}

/// An edit records the value its location holds now, and changes it.
pub open spec fn current_and_effective(configs: ConfigSet, e: EditView) -> bool {
    config_edit_target(configs, e.target.file, e.target.pointer) == Some(e.old) && e.old != e.new
}

/// Adding requests keeps the earlier edits, and each added edit is current and
/// effective and carries the location and new value of one of the requests.
pub proof fn lemma_plan_edits_shape(edits: Seq<EditView>, configs: ConfigSet, reqs: Seq<(ConfigRefView, Option<JsonView>)>, k: nat)
    ensures
        plan_edits(edits, configs, reqs, k) matches Ok(out) ==> {
            &&& edits.len() <= out.len()
            &&& out.take(edits.len() as int) == edits
            &&& forall|i: int| edits.len() <= i < out.len() ==> {
                &&& current_and_effective(configs, #[trigger] out[i])
                &&& exists|j: int| k <= j < reqs.len() && out[i].target == reqs[j].0 && out[i].new == reqs[j].1
            }
        },
    decreases reqs.len() - k,
{
    if k < reqs.len() {
        match plan_edit(edits, configs, reqs[k as int].0, reqs[k as int].1) {
            Err(e) => {},
            Ok(next) => {
                lemma_plan_edits_shape(next, configs, reqs, k + 1);
                match plan_edits(next, configs, reqs, k + 1) {
                    Err(e) => {},
                    Ok(out) => {
                        assert(next.len() >= edits.len());
                        assert(next.take(edits.len() as int) == edits);
                        assert(out.take(edits.len() as int) =~= out.take(next.len() as int).take(edits.len() as int));
                        assert forall|i: int| edits.len() <= i < out.len() implies {
                            &&& current_and_effective(configs, #[trigger] out[i])
                            &&& exists|j: int| k <= j < reqs.len() && out[i].target == reqs[j].0 && out[i].new == reqs[j].1
                        } by {
                            if i < next.len() {
                                assert(next.len() == edits.len() + 1);
                                assert(out[i] == out.take(next.len() as int)[i]);
                                assert(out[i] == next[i]);
                                assert(out[i].target == reqs[k as int].0 && out[i].new == reqs[k as int].1);
                            } else {
                                let j = choose|j: int| k + 1 <= j < reqs.len() && out[i].target == reqs[j].0 && out[i].new == reqs[j].1;
                                assert(k <= j < reqs.len());
                            }
                        }
                    },
                }
            },
        }
    }
}

/// `a` is a (not necessarily proper) prefix of `b`.
pub open spec fn is_prefix(a: Seq<Seq<char>>, b: Seq<Seq<char>>) -> bool {
    a.len() <= b.len() && b.take(a.len() as int) == a
}

/// Whether a new edit location repeats or nests inside an earlier one of the same file.
pub open spec fn clash(seen: Seq<(Seq<char>, Seq<Seq<char>>)>, file: Seq<char>, tokens: Seq<Seq<char>>) -> Option<ErrorKind> {
    if exists|i: int| 0 <= i < seen.len() && #[trigger] seen[i].0 == file && seen[i].1 == tokens {
        Some(ErrorKind::DuplicateEdit)
    } else if exists|i: int| 0 <= i < seen.len() && #[trigger] seen[i].0 == file
        && (is_prefix(seen[i].1, tokens) || is_prefix(tokens, seen[i].1)) {
        Some(ErrorKind::OverlappingEdit)
    } else {
        None
    }
}

/// Edit locations seen so far, and the edited documents so far.
pub struct Materializing {
    pub seen: Seq<(Seq<char>, Seq<Seq<char>>)>,
    pub changed: Seq<(Seq<char>, JsonView)>,
}

/// Applying one edit: its location must be well formed, distinct from and not
/// nested in earlier locations, hold `old`; then `new` is written unless it equals `old`.
pub open spec fn materialize_step(configs: ConfigSet, st: Materializing, e: EditView) -> Result<Materializing, ErrorKind> {
    let file = e.target.file;
    match pointer_tokens(e.target.pointer) {
        None => Err(ErrorKind::InvalidEditLocation),
        Some(t) => match clash(st.seen, file, t) {
            Some(k) => Err(k),
            None => {
                let seen = st.seen.push((file, t));
                match config_edit_target(configs, file, e.target.pointer) {
                    None => Err(ErrorKind::InvalidEditLocation),
                    Some(current) => if current != e.old {
                        Err(ErrorKind::StaleEdit)
                    } else if e.old == e.new {
                        Ok(Materializing { seen, changed: st.changed })
                    } else {
                        let pos = changed_position_of(st.changed, file);
                        let base = match pos {
                            Some(p) => st.changed[p].1,
                            None => find_doc(configs.all_docs(), file).unwrap(),
                        };
                        match set_path(base, t, e.new) {
                            None => Err(ErrorKind::InvalidEditLocation),
                            Some(v) => Ok(Materializing {
                                seen,
                                changed: match pos {
                                    Some(p) => st.changed.update(p, (file, v)),
                                    None => st.changed.push((file, v)),
                                },
                            }),
                        }
                    },
                }
            },
        },
    }
}

pub open spec fn materialize_from(configs: ConfigSet, edits: Seq<EditView>, k: nat, st: Materializing) -> Result<Seq<(Seq<char>, JsonView)>, ErrorKind>
    decreases edits.len() - k,
{
    if k >= edits.len() {
        Ok(st.changed)
    } else {
        match materialize_step(configs, st, edits[k as int]) {
            Err(e) => Err(e),
            Ok(next) => materialize_from(configs, edits, k + 1, next),
        }
    }
}

/// The documents a plan changes, each with all its edits applied, in the order of
/// their first effective edit.
pub open spec fn materialized(configs: ConfigSet, edits: Seq<EditView>) -> Result<Seq<(Seq<char>, JsonView)>, ErrorKind> {
    materialize_from(configs, edits, 0, Materializing { seen: Seq::empty(), changed: Seq::empty() })
}

/// Where the edited copy of `file` sits among the edited documents.
pub open spec fn changed_position_from(changed: Seq<(Seq<char>, JsonView)>, file: Seq<char>, i: int) -> Option<int>
    decreases changed.len() - i,
{
    if i < 0 || i >= changed.len() {
        None
    } else if changed[i].0 == file {
        Some(i)
    } else {
        changed_position_from(changed, file, i + 1)
    }
}

pub open spec fn changed_position_of(changed: Seq<(Seq<char>, JsonView)>, file: Seq<char>) -> Option<int> {
    changed_position_from(changed, file, 0)
}

proof fn lemma_changed_position_from(ch: Seq<(Seq<char>, JsonView)>, file: Seq<char>, i: int)
    requires
        0 <= i,
    ensures
        changed_position_from(ch, file, i) matches Some(p) ==> i <= p < ch.len() && ch[p].0 == file
            && forall|k: int| i <= k < p ==> (#[trigger] ch[k]).0 != file,
        changed_position_from(ch, file, i) is None ==> forall|k: int| i <= k < ch.len() ==> (#[trigger] ch[k]).0 != file,
    decreases ch.len() - i,
{
    if i < ch.len() && ch[i].0 != file {
        lemma_changed_position_from(ch, file, i + 1);
    }
}

proof fn lemma_changed_position_skip(ch: Seq<(Seq<char>, JsonView)>, file: Seq<char>, i: int)
    requires
        0 <= i <= ch.len(),
        forall|k: int| 0 <= k < i ==> (#[trigger] ch[k]).0 != file,
    ensures
        changed_position_of(ch, file) == changed_position_from(ch, file, i),
    decreases i,
{
    if i > 0 {
        lemma_changed_position_skip(ch, file, i - 1);
    }
}

pub proof fn lemma_changed_position_props(ch: Seq<(Seq<char>, JsonView)>, file: Seq<char>)
    ensures
        changed_position_of(ch, file) matches Some(p) ==> 0 <= p < ch.len() && ch[p].0 == file
            && forall|k: int| 0 <= k < p ==> (#[trigger] ch[k]).0 != file,
        changed_position_of(ch, file) is None ==> forall|k: int| 0 <= k < ch.len() ==> (#[trigger] ch[k]).0 != file,
{
    lemma_changed_position_from(ch, file, 0);
}

pub proof fn lemma_changed_position_is(ch: Seq<(Seq<char>, JsonView)>, file: Seq<char>, p: int)
    requires
        0 <= p < ch.len(),
        ch[p].0 == file,
        forall|k: int| 0 <= k < p ==> (#[trigger] ch[k]).0 != file,
    ensures
        changed_position_of(ch, file) == Some(p),
{
    lemma_changed_position_skip(ch, file, p);
}

pub proof fn lemma_changed_position_absent(ch: Seq<(Seq<char>, JsonView)>, file: Seq<char>)
    requires
        forall|k: int| 0 <= k < ch.len() ==> (#[trigger] ch[k]).0 != file,
    ensures
        changed_position_of(ch, file) is None,
{
    lemma_changed_position_skip(ch, file, ch.len() as int);
}

/// A changed document.
pub struct ChangedFile {
    pub path: String,
    pub value: Json,
}

impl ChangedFile {
    /// The bytes the edited file is written with: its indented JSON text and a
    /// final line break.
    pub fn contents(&self) -> (r: Vec<u8>)
        ensures
            r@ == pretty_json(self.value@).push(10u8),
    {
        let mut bytes = self.value.pretty();
        bytes.push(10u8);
        bytes
    }
}

/// The positions, in order, of the files among the first `n` that a plan edits:
/// the copies that are validated before anything is replaced.
pub open spec fn edited_positions(files: Seq<Seq<char>>, edited: Seq<Seq<char>>, n: int) -> Seq<int>
    decreases n,
{
    if n <= 0 {
        Seq::empty()
    } else if edited.contains(files[n - 1]) {
        edited_positions(files, edited, n - 1).push(n - 1)
    } else {
        edited_positions(files, edited, n - 1)
    }
}

/// The positions of the files that `changed` edits.
pub fn edited_among(files: &Vec<String>, changed: &Vec<ChangedFile>) -> (r: Vec<usize>)
    ensures
        r@.map_values(|i: usize| i as int)
            == edited_positions(strings_of(files@), changed_view(changed@).map_values(|c: (Seq<char>, JsonView)| c.0), files@.len() as int),
{
    let ghost edited = changed_view(changed@).map_values(|c: (Seq<char>, JsonView)| c.0);
    let mut paths: Vec<String> = Vec::new();
    let mut k: usize = 0;
    while k < changed.len()
        invariant
            k <= changed@.len(),
            edited == changed_view(changed@).map_values(|c: (Seq<char>, JsonView)| c.0),
            strings_of(paths@) == edited.take(k as int),
        decreases changed@.len() - k,
    {
        let ghost before = strings_of(paths@);
        paths.push(changed[k].path.clone());
        assert(strings_of(paths@) =~= before.push(changed@[k as int].path@));
        assert(edited.take(k + 1) =~= edited.take(k as int).push(edited[k as int]));
        k = k + 1;
    }
    assert(edited.take(k as int) =~= edited);
    let mut out: Vec<usize> = Vec::new();
    let mut i: usize = 0;
    while i < files.len()
        invariant
            i <= files@.len(),
            strings_of(paths@) == edited,
            out@.map_values(|j: usize| j as int) == edited_positions(strings_of(files@), edited, i as int),
        decreases files@.len() - i,
    {
        let ghost before = out@.map_values(|j: usize| j as int);
        let found = crate::binding::contains_string(&paths, files[i].as_str());
        proof {
            assert(strings_of(files@)[i as int] == files@[i as int]@);
            if found {
                let w = choose|w: int| 0 <= w < edited.len() && edited[w] == files@[i as int]@;
                assert(edited.contains(files@[i as int]@));
            } else {
                assert(!edited.contains(files@[i as int]@)) by {
                    if edited.contains(files@[i as int]@) {
                        let w = choose|w: int| 0 <= w < edited.len() && edited[w] == files@[i as int]@;
                        assert(strings_of(paths@)[w] == files@[i as int]@);
                    }
                }
            }
        }
        if found {
            out.push(i);
            assert(out@.map_values(|j: usize| j as int) =~= before.push(i as int));
        }
        i = i + 1;
    }
    out
}

pub open spec fn changed_view(v: Seq<ChangedFile>) -> Seq<(Seq<char>, JsonView)> {
    v.map_values(|c: ChangedFile| (c.path@, c.value@))
}

pub open spec fn seen_view(v: Seq<(String, Vec<String>)>) -> Seq<(Seq<char>, Seq<Seq<char>>)> {
    v.map_values(|p: (String, Vec<String>)| (p.0@, strings_view(p.1@)))
}

fn tokens_prefix(a: &Vec<String>, b: &Vec<String>) -> (r: bool)
    ensures
        r == is_prefix(strings_view(a@), strings_view(b@)),
{
    let ghost av = strings_view(a@);
    let ghost bv = strings_view(b@);
    if a.len() > b.len() {
        return false;
    }
    let mut i: usize = 0;
    while i < a.len()
        invariant
            av == strings_view(a@),
            bv == strings_view(b@),
            a@.len() <= b@.len(),
            i <= a@.len(),
            forall|k: int| 0 <= k < i ==> av[k] == bv[k],
        decreases a@.len() - i,
    {
        if !(a[i] == b[i]) {
            assert(bv.take(av.len() as int)[i as int] != av[i as int]);
            return false;
        }
        i = i + 1;
    }
    assert(bv.take(av.len() as int) =~= av);
    true
}

fn clash_of(seen: &Vec<(String, Vec<String>)>, file: &String, tokens: &Vec<String>) -> (r: Option<ErrorKind>)
    ensures
        r == clash(seen_view(seen@), file@, strings_view(tokens@)),
{
    let ghost sv = seen_view(seen@);
    let ghost t = strings_view(tokens@);
    let mut duplicate = false;
    let mut overlap = false;
    let mut i: usize = 0;
    while i < seen.len()
        invariant
            sv == seen_view(seen@),
            t == strings_view(tokens@),
            i <= seen@.len(),
            duplicate == exists|k: int| 0 <= k < i && #[trigger] sv[k].0 == file@ && sv[k].1 == t,
            overlap == exists|k: int| 0 <= k < i && #[trigger] sv[k].0 == file@
                && (is_prefix(sv[k].1, t) || is_prefix(t, sv[k].1)),
        decreases seen@.len() - i,
    {
        let (f, ts) = (&seen[i].0, &seen[i].1);
        assert(sv[i as int] == (f@, strings_view(ts@)));
        let same_file = *f == *file;
        let mut ab = false;
        let mut ba = false;
        if same_file {
            ab = tokens_prefix(ts, tokens);
            ba = tokens_prefix(tokens, ts);
        }
        let is_dup = same_file && ab && ba;
        let is_ovl = same_file && (ab || ba);
        proof {
            if same_file && sv[i as int].1 == t {
                assert(t.take(t.len() as int) =~= t);
            }
            if same_file && ab && ba {
                assert(sv[i as int].1 =~= t);
            }
            assert(is_dup == (sv[i as int].0 == file@ && sv[i as int].1 == t));
            assert(is_ovl == (sv[i as int].0 == file@ && (is_prefix(sv[i as int].1, t) || is_prefix(t, sv[i as int].1))));
            if is_dup {
                assert(exists|k: int| 0 <= k < i + 1 && #[trigger] sv[k].0 == file@ && sv[k].1 == t);
            }
            if is_ovl {
                assert(exists|k: int| 0 <= k < i + 1 && #[trigger] sv[k].0 == file@
                    && (is_prefix(sv[k].1, t) || is_prefix(t, sv[k].1)));
            }
        }
        duplicate = duplicate || is_dup;
        overlap = overlap || is_ovl;
        i = i + 1;
    }
    if duplicate {
        Some(ErrorKind::DuplicateEdit)
    } else if overlap {
        Some(ErrorKind::OverlappingEdit)
    } else {
        None
    }
}


fn changed_position(changed: &Vec<ChangedFile>, file: &String) -> (r: Option<usize>)
    ensures
        match r {
            Some(p) => changed_position_of(changed_view(changed@), file@) == Some(p as int),
            None => changed_position_of(changed_view(changed@), file@) is None,
        },
{
    let ghost cv = changed_view(changed@);
    let mut i: usize = 0;
    while i < changed.len()
        invariant
            cv == changed_view(changed@),
            i <= changed@.len(),
            forall|k: int| 0 <= k < i ==> (#[trigger] cv[k]).0 != file@,
        decreases changed@.len() - i,
    {
        assert(cv[i as int] == (changed@[i as int].path@, changed@[i as int].value@));
        if changed[i].path == *file {
            proof {
                lemma_changed_position_skip(cv, file@, i as int);
            }
            return Some(i);
        }
        i = i + 1;
    }
    proof {
        lemma_changed_position_skip(cv, file@, i as int);
    }
    None
}

impl RotationPlan {
    /// Applies the edits to copies of the loaded documents, checking that every
    /// location is well formed, distinct and not nested in another, and still
    /// holds the edit's `old` value.
    pub fn materialize(&self, configs: &ConfigSet) -> (r: Result<Vec<ChangedFile>, Error>)
        ensures
            match r {
                Ok(v) => materialized(*configs, self@) == Ok::<Seq<(Seq<char>, JsonView)>, ErrorKind>(changed_view(v@)),
                Err(e) => materialized(*configs, self@) == Err::<Seq<(Seq<char>, JsonView)>, ErrorKind>(e.kind),
            },
    {
        let ghost ev = self@;
        let ghost total = materialized(*configs, ev);
        let mut seen: Vec<(String, Vec<String>)> = Vec::new();
        let mut changed: Vec<ChangedFile> = Vec::new();
        assert(seen_view(seen@) =~= Seq::<(Seq<char>, Seq<Seq<char>>)>::empty());
        assert(changed_view(changed@) =~= Seq::<(Seq<char>, JsonView)>::empty());
        let mut k: usize = 0;
        while k < self.edits.len()
            invariant
                ev == self@,
                k <= ev.len(),
                total == materialized(*configs, ev),
                total == materialize_from(*configs, ev, k as nat,
                    Materializing { seen: seen_view(seen@), changed: changed_view(changed@) }),
            decreases ev.len() - k,
        {
            let edit = &self.edits[k];
            assert(ev[k as int] == edit@);
            let ghost st = Materializing { seen: seen_view(seen@), changed: changed_view(changed@) };
            let file = &edit.target.file;
            let tokens = match parse_pointer(edit.target.pointer.as_str()) {
                Some(t) => t,
                None => {
                    return Err(Error::new(ErrorKind::InvalidEditLocation, edit.target.pointer.clone()));
                },
            };
            match clash_of(&seen, file, &tokens) {
                Some(kind) => {
                    return Err(Error::new(kind, edit.target.pointer.clone()));
                },
                None => {},
            }
            let ghost t = strings_view(tokens@);
            let ghost seen_before = seen_view(seen@);
            let current = match configs.edit_target_of(file.as_str(), edit.target.pointer.as_str()) {
                Ok(c) => c,
                Err(e) => {
                    return Err(e);
                },
            };
            let current_value = match current {
                Some(v) => Some(v.duplicate()),
                None => None,
            };
            if !same_option_json(&current_value, &edit.old) {
                return Err(Error::new(ErrorKind::StaleEdit, edit.target.pointer.clone()));
            }
            let file_copy = file.clone();
            seen.push((file_copy, tokens));
            assert(seen_view(seen@) =~= seen_before.push((file@, t)));
            if !same_option_json(&edit.old, &edit.new) {
                let new_value = clone_option_json(&edit.new);
                let pos = changed_position(&changed, file);
                let base = match pos {
                    Some(p) => {
                        proof {
                            lemma_changed_position_props(changed_view(changed@), file@);
                        }
                        changed.remove(p).value
                    },
                    None => {
                        match configs.document(file.as_str()) {
                            Some(d) => d.duplicate(),
                            None => {
                                return Err(Error::new(ErrorKind::InvalidEditLocation, edit.target.pointer.clone()));
                            },
                        }
                    },
                };
                let ghost cv_before = st.changed;
                proof {
                    assert(pointer_tokens(ev[k as int].target.pointer) == Some(t));
                    assert(clash(st.seen, file@, t) is None);
                    assert(config_edit_target(*configs, file@, ev[k as int].target.pointer) == Some(ev[k as int].old));
                    assert(ev[k as int].old != ev[k as int].new);
                    let pos_s = changed_position_of(st.changed, file@);
                    let base_s = match pos_s {
                        Some(p) => st.changed[p].1,
                        None => find_doc(configs.all_docs(), file@).unwrap(),
                    };
                    assert(base_s == base@);
                }
                let n = seen.len();
                let updated = base.set_path(&seen[n - 1].1, 0, new_value);
                assert(strings_view(seen@[n - 1].1@).skip(0) =~= t);
                match updated {
                    Some(v) => {
                        match pos {
                            Some(p) => {
                                let c = ChangedFile { path: file.clone(), value: v };
                                changed.insert(p, c);
                                assert(changed_view(changed@) =~= cv_before.update(p as int, (file@, c.value@)));
                            },
                            None => {
                                let c = ChangedFile { path: file.clone(), value: v };
                                changed.push(c);
                                assert(changed_view(changed@) =~= cv_before.push((file@, c.value@)));
                            },
                        }
                    },
                    None => {
                        assert(materialize_step(*configs, st, ev[k as int]) == Err::<Materializing, ErrorKind>(ErrorKind::InvalidEditLocation));
                        return Err(Error::new(ErrorKind::InvalidEditLocation, edit.target.pointer.clone()));
                    },
                }
            }
            assert(materialize_step(*configs, st, ev[k as int]) == Ok::<Materializing, ErrorKind>(
                Materializing { seen: seen_view(seen@), changed: changed_view(changed@) }));
            k = k + 1;
        }
        Ok(changed)
    }
}

} // verus!

verus! {

// ---------------------------------------------------------------------------
// Identity rotation.

/// `j` is an endpoint of `protocol`: its `type` names the protocol.
pub open spec fn is_typed(j: JsonView, protocol: Protocol) -> bool {
    as_text(member_of(j, "type"@)) == Some(protocol.spec_name())
}

/// The items of an array value; nothing for any other value.
pub open spec fn array_items(j: Option<JsonView>) -> Seq<JsonView> {
    match j {
        Some(JsonView::Array(items)) => items,
        _ => Seq::empty(),
    }
}

pub open spec fn text_list(t: Option<Seq<char>>) -> Seq<Seq<char>> {
    match t {
        Some(s) => seq![s],
        None => Seq::empty(),
    }
}

/// The string credentials of `users[i..]`.
pub open spec fn user_credentials(protocol: Protocol, users: Seq<JsonView>, i: nat) -> Seq<Seq<char>>
    decreases users.len() - i,
{
    if i >= users.len() {
        Seq::empty()
    } else {
        text_list(as_text(member_of(users[i as int], protocol.spec_credential())))
            + user_credentials(protocol, users, i + 1)
    }
}

/// The string credentials of the users of the `protocol` inbounds among `inbounds[i..]`.
pub open spec fn inbound_credentials(protocol: Protocol, inbounds: Seq<JsonView>, i: nat) -> Seq<Seq<char>>
    decreases inbounds.len() - i,
{
    if i >= inbounds.len() {
        Seq::empty()
    } else {
        (if is_typed(inbounds[i as int], protocol) {
            user_credentials(protocol, array_items(member_of(inbounds[i as int], "users"@)), 0)
        } else {
            Seq::empty()
        }) + inbound_credentials(protocol, inbounds, i + 1)
    }
}

/// The string credentials of the `protocol` outbounds among `outbounds[i..]`.
pub open spec fn outbound_credentials(protocol: Protocol, outbounds: Seq<JsonView>, i: nat) -> Seq<Seq<char>>
    decreases outbounds.len() - i,
{
    if i >= outbounds.len() {
        Seq::empty()
    } else {
        (if is_typed(outbounds[i as int], protocol) {
            text_list(as_text(member_of(outbounds[i as int], protocol.spec_credential())))
        } else {
            Seq::empty()
        }) + outbound_credentials(protocol, outbounds, i + 1)
    }
}

pub open spec fn server_credentials(protocol: Protocol, docs: Seq<DocView>, i: nat) -> Seq<Seq<char>>
    decreases docs.len() - i,
{
    if i >= docs.len() {
        Seq::empty()
    } else {
        inbound_credentials(protocol, array_items(member_of(docs[i as int].value, "inbounds"@)), 0)
            + server_credentials(protocol, docs, i + 1)
    }
}

pub open spec fn client_credentials(protocol: Protocol, docs: Seq<DocView>, i: nat) -> Seq<Seq<char>>
    decreases docs.len() - i,
{
    if i >= docs.len() {
        Seq::empty()
    } else {
        outbound_credentials(protocol, array_items(member_of(docs[i as int].value, "outbounds"@)), 0)
            + client_credentials(protocol, docs, i + 1)
    }
}

/// Every credential of `protocol` in the supplied configs: server users of every
/// inbound (selected or not) and client outbounds (bound or not).
pub open spec fn used_credentials(configs: ConfigSet, protocol: Protocol) -> Seq<Seq<char>> {
    server_credentials(protocol, configs.server_docs(), 0) + client_credentials(protocol, configs.client_docs(), 0)
}

fn type_matches(j: &Json, protocol: Protocol) -> (r: bool)
    ensures
        r == is_typed(j@, protocol),
{
    match j.text_member("type") {
        Some(t) => crate::text::str_equal(t.as_str(), protocol.name()),
        None => false,
    }
}

fn add_text(t: Option<&String>, out: &mut Vec<String>)
    ensures
        strings_of(final(out)@) == strings_of(old(out)@) + text_list(match t { Some(s) => Some(s@), None => None }),
{
    match t {
        Some(s) => {
            let ghost before = strings_of(out@);
            out.push(s.clone());
            assert(strings_of(out@) =~= before + seq![s@]);
        },
        None => {
            assert(strings_of(out@) =~= strings_of(out@) + Seq::<Seq<char>>::empty());
        },
    }
}

fn add_user_credentials(protocol: Protocol, users: &Vec<Json>, out: &mut Vec<String>)
    ensures
        strings_of(final(out)@) == strings_of(old(out)@) + user_credentials(protocol, items_view(users@), 0),
{
    let ghost us = items_view(users@);
    let ghost start = strings_of(out@);
    let mut i: usize = 0;
    assert(start + user_credentials(protocol, us, 0) =~= strings_of(out@) + user_credentials(protocol, us, 0));
    while i < users.len()
        invariant
            us == items_view(users@),
            i <= users@.len(),
            strings_of(out@) + user_credentials(protocol, us, i as nat) == start + user_credentials(protocol, us, 0),
        decreases users@.len() - i,
    {
        assert(us[i as int] == users@[i as int]@);
        let ghost before = strings_of(out@);
        add_text(users[i].text_member(protocol.credential()), out);
        assert(strings_of(out@) + user_credentials(protocol, us, (i + 1) as nat)
            =~= before + user_credentials(protocol, us, i as nat));
        i = i + 1;
    }
    assert(strings_of(out@) =~= strings_of(out@) + user_credentials(protocol, us, i as nat));
}

fn add_inbound_credentials(protocol: Protocol, inbounds: &Vec<Json>, out: &mut Vec<String>)
    ensures
        strings_of(final(out)@) == strings_of(old(out)@) + inbound_credentials(protocol, items_view(inbounds@), 0),
{
    let ghost xs = items_view(inbounds@);
    let ghost start = strings_of(out@);
    let mut i: usize = 0;
    while i < inbounds.len()
        invariant
            xs == items_view(inbounds@),
            i <= inbounds@.len(),
            strings_of(out@) + inbound_credentials(protocol, xs, i as nat) == start + inbound_credentials(protocol, xs, 0),
        decreases inbounds@.len() - i,
    {
        let inbound = &inbounds[i];
        assert(xs[i as int] == inbound@);
        let ghost before = strings_of(out@);
        if type_matches(inbound, protocol) {
            match inbound.get_member("users") {
                Some(Json::Array(users)) => {
                    proof {
                        lemma_array_view(*users);
                    }
                    add_user_credentials(protocol, users, out);
                },
                _ => {
                    assert(strings_of(out@) =~= before + user_credentials(protocol, Seq::<JsonView>::empty(), 0));
                },
            }
        } else {
            assert(strings_of(out@) =~= before + Seq::<Seq<char>>::empty());
        }
        assert(strings_of(out@) + inbound_credentials(protocol, xs, (i + 1) as nat)
            =~= before + inbound_credentials(protocol, xs, i as nat));
        i = i + 1;
    }
    assert(strings_of(out@) =~= strings_of(out@) + inbound_credentials(protocol, xs, i as nat));
}

fn add_outbound_credentials(protocol: Protocol, outbounds: &Vec<Json>, out: &mut Vec<String>)
    ensures
        strings_of(final(out)@) == strings_of(old(out)@) + outbound_credentials(protocol, items_view(outbounds@), 0),
{
    let ghost xs = items_view(outbounds@);
    let ghost start = strings_of(out@);
    let mut i: usize = 0;
    while i < outbounds.len()
        invariant
            xs == items_view(outbounds@),
            i <= outbounds@.len(),
            strings_of(out@) + outbound_credentials(protocol, xs, i as nat) == start + outbound_credentials(protocol, xs, 0),
        decreases outbounds@.len() - i,
    {
        let outbound = &outbounds[i];
        assert(xs[i as int] == outbound@);
        let ghost before = strings_of(out@);
        if type_matches(outbound, protocol) {
            add_text(outbound.text_member(protocol.credential()), out);
        } else {
            assert(strings_of(out@) =~= before + Seq::<Seq<char>>::empty());
        }
        assert(strings_of(out@) + outbound_credentials(protocol, xs, (i + 1) as nat)
            =~= before + outbound_credentials(protocol, xs, i as nat));
        i = i + 1;
    }
    assert(strings_of(out@) =~= strings_of(out@) + outbound_credentials(protocol, xs, i as nat));
}

/// Every credential of `protocol` in the supplied configs.
pub fn credentials_in_use(configs: &ConfigSet, protocol: Protocol) -> (r: Vec<String>)
    ensures
        strings_of(r@) == used_credentials(*configs, protocol),
{
    let mut out: Vec<String> = Vec::new();
    let ghost sd = configs.server_docs();
    let mut i: usize = 0;
    assert(strings_of(out@) =~= Seq::<Seq<char>>::empty());
    while i < configs.server_documents.len()
        invariant
            sd == configs.server_docs(),
            i <= sd.len(),
            strings_of(out@) + server_credentials(protocol, sd, i as nat) == server_credentials(protocol, sd, 0),
        decreases sd.len() - i,
    {
        let doc = &configs.server_documents[i];
        assert(sd[i as int] == doc@);
        let ghost before = strings_of(out@);
        match doc.value.get_member("inbounds") {
            Some(Json::Array(inbounds)) => {
                proof {
                    lemma_array_view(*inbounds);
                }
                add_inbound_credentials(protocol, inbounds, &mut out);
            },
            _ => {
                assert(strings_of(out@) =~= before + inbound_credentials(protocol, Seq::<JsonView>::empty(), 0));
            },
        }
        assert(strings_of(out@) + server_credentials(protocol, sd, (i + 1) as nat)
            =~= before + server_credentials(protocol, sd, i as nat));
        i = i + 1;
    }
    assert(strings_of(out@) =~= server_credentials(protocol, sd, 0));
    let ghost cd = configs.client_docs();
    let ghost servers = strings_of(out@);
    let mut j: usize = 0;
    assert(servers + client_credentials(protocol, cd, 0) =~= strings_of(out@) + client_credentials(protocol, cd, 0));
    while j < configs.client_documents.len()
        invariant
            cd == configs.client_docs(),
            j <= cd.len(),
            servers == server_credentials(protocol, configs.server_docs(), 0),
            strings_of(out@) + client_credentials(protocol, cd, j as nat) == servers + client_credentials(protocol, cd, 0),
        decreases cd.len() - j,
    {
        let doc = &configs.client_documents[j];
        assert(cd[j as int] == doc@);
        let ghost before = strings_of(out@);
        match doc.value.get_member("outbounds") {
            Some(Json::Array(outbounds)) => {
                proof {
                    lemma_array_view(*outbounds);
                }
                add_outbound_credentials(protocol, outbounds, &mut out);
            },
            _ => {
                assert(strings_of(out@) =~= before + outbound_credentials(protocol, Seq::<JsonView>::empty(), 0));
            },
        }
        assert(strings_of(out@) + client_credentials(protocol, cd, (j + 1) as nat)
            =~= before + client_credentials(protocol, cd, j as nat));
        j = j + 1;
    }
    assert(strings_of(out@) =~= strings_of(out@) + client_credentials(protocol, cd, j as nat));
    out
}

} // verus!

verus! {

/// The state of an identity rotation: the credentials a new one must avoid, the
/// edits so far, and how many generated values were used.
pub struct IdentityState {
    pub used: Seq<Seq<char>>,
    pub edits: Seq<EditView>,
    pub count: nat,
}

/// The edits that rotate one identity to `v`: every server user holding it, then
/// the credential of every client outbound bound to it.
pub open spec fn identity_requests(protocol: Protocol, id: IdentityView, v: Seq<char>) -> Seq<(ConfigRefView, Option<JsonView>)> {
    Seq::new(id.server_refs.len(), |i: int| (id.server_refs[i], Some(JsonView::String(v))))
        + Seq::new(id.clients.len(), |i: int| (field_ref(id.clients[i], protocol.spec_credential()), Some(JsonView::String(v))))
}

/// Rotating one identity to `v`: a new credential must be nonempty and collide
/// with no credential in use or generated before.
pub open spec fn rotate_identity(configs: ConfigSet, protocol: Protocol, id: IdentityView, v: Seq<char>,
    used: Seq<Seq<char>>, edits: Seq<EditView>) -> Result<Seq<EditView>, ErrorKind> {
    if v.len() == 0 {
        Err(ErrorKind::EmptyGenerated)
    } else if seq_contains_str(used, v) {
        Err(ErrorKind::GeneratedCollision)
    } else {
        plan_edits(edits, configs, identity_requests(protocol, id, v), 0)
    }
}

/// One identity: rotated, with the next generated value, when one of its clients
/// is selected; left alone otherwise.
pub open spec fn identity_step(configs: ConfigSet, input: Input, protocol: Protocol, id: IdentityView, gens: Seq<Seq<char>>,
    st: IdentityState) -> Result<IdentityState, ErrorKind> {
    if !some_selected_client(configs, input, id.clients, true) {
        Ok(st)
    } else if st.count >= gens.len() {
        Err(ErrorKind::Generator)
    } else {
        let v = gens[st.count as int];
        match rotate_identity(configs, protocol, id, v, st.used, st.edits) {
            Err(e) => Err(e),
            Ok(edits) => Ok(IdentityState { used: st.used.push(v), edits, count: st.count + 1 }),
        }
    }
}

/// The state after the first `k` identities of `ids`, starting from `st`.
pub open spec fn rotate_identities(configs: ConfigSet, input: Input, protocol: Protocol, ids: Seq<IdentityView>, gens: Seq<Seq<char>>,
    st: IdentityState, k: nat) -> Result<IdentityState, ErrorKind>
    decreases k,
{
    if k == 0 {
        Ok(st)
    } else {
        match rotate_identities(configs, input, protocol, ids, gens, st, (k - 1) as nat) {
            Err(e) => Err(e),
            Ok(prev) => if k > ids.len() {
                Ok(prev)
            } else {
                identity_step(configs, input, protocol, ids[k - 1], gens, prev)
            },
        }
    }
}

/// The state after the first `s` services (those of other protocols are skipped).
pub open spec fn rotate_services(configs: ConfigSet, input: Input, protocol: Protocol, svcs: Seq<ServiceView>, gens: Seq<Seq<char>>,
    init: IdentityState, s: nat) -> Result<IdentityState, ErrorKind>
    decreases s,
{
    if s == 0 {
        Ok(init)
    } else {
        match rotate_services(configs, input, protocol, svcs, gens, init, (s - 1) as nat) {
            Err(e) => Err(e),
            Ok(prev) => if s > svcs.len() || svcs[s - 1].protocol != protocol {
                Ok(prev)
            } else {
                rotate_identities(configs, input, protocol, svcs[s - 1].identities, gens, prev, svcs[s - 1].identities.len())
            },
        }
    }
}

/// How many of the first `k` identities have a selected client.
pub open spec fn selected_among(configs: ConfigSet, input: Input, ids: Seq<IdentityView>, k: nat) -> nat
    decreases k,
{
    if k == 0 {
        0
    } else {
        selected_among(configs, input, ids, (k - 1) as nat)
            + (if k <= ids.len() && some_selected_client(configs, input, ids[k - 1].clients, true) { 1nat } else { 0nat })
    }
}

/// How many identities of `protocol` in the first `s` services have a selected
/// client: one value is generated for each.
pub open spec fn selected_identities(configs: ConfigSet, input: Input, protocol: Protocol, svcs: Seq<ServiceView>, s: nat) -> nat
    decreases s,
{
    if s == 0 {
        0
    } else {
        selected_identities(configs, input, protocol, svcs, (s - 1) as nat)
            + (if s <= svcs.len() && svcs[s - 1].protocol == protocol {
                selected_among(configs, input, svcs[s - 1].identities, svcs[s - 1].identities.len())
            } else {
                0nat
            })
    }
}

proof fn lemma_rotate_identities_count(configs: ConfigSet, input: Input, protocol: Protocol, ids: Seq<IdentityView>, gens: Seq<Seq<char>>,
    st: IdentityState, k: nat)
    ensures
        rotate_identities(configs, input, protocol, ids, gens, st, k) matches Ok(out)
            ==> out.count == st.count + selected_among(configs, input, ids, k),
    decreases k,
{
    if k > 0 {
        lemma_rotate_identities_count(configs, input, protocol, ids, gens, st, (k - 1) as nat);
    }
}

proof fn lemma_rotate_services_count(configs: ConfigSet, input: Input, protocol: Protocol, svcs: Seq<ServiceView>, gens: Seq<Seq<char>>,
    init: IdentityState, s: nat)
    ensures
        rotate_services(configs, input, protocol, svcs, gens, init, s) matches Ok(out)
            ==> out.count == init.count + selected_identities(configs, input, protocol, svcs, s),
    decreases s,
{
    if s > 0 {
        lemma_rotate_services_count(configs, input, protocol, svcs, gens, init, (s - 1) as nat);
        if let Ok(prev) = rotate_services(configs, input, protocol, svcs, gens, init, (s - 1) as nat) {
            if s <= svcs.len() && svcs[s - 1].protocol == protocol {
                lemma_rotate_identities_count(configs, input, protocol, svcs[s - 1].identities, gens, prev, svcs[s - 1].identities.len());
            }
        }
    }
}

pub open spec fn initial_identity_state(configs: ConfigSet, protocol: Protocol) -> IdentityState {
    IdentityState { used: used_credentials(configs, protocol), edits: Seq::empty(), count: 0 }
}

/// An identity rotation given the generated values, used in order, one per
/// selected identity: every identity of the kind's protocol with a selected
/// client gets a fresh credential on its server users and all its clients.
pub open spec fn identities_outcome(configs: ConfigSet, inv: InventoryView, input: Input, kind: IdentityKind, gens: Seq<Seq<char>>)
    -> Result<Seq<EditView>, ErrorKind> {
    let protocol = kind.spec_protocol();
    if has_ambiguity(inv, protocol) {
        Err(ErrorKind::Ambiguous)
    } else {
        match rotate_services(configs, input, protocol, inv.services, gens, initial_identity_state(configs, protocol), inv.services.len()) {
            Err(e) => Err(e),
            Ok(st) => if st.edits.len() == 0 {
                Err(ErrorKind::NoMatchedIdentities)
            } else {
                Ok(st.edits)
            },
        }
    }
}

proof fn lemma_rotate_identities_err(configs: ConfigSet, input: Input, protocol: Protocol, ids: Seq<IdentityView>, gens: Seq<Seq<char>>,
    st: IdentityState, k: nat, m: nat)
    requires
        k <= m,
        rotate_identities(configs, input, protocol, ids, gens, st, k) is Err,
    ensures
        rotate_identities(configs, input, protocol, ids, gens, st, m) == rotate_identities(configs, input, protocol, ids, gens, st, k),
    decreases m - k,
{
    if k < m {
        lemma_rotate_identities_err(configs, input, protocol, ids, gens, st, k, (m - 1) as nat);
    }
}

proof fn lemma_rotate_services_err(configs: ConfigSet, input: Input, protocol: Protocol, svcs: Seq<ServiceView>, gens: Seq<Seq<char>>,
    init: IdentityState, s: nat, m: nat)
    requires
        s <= m,
        rotate_services(configs, input, protocol, svcs, gens, init, s) is Err,
    ensures
        rotate_services(configs, input, protocol, svcs, gens, init, m) == rotate_services(configs, input, protocol, svcs, gens, init, s),
    decreases m - s,
{
    if s < m {
        lemma_rotate_services_err(configs, input, protocol, svcs, gens, init, s, (m - 1) as nat);
    }
}

/// `b` begins with `a`.
pub open spec fn extends(a: Seq<Seq<char>>, b: Seq<Seq<char>>) -> bool {
    a.len() <= b.len() && b.take(a.len() as int) == a
}

proof fn lemma_rotate_identities_extend(configs: ConfigSet, input: Input, protocol: Protocol, ids: Seq<IdentityView>, gens: Seq<Seq<char>>,
    more: Seq<Seq<char>>, st: IdentityState, k: nat)
    requires
        st.count <= gens.len(),
        extends(gens, more),
        rotate_identities(configs, input, protocol, ids, gens, st, k) is Ok,
    ensures
        rotate_identities(configs, input, protocol, ids, more, st, k) == rotate_identities(configs, input, protocol, ids, gens, st, k),
        rotate_identities(configs, input, protocol, ids, gens, st, k)->Ok_0.count <= gens.len(),
    decreases k,
{
    if k > 0 {
        lemma_rotate_identities_extend(configs, input, protocol, ids, gens, more, st, (k - 1) as nat);
        let prev = rotate_identities(configs, input, protocol, ids, gens, st, (k - 1) as nat)->Ok_0;
        if prev.count < gens.len() {
            assert(more.take(gens.len() as int)[prev.count as int] == more[prev.count as int]);
        }
    }
}

proof fn lemma_rotate_services_extend(configs: ConfigSet, input: Input, protocol: Protocol, svcs: Seq<ServiceView>, gens: Seq<Seq<char>>,
    more: Seq<Seq<char>>, init: IdentityState, s: nat)
    requires
        init.count <= gens.len(),
        extends(gens, more),
        rotate_services(configs, input, protocol, svcs, gens, init, s) is Ok,
    ensures
        rotate_services(configs, input, protocol, svcs, more, init, s) == rotate_services(configs, input, protocol, svcs, gens, init, s),
        rotate_services(configs, input, protocol, svcs, gens, init, s)->Ok_0.count <= gens.len(),
    decreases s,
{
    if s > 0 {
        lemma_rotate_services_extend(configs, input, protocol, svcs, gens, more, init, (s - 1) as nat);
        let prev = rotate_services(configs, input, protocol, svcs, gens, init, (s - 1) as nat)->Ok_0;
        if s <= svcs.len() && svcs[s - 1].protocol == protocol {
            lemma_rotate_identities_extend(configs, input, protocol, svcs[s - 1].identities, gens, more, prev, svcs[s - 1].identities.len());
        }
    }
}

/// The line that describes one rotated identity of a service.
pub open spec fn identity_line(protocol: Protocol, inbound: crate::binding::EndpointView, id: IdentityView) -> Seq<char> {
    protocol.spec_name() + " inbound="@ + crate::binding::label_text(inbound) + " users=["@
        + crate::inspect::join_sep(id.user_names, ", "@) + "], "@ + crate::text::decimal(id.clients.len())
        + " client occurrence(s)"@
}

/// The lines of the selected identities among the first `k` of a service.
pub open spec fn identities_lines(configs: ConfigSet, input: Input, protocol: Protocol, svc: ServiceView, k: nat) -> Seq<Seq<char>>
    decreases k,
{
    if k == 0 {
        Seq::empty()
    } else {
        let prev = identities_lines(configs, input, protocol, svc, (k - 1) as nat);
        if k <= svc.identities.len() && some_selected_client(configs, input, svc.identities[k - 1].clients, true) {
            prev.push(identity_line(protocol, svc.inbound, svc.identities[k - 1]))
        } else {
            prev
        }
    }
}

/// The lines of the selected identities of the first `s` services of the protocol.
pub open spec fn services_lines(configs: ConfigSet, input: Input, protocol: Protocol, svcs: Seq<ServiceView>, s: nat) -> Seq<Seq<char>>
    decreases s,
{
    if s == 0 {
        Seq::empty()
    } else {
        let prev = services_lines(configs, input, protocol, svcs, (s - 1) as nat);
        if s > svcs.len() || svcs[s - 1].protocol != protocol {
            prev
        } else {
            prev + identities_lines(configs, input, protocol, svcs[s - 1], svcs[s - 1].identities.len())
        }
    }
}

/// The context lines of an identity rotation: one per rotated identity, in order.
pub open spec fn identities_contexts(configs: ConfigSet, inv: InventoryView, input: Input, kind: IdentityKind) -> Seq<Seq<char>> {
    services_lines(configs, input, kind.spec_protocol(), inv.services, inv.services.len())
}

/// The line that describes one rotated identity.
fn identity_context(protocol: Protocol, service: &ServiceBinding, identity: &IdentityBinding) -> (r: String)
    ensures
        r@ == identity_line(protocol, service@.inbound, identity@),
{
    let mut line = String::new();
    append_str(&mut line, protocol.name());
    append_str(&mut line, " inbound=");
    let label = service.inbound.label();
    append_str(&mut line, label.as_str());
    append_str(&mut line, " users=[");
    let names = crate::inspect::join_strings(&identity.user_names, ", ");
    append_str(&mut line, names.as_str());
    append_str(&mut line, "], ");
    let n = u64_text(identity.clients.len() as u64);
    append_str(&mut line, n.as_str());
    append_str(&mut line, " client occurrence(s)");
    assert(line@ =~= identity_line(protocol, service@.inbound, identity@));
    line
}

/// Rotates one identity to `v` (see `rotate_identity`).
fn rotate_identity_to(configs: &ConfigSet, protocol: Protocol, service: &ServiceBinding, identity: &IdentityBinding, v: &String,
    used: &mut Vec<String>, plan: &mut RotationPlan) -> (r: Result<(), Error>)
    ensures
        final(plan).operation == old(plan).operation,
        match r {
            Ok(()) => rotate_identity(*configs, protocol, identity@, v@, strings_of(old(used)@), old(plan)@)
                    == Ok::<Seq<EditView>, ErrorKind>(final(plan)@)
                && strings_of(final(used)@) == strings_of(old(used)@).push(v@)
                && strings_of(final(plan).contexts@)
                    == strings_of(old(plan).contexts@).push(identity_line(protocol, service@.inbound, identity@)),
            Err(e) => rotate_identity(*configs, protocol, identity@, v@, strings_of(old(used)@), old(plan)@)
                == Err::<Seq<EditView>, ErrorKind>(e.kind),
        },
{
    if v.unicode_len() == 0 {
        return Err(Error::plain(ErrorKind::EmptyGenerated));
    }
    if contains_string(used, v.as_str()) {
        return Err(Error::plain(ErrorKind::GeneratedCollision));
    }
    let ghost used0 = strings_of(used@);
    used.push(v.clone());
    assert(strings_of(used@) =~= used0.push(v@));
    let context = identity_context(protocol, service, identity);
    let ghost ctx0 = strings_of(plan.contexts@);
    plan.contexts.push(context);
    let ghost ctx = strings_of(plan.contexts@);
    assert(ctx =~= ctx0.push(identity_line(protocol, service@.inbound, identity@)));
    assert(ctx0 == strings_of(old(plan).contexts@));
    let ghost id = identity@;
    let ghost reqs = identity_requests(protocol, id, v@);
    let ghost start = plan@;
    let ghost op = plan.operation;
    let mut i: usize = 0;
    while i < identity.server_refs.len()
        invariant
            id == identity@,
            reqs == identity_requests(protocol, id, v@),
            i <= id.server_refs.len(),
            plan.operation == op,
            op == old(plan).operation,
            start == old(plan)@,
            strings_of(plan.contexts@) == ctx,
            used0 == strings_of(old(used)@),
            rotate_identity(*configs, protocol, id, v@, used0, start) == plan_edits(start, *configs, reqs, 0),
            plan_edits(start, *configs, reqs, 0) == plan_edits(plan@, *configs, reqs, i as nat),
        decreases id.server_refs.len() - i,
    {
        assert(reqs[i as int] == (identity.server_refs@[i as int]@, Some(JsonView::String(v@))));
        let target = identity.server_refs[i].clone();
        plan.edit(configs, target, Some(Json::String(v.clone())))?;
        i = i + 1;
    }
    let n = identity.server_refs.len();
    let mut j: usize = 0;
    while j < identity.clients.len()
        invariant
            id == identity@,
            n == id.server_refs.len(),
            reqs == identity_requests(protocol, id, v@),
            j <= id.clients.len(),
            plan.operation == op,
            op == old(plan).operation,
            start == old(plan)@,
            strings_of(plan.contexts@) == ctx,
            used0 == strings_of(old(used)@),
            rotate_identity(*configs, protocol, id, v@, used0, start) == plan_edits(start, *configs, reqs, 0),
            plan_edits(start, *configs, reqs, 0) == plan_edits(plan@, *configs, reqs, (n + j) as nat),
        decreases id.clients.len() - j,
    {
        assert(reqs[n + j] == (field_ref(identity.clients@[j as int]@, protocol.spec_credential()), Some(JsonView::String(v@))));
        let target = identity.clients[j].field(protocol.credential());
        plan.edit(configs, target, Some(Json::String(v.clone())))?;
        j = j + 1;
    }
    assert(plan_edits(plan@, *configs, reqs, (n + j) as nat) == Ok::<Seq<EditView>, ErrorKind>(plan@));
    Ok(())
}

pub open spec fn state_of(used: Seq<String>, edits: Seq<EditView>, count: usize) -> IdentityState {
    IdentityState { used: strings_of(used), edits, count: count as nat }
}

/// Rotates the selected identities of one service with the given generated values.
fn service_with(configs: &ConfigSet, input: &Input, protocol: Protocol, service: &ServiceBinding, generated: &Vec<String>,
    used: &mut Vec<String>, plan: &mut RotationPlan, count: &mut usize) -> (r: Result<(), Error>)
    ensures
        final(plan).operation == old(plan).operation,
        match r {
            Ok(()) => rotate_identities(*configs, *input, protocol, service@.identities, strings_of(generated@),
                    state_of(old(used)@, old(plan)@, *old(count)), service@.identities.len())
                == Ok::<IdentityState, ErrorKind>(state_of(final(used)@, final(plan)@, *final(count)))
                && strings_of(final(plan).contexts@) == strings_of(old(plan).contexts@)
                    + identities_lines(*configs, *input, protocol, service@, service@.identities.len()),
            Err(e) => rotate_identities(*configs, *input, protocol, service@.identities, strings_of(generated@),
                    state_of(old(used)@, old(plan)@, *old(count)), service@.identities.len())
                == Err::<IdentityState, ErrorKind>(e.kind),
        },
{
    let ghost gens = strings_of(generated@);
    let ghost ids = service@.identities;
    let ghost st0 = state_of(used@, plan@, *count);
    let ghost op = plan.operation;
    let mut k: usize = 0;
    while k < service.identities.len()
        invariant
            ids == service@.identities,
            gens == strings_of(generated@),
            st0 == state_of(old(used)@, old(plan)@, *old(count)),
            op == old(plan).operation,
            k <= ids.len(),
            plan.operation == op,
            rotate_identities(*configs, *input, protocol, ids, gens, st0, k as nat)
                == Ok::<IdentityState, ErrorKind>(state_of(used@, plan@, *count)),
            strings_of(plan.contexts@) == strings_of(old(plan).contexts@) + identities_lines(*configs, *input, protocol, service@, k as nat),
        decreases ids.len() - k,
    {
        let identity = &service.identities[k];
        assert(ids[k as int] == identity@);
        if any_selected(configs, input, &identity.clients, true) {
            if *count >= generated.len() {
                proof {
                    lemma_rotate_identities_err(*configs, *input, protocol, ids, gens, st0, (k + 1) as nat, ids.len());
                }
                return Err(Error::plain(ErrorKind::Generator));
            }
            assert(gens[*count as int] == generated@[*count as int]@);
            let step = rotate_identity_to(configs, protocol, service, identity, &generated[*count], used, plan);
            match step {
                Ok(()) => {},
                Err(e) => {
                    proof {
                        lemma_rotate_identities_err(*configs, *input, protocol, ids, gens, st0, (k + 1) as nat, ids.len());
                    }
                    return Err(e);
                },
            }
            *count = *count + 1;
        }
        assert(strings_of(plan.contexts@) =~= strings_of(old(plan).contexts@)
            + identities_lines(*configs, *input, protocol, service@, (k + 1) as nat));
        k = k + 1;
    }
    Ok(())
}

/// An identity rotation with the given generated values, used in order, one per
/// selected identity.
pub fn identities_with(configs: &ConfigSet, inventory: &Inventory, input: &Input, kind: IdentityKind, generated: &Vec<String>)
    -> (r: Result<RotationPlan, Error>)
    ensures
        match r {
            Ok(p) => identities_outcome(*configs, inventory@, *input, kind, strings_of(generated@)) == Ok::<Seq<EditView>, ErrorKind>(p@)
                && p.operation == OperationKind::Rotate(rotation_of_identity(kind))
                && strings_of(p.contexts@) == identities_contexts(*configs, inventory@, *input, kind),
            Err(e) => identities_outcome(*configs, inventory@, *input, kind, strings_of(generated@)) == Err::<Seq<EditView>, ErrorKind>(e.kind),
        },
{
    let protocol = kind.protocol();
    inventory.ensure_unambiguous(protocol)?;
    let ghost gens = strings_of(generated@);
    let ghost svcs = inventory@.services;
    let mut used = credentials_in_use(configs, protocol);
    let ghost init = initial_identity_state(*configs, protocol);
    let mut plan = RotationPlan::new(OperationKind::Rotate(RotationKind::from(kind)));
    let mut count: usize = 0;
    let mut s: usize = 0;
    assert(state_of(used@, plan@, count) == init);
    assert(strings_of(plan.contexts@) =~= Seq::<Seq<char>>::empty());
    while s < inventory.services.len()
        invariant
            svcs == inventory@.services,
            gens == strings_of(generated@),
            init == initial_identity_state(*configs, protocol),
            protocol == kind.spec_protocol(),
            !has_ambiguity(inventory@, protocol),
            s <= svcs.len(),
            plan.operation == OperationKind::Rotate(rotation_of_identity(kind)),
            rotate_services(*configs, *input, protocol, svcs, gens, init, s as nat)
                == Ok::<IdentityState, ErrorKind>(state_of(used@, plan@, count)),
            strings_of(plan.contexts@) == services_lines(*configs, *input, protocol, svcs, s as nat),
        decreases svcs.len() - s,
    {
        let service = &inventory.services[s];
        assert(svcs[s as int] == service@);
        if service.protocol == protocol {
            match service_with(configs, input, protocol, service, generated, &mut used, &mut plan, &mut count) {
                Ok(()) => {},
                Err(e) => {
                    proof {
                        lemma_rotate_services_err(*configs, *input, protocol, svcs, gens, init, (s + 1) as nat, svcs.len());
                    }
                    return Err(e);
                },
            }
        }
        s = s + 1;
    }
    if plan.edits.len() == 0 {
        return Err(Error::plain(ErrorKind::NoMatchedIdentities));
    }
    Ok(plan)
}

/// Without generated values an identity rotation changes nothing, or needs a value.
proof fn lemma_rotate_identities_empty(configs: ConfigSet, input: Input, protocol: Protocol, ids: Seq<IdentityView>,
    st: IdentityState, k: nat)
    ensures
        rotate_identities(configs, input, protocol, ids, Seq::empty(), st, k) == Ok::<IdentityState, ErrorKind>(st)
            || rotate_identities(configs, input, protocol, ids, Seq::empty(), st, k) == Err::<IdentityState, ErrorKind>(ErrorKind::Generator),
    decreases k,
{
    if k > 0 {
        lemma_rotate_identities_empty(configs, input, protocol, ids, st, (k - 1) as nat);
    }
}

proof fn lemma_rotate_services_empty(configs: ConfigSet, input: Input, protocol: Protocol, svcs: Seq<ServiceView>,
    init: IdentityState, s: nat)
    ensures
        rotate_services(configs, input, protocol, svcs, Seq::empty(), init, s) == Ok::<IdentityState, ErrorKind>(init)
            || rotate_services(configs, input, protocol, svcs, Seq::empty(), init, s) == Err::<IdentityState, ErrorKind>(ErrorKind::Generator),
    decreases s,
{
    if s > 0 {
        lemma_rotate_services_empty(configs, input, protocol, svcs, init, (s - 1) as nat);
        if s <= svcs.len() && svcs[s - 1].protocol == protocol {
            lemma_rotate_identities_empty(configs, input, protocol, svcs[s - 1].identities, init, svcs[s - 1].identities.len());
        }
    }
}

/// The form of a generated credential: a UUID, or the base64 text of
/// `PASSWORD_BYTES` random bytes.
pub open spec fn credential_text(kind: IdentityKind, v: Seq<char>) -> bool {
    match kind {
        IdentityKind::VlessUuid => uuid_parses(v),
        IdentityKind::Hysteria2Password => base64_text(v, PASSWORD_BYTES as nat),
    }
}

/// A fresh credential of the kind from sing-box.
pub(crate) fn generate_credential<S: SingBox>(kind: IdentityKind, singbox: &S) -> (r: Result<String, Error>)
    ensures
        r matches Ok(v) ==> credential_text(kind, v@),
        r matches Err(e) ==> generator_failure(e.kind),
{
    match kind {
        IdentityKind::VlessUuid => singbox.generate_uuid(),
        IdentityKind::Hysteria2Password => singbox.generate_random_base64(PASSWORD_BYTES),
    }
}

/// Rotates the selected identities of one service, generating a credential for
/// each and recording it in `generated`.
fn service_generating<S: SingBox>(configs: &ConfigSet, input: &Input, kind: IdentityKind, service: &ServiceBinding, singbox: &S,
    generated: &mut Vec<String>, used: &mut Vec<String>, plan: &mut RotationPlan, count: &mut usize) -> (r: Result<(), Error>)
    requires
        *old(count) == old(generated)@.len(),
    ensures
        final(plan).operation == old(plan).operation,
        forall|i: int| old(generated)@.len() <= i < final(generated)@.len()
            ==> credential_text(kind, #[trigger] strings_of(final(generated)@)[i]),
        r is Ok ==> *final(count) == final(generated)@.len()
            && extends(strings_of(old(generated)@), strings_of(final(generated)@))
            && rotate_identities(*configs, *input, kind.spec_protocol(), service@.identities, strings_of(final(generated)@),
                    state_of(old(used)@, old(plan)@, *old(count)), service@.identities.len())
                == Ok::<IdentityState, ErrorKind>(state_of(final(used)@, final(plan)@, *final(count)))
            && strings_of(final(plan).contexts@) == strings_of(old(plan).contexts@)
                + identities_lines(*configs, *input, kind.spec_protocol(), service@, service@.identities.len()),
        r matches Err(e) ==> extends(strings_of(old(generated)@), strings_of(final(generated)@))
            && (rotate_identities(*configs, *input, kind.spec_protocol(), service@.identities, strings_of(final(generated)@),
                    state_of(old(used)@, old(plan)@, *old(count)), service@.identities.len()) == Err::<IdentityState, ErrorKind>(e.kind)
                || (generator_failure(e.kind) && rotate_identities(*configs, *input, kind.spec_protocol(), service@.identities,
                    strings_of(final(generated)@), state_of(old(used)@, old(plan)@, *old(count)), service@.identities.len())
                    == Err::<IdentityState, ErrorKind>(ErrorKind::Generator))),
{
    let protocol = kind.protocol();
    let ghost ids = service@.identities;
    let ghost st0 = state_of(used@, plan@, *count);
    let ghost g0 = strings_of(generated@);
    let ghost op = plan.operation;
    let mut k: usize = 0;
    assert(g0.take(g0.len() as int) =~= g0);
    while k < service.identities.len()
        invariant
            protocol == kind.spec_protocol(),
            ids == service@.identities,
            st0 == state_of(old(used)@, old(plan)@, *old(count)),
            g0 == strings_of(old(generated)@),
            st0.count == g0.len(),
            op == old(plan).operation,
            k <= ids.len(),
            plan.operation == op,
            *count == generated@.len(),
            extends(g0, strings_of(generated@)),
            forall|i: int| g0.len() <= i < generated@.len() ==> credential_text(kind, #[trigger] strings_of(generated@)[i]),
            rotate_identities(*configs, *input, protocol, ids, strings_of(generated@), st0, k as nat)
                == Ok::<IdentityState, ErrorKind>(state_of(used@, plan@, *count)),
            strings_of(plan.contexts@) == strings_of(old(plan).contexts@) + identities_lines(*configs, *input, protocol, service@, k as nat),
        decreases ids.len() - k,
    {
        let identity = &service.identities[k];
        assert(ids[k as int] == identity@);
        if any_selected(configs, input, &identity.clients, true) {
            let v = match generate_credential(kind, singbox) {
                Ok(v) => v,
                Err(e) => {
                    proof {
                        lemma_rotate_identities_err(*configs, *input, protocol, ids, strings_of(generated@), st0, (k + 1) as nat, ids.len());
                    }
                    return Err(e);
                },
            };
            let ghost before = strings_of(generated@);
            generated.push(v.clone());
            let ghost after = strings_of(generated@);
            assert(after =~= before.push(v@));
            assert(forall|i: int| g0.len() <= i < generated@.len() ==> credential_text(kind, #[trigger] strings_of(generated@)[i])) by {
                assert forall|i: int| g0.len() <= i < generated@.len() implies credential_text(kind, #[trigger] strings_of(generated@)[i]) by {
                    if i < before.len() {
                        assert(after[i] == before[i]);
                    }
                }
            }
            proof {
                assert(after.take(before.len() as int) =~= before);
                assert(after.take(g0.len() as int) =~= before.take(g0.len() as int));
                lemma_rotate_identities_extend(*configs, *input, protocol, ids, before, after, st0, k as nat);
            }
            assert(after[*count as int] == v@);
            match rotate_identity_to(configs, protocol, service, identity, &v, used, plan) {
                Ok(()) => {},
                Err(e) => {
                    proof {
                        lemma_rotate_identities_err(*configs, *input, protocol, ids, after, st0, (k + 1) as nat, ids.len());
                    }
                    return Err(e);
                },
            }
            *count = generated.len();
        }
        assert(strings_of(plan.contexts@) =~= strings_of(old(plan).contexts@)
            + identities_lines(*configs, *input, protocol, service@, (k + 1) as nat));
        k = k + 1;
    }
    Ok(())
}

/// Rotates every identity of the kind's protocol that has a selected client: one
/// fresh credential per identity (one generator call each), written to all its
/// server users and all its bound clients. A credential that collides with any
/// credential in the supplied configs, or with one generated before, is refused.
pub fn identities<S: SingBox>(configs: &ConfigSet, inventory: &Inventory, input: &Input, kind: IdentityKind, singbox: &S)
    -> (r: Result<RotationPlan, Error>)
    ensures
        has_ambiguity(inventory@, kind.spec_protocol()) ==> (r matches Err(e) && e.kind == ErrorKind::Ambiguous),
        identities_outcome(*configs, inventory@, *input, kind, Seq::empty()) matches Err(k)
            ==> (k != ErrorKind::Generator ==> (r matches Err(e) && e.kind == k)),
        r matches Err(e) ==> generator_failure(e.kind)
            || exists|gens: Seq<Seq<char>>| identities_outcome(*configs, inventory@, *input, kind, gens) == Err::<Seq<EditView>, ErrorKind>(e.kind),
        r matches Ok(p) ==> p.operation == OperationKind::Rotate(rotation_of_identity(kind))
            && strings_of(p.contexts@) == identities_contexts(*configs, inventory@, *input, kind)
            && exists|gens: Seq<Seq<char>>| (forall|i: int| 0 <= i < gens.len() ==> credential_text(kind, #[trigger] gens[i]))
                && gens.len() == selected_identities(*configs, *input, kind.spec_protocol(), inventory@.services, inventory@.services.len())
                && identities_outcome(*configs, inventory@, *input, kind, gens) == Ok::<Seq<EditView>, ErrorKind>(p@),
{
    let protocol = kind.protocol();
    match inventory.ensure_unambiguous(protocol) {
        Ok(()) => {},
        Err(e) => {
            assert(identities_outcome(*configs, inventory@, *input, kind, Seq::empty()) == Err::<Seq<EditView>, ErrorKind>(e.kind));
            return Err(e);
        },
    }
    let ghost svcs = inventory@.services;
    let ghost none = rotate_services(*configs, *input, protocol, svcs, Seq::empty(), initial_identity_state(*configs, protocol), svcs.len())
        == Ok::<IdentityState, ErrorKind>(initial_identity_state(*configs, protocol));
    proof {
        lemma_rotate_services_empty(*configs, *input, protocol, svcs, initial_identity_state(*configs, protocol), svcs.len());
    }
    let mut used = credentials_in_use(configs, protocol);
    let ghost init = initial_identity_state(*configs, protocol);
    let mut plan = RotationPlan::new(OperationKind::Rotate(RotationKind::from(kind)));
    let mut generated: Vec<String> = Vec::new();
    let mut count: usize = 0;
    let mut s: usize = 0;
    assert(state_of(used@, plan@, count) == init);
    assert(strings_of(plan.contexts@) =~= Seq::<Seq<char>>::empty());
    while s < inventory.services.len()
        invariant
            svcs == inventory@.services,
            init == initial_identity_state(*configs, protocol),
            protocol == kind.spec_protocol(),
            !has_ambiguity(inventory@, protocol),
            s <= svcs.len(),
            count == generated@.len(),
            forall|i: int| 0 <= i < generated@.len() ==> credential_text(kind, #[trigger] strings_of(generated@)[i]),
            plan.operation == OperationKind::Rotate(rotation_of_identity(kind)),
            rotate_services(*configs, *input, protocol, svcs, strings_of(generated@), init, s as nat)
                == Ok::<IdentityState, ErrorKind>(state_of(used@, plan@, count)),
            strings_of(plan.contexts@) == services_lines(*configs, *input, protocol, svcs, s as nat),
            none == (rotate_services(*configs, *input, protocol, svcs, Seq::empty(), init, svcs.len()) == Ok::<IdentityState, ErrorKind>(init)),
            none ==> state_of(used@, plan@, count) == init,
            !none ==> rotate_services(*configs, *input, protocol, svcs, Seq::empty(), init, svcs.len())
                == Err::<IdentityState, ErrorKind>(ErrorKind::Generator),
        decreases svcs.len() - s,
    {
        let service = &inventory.services[s];
        assert(svcs[s as int] == service@);
        if service.protocol == protocol {
            let ghost before = strings_of(generated@);
            let ghost empty = Seq::<Seq<char>>::empty();
            proof {
                if none {
                    assert(empty.take(0) =~= empty);
                    lemma_rotate_services_empty(*configs, *input, protocol, svcs, init, (s + 1) as nat);
                    if rotate_services(*configs, *input, protocol, svcs, empty, init, (s + 1) as nat) is Err {
                        lemma_rotate_services_err(*configs, *input, protocol, svcs, empty, init, (s + 1) as nat, svcs.len());
                    }
                    lemma_rotate_services_empty(*configs, *input, protocol, svcs, init, s as nat);
                    if rotate_services(*configs, *input, protocol, svcs, empty, init, s as nat) is Err {
                        lemma_rotate_services_err(*configs, *input, protocol, svcs, empty, init, s as nat, svcs.len());
                    }
                }
            }
            let step = service_generating(configs, input, kind, service, singbox, &mut generated, &mut used, &mut plan, &mut count);
            proof {
                if none {
                    let after = strings_of(generated@);
                    assert(after.take(0) =~= empty);
                    lemma_rotate_services_extend(*configs, *input, protocol, svcs, empty, after, init, (s + 1) as nat);
                    lemma_rotate_services_extend(*configs, *input, protocol, svcs, empty, after, init, s as nat);
                    assert(before.take(0) =~= empty);
                    lemma_rotate_services_extend(*configs, *input, protocol, svcs, empty, before, init, s as nat);
                }
            }
            match step {
                Ok(()) => {},
                Err(e) => {
                    proof {
                        if none {
                            let after = strings_of(generated@);
                            assert(rotate_services(*configs, *input, protocol, svcs, after, init, s as nat) == Ok::<IdentityState, ErrorKind>(init));
                            assert(rotate_services(*configs, *input, protocol, svcs, after, init, (s + 1) as nat)
                                == rotate_identities(*configs, *input, protocol, service@.identities, after, init, service@.identities.len()));
                            assert(false);
                        }
                        let after = strings_of(generated@);
                        if !generator_failure(e.kind) {
                            lemma_rotate_services_extend(*configs, *input, protocol, svcs, before, after, init, s as nat);
                            assert(rotate_services(*configs, *input, protocol, svcs, after, init, (s + 1) as nat)
                                == Err::<IdentityState, ErrorKind>(e.kind));
                            lemma_rotate_services_err(*configs, *input, protocol, svcs, after, init, (s + 1) as nat, svcs.len());
                            assert(identities_outcome(*configs, inventory@, *input, kind, after) == Err::<Seq<EditView>, ErrorKind>(e.kind));
                        }
                    }
                    return Err(e);
                },
            }
            proof {
                lemma_rotate_services_extend(*configs, *input, protocol, svcs, before, strings_of(generated@), init, s as nat);
                let after = strings_of(generated@);
                assert forall|i: int| 0 <= i < generated@.len() implies credential_text(kind, #[trigger] strings_of(generated@)[i]) by {
                    if i < before.len() {
                        assert(after.take(before.len() as int)[i] == after[i]);
                    }
                }
            }
        }
        s = s + 1;
    }
    if plan.edits.len() == 0 {
        assert(identities_outcome(*configs, inventory@, *input, kind, strings_of(generated@))
            == Err::<Seq<EditView>, ErrorKind>(ErrorKind::NoMatchedIdentities));
        return Err(Error::plain(ErrorKind::NoMatchedIdentities));
    }
    assert(identities_outcome(*configs, inventory@, *input, kind, strings_of(generated@)) == Ok::<Seq<EditView>, ErrorKind>(plan@));
    proof {
        lemma_rotate_services_count(*configs, *input, protocol, svcs, strings_of(generated@), init, svcs.len());
    }
    Ok(plan)
}

/// What a rotation of `kind` refuses before generating anything: for user
/// credentials, what the rotation gives with no generated values at all (an
/// ambiguous binding, or no selected identity), unless it only lacks a value.
pub open spec fn rotation_refusal(configs: ConfigSet, inv: InventoryView, input: Input, kind: RotationKind) -> Option<ErrorKind> {
    match kind {
        RotationKind::VlessUuid | RotationKind::Hysteria2Password =>
            match identities_outcome(configs, inv, input, kind.spec_identity()->Some_0, Seq::empty()) {
                Err(k) => if k == ErrorKind::Generator { None } else { Some(k) },
                Ok(_) => None,
            },
        RotationKind::VlessRealityShortId => match short_id_preflight(configs, inv, input) {
            Err(e) => Some(e),
            Ok(_) => None,
        },
        RotationKind::VlessRealityKeypair => match keypair_preflight(configs, inv, input) {
            Err(e) => Some(e),
            Ok(_) => None,
        },
        RotationKind::Hysteria2ObfsPassword => match obfs_preflight(configs, inv, input) {
            Err(e) => Some(e),
            Ok(_) => None,
        },
    }
}

/// `edits` is a rotation of `kind` for some values sing-box could generate, each
/// of the form it promises.
pub open spec fn rotation_for_some_values(configs: ConfigSet, inv: InventoryView, input: Input, kind: RotationKind, edits: Seq<EditView>) -> bool {
    match kind {
        RotationKind::VlessUuid | RotationKind::Hysteria2Password => exists|gens: Seq<Seq<char>>|
            (forall|i: int| 0 <= i < gens.len() ==> credential_text(kind.spec_identity()->Some_0, #[trigger] gens[i]))
            && identities_outcome(configs, inv, input, kind.spec_identity()->Some_0, gens) == Ok::<Seq<EditView>, ErrorKind>(edits),
        RotationKind::VlessRealityShortId => exists|gens: Seq<Seq<char>>|
            (forall|i: int| 0 <= i < gens.len() ==> hex_text(#[trigger] gens[i], SHORT_ID_BYTES as nat))
            && short_ids_outcome(configs, inv, input, gens) == Ok::<Seq<EditView>, ErrorKind>(edits),
        RotationKind::VlessRealityKeypair => exists|private: Seq<char>, public: Seq<char>|
            keypair_outcome(configs, inv, input, private, public) == Ok::<Seq<EditView>, ErrorKind>(edits),
        RotationKind::Hysteria2ObfsPassword => exists|v: Seq<char>| base64_text(v, PASSWORD_BYTES as nat)
            && obfs_outcome(configs, inv, input, v) == Ok::<Seq<EditView>, ErrorKind>(edits),
    }
}

/// A rotation of `kind` fails with `k` for some values sing-box could generate.
pub open spec fn rotation_fails_for_some_values(configs: ConfigSet, inv: InventoryView, input: Input, kind: RotationKind, k: ErrorKind) -> bool {
    match kind {
        RotationKind::VlessUuid | RotationKind::Hysteria2Password => exists|gens: Seq<Seq<char>>|
            identities_outcome(configs, inv, input, kind.spec_identity()->Some_0, gens) == Err::<Seq<EditView>, ErrorKind>(k),
        RotationKind::VlessRealityShortId => exists|gens: Seq<Seq<char>>|
            short_ids_outcome(configs, inv, input, gens) == Err::<Seq<EditView>, ErrorKind>(k),
        RotationKind::VlessRealityKeypair => exists|private: Seq<char>, public: Seq<char>|
            keypair_outcome(configs, inv, input, private, public) == Err::<Seq<EditView>, ErrorKind>(k),
        RotationKind::Hysteria2ObfsPassword => exists|v: Seq<char>|
            obfs_outcome(configs, inv, input, v) == Err::<Seq<EditView>, ErrorKind>(k),
    }
}

/// The context lines of a rotation of `kind`, once its preflight passes.
pub open spec fn rotation_contexts(configs: ConfigSet, inv: InventoryView, input: Input, kind: RotationKind) -> Option<Seq<Seq<char>>> {
    match kind {
        RotationKind::VlessUuid | RotationKind::Hysteria2Password =>
            Some(identities_contexts(configs, inv, input, kind.spec_identity()->Some_0)),
        RotationKind::VlessRealityShortId => short_id_context(configs, inv, input),
        RotationKind::VlessRealityKeypair => keypair_context(configs, inv, input),
        RotationKind::Hysteria2ObfsPassword => obfs_context(configs, inv, input),
    }
}

/// Plans a rotation of the given kind.
pub fn rotation<S: SingBox>(configs: &ConfigSet, inventory: &Inventory, input: &Input, kind: RotationKind, singbox: &S)
    -> (r: Result<RotationPlan, Error>)
    ensures
        rotation_refusal(*configs, inventory@, *input, kind) matches Some(k) ==> (r matches Err(e) && e.kind == k),
        r matches Err(e) ==> (rotation_refusal(*configs, inventory@, *input, kind) matches Some(k) && e.kind == k)
            || generator_failure(e.kind) || rotation_fails_for_some_values(*configs, inventory@, *input, kind, e.kind),
        r matches Ok(p) ==> p.operation == OperationKind::Rotate(kind)
            && rotation_contexts(*configs, inventory@, *input, kind) == Some(strings_of(p.contexts@))
            && rotation_for_some_values(*configs, inventory@, *input, kind, p@),
{
    match kind {
        RotationKind::VlessUuid => identities(configs, inventory, input, IdentityKind::VlessUuid, singbox),
        RotationKind::Hysteria2Password => identities(configs, inventory, input, IdentityKind::Hysteria2Password, singbox),
        RotationKind::VlessRealityShortId => short_ids(configs, inventory, input, singbox),
        RotationKind::VlessRealityKeypair => keypair(configs, inventory, input, singbox),
        RotationKind::Hysteria2ObfsPassword => obfs_password(configs, inventory, input, singbox),
    }
}

/// Whether the values of an edit are secrets that a plan does not display: user
/// passwords, obfs passwords, short IDs and the Reality private key. UUIDs,
/// public keys and service properties are shown.
pub open spec fn masked(op: OperationKind, e: EditView) -> bool {
    match op {
        OperationKind::Rotate(RotationKind::VlessUuid) => false,
        OperationKind::Rotate(RotationKind::VlessRealityKeypair) => has_suffix(e.target.pointer, "/private_key"@),
        OperationKind::Property(_) => false,
        OperationKind::Material(Protocol::Vless) => has_suffix(e.target.pointer, "/private_key"@)
            || has_suffix(e.target.pointer, "/short_id"@),
        _ => true,
    }
}

/// How a plan displays one value of an edit.
pub open spec fn shown(hide: bool, v: Option<JsonView>) -> Seq<char> {
    if hide {
        "********"@
    } else {
        match v {
            Some(j) => json_text(j),
            None => "(absent)"@,
        }
    }
}

/// The line of one edit: its location, then the old and the new value.
pub open spec fn edit_line(op: OperationKind, e: EditView) -> Seq<char> {
    "  "@ + e.target.file + "#"@ + e.target.pointer + ": "@ + shown(masked(op, e), e.old) + " -> "@ + shown(masked(op, e), e.new)
}

/// Lines joined by line breaks.
pub open spec fn joined(lines: Seq<Seq<char>>) -> Seq<char>
    decreases lines.len(),
{
    if lines.len() == 0 {
        Seq::empty()
    } else if lines.len() == 1 {
        lines[0]
    } else {
        joined(lines.drop_last()) + "\n"@ + lines.last()
    }
}

fn push_shown(out: &mut String, hide: bool, v: &Option<Json>)
    ensures
        final(out)@ == old(out)@ + shown(hide, option_view(*v)),
{
    if hide {
        append_str(out, "********");
    } else {
        match v {
            Some(j) => {
                let t = j.text();
                append_str(out, t.as_str());
            },
            None => append_str(out, "(absent)"),
        }
    }
}

/// Appends a line, after a line break unless it is the first.
fn push_line(out: &mut String, line: &str, first: bool, lines: Ghost<Seq<Seq<char>>>)
    requires
        old(out)@ == joined(lines@),
        first == (lines@.len() == 0),
    ensures
        final(out)@ == joined(lines@.push(line@)),
{
    if !first {
        append_str(out, "\n");
    }
    append_str(out, line);
    proof {
        let ls = lines@.push(line@);
        assert(ls.drop_last() =~= lines@);
        if lines@.len() == 0 {
            assert(out@ =~= line@);
        }
    }
}

impl RotationPlan {
    /// The plan as text: its context lines, then one line per edit with secrets masked.
    pub fn render(&self) -> (r: String)
        ensures
            r@ == joined(strings_of(self.contexts@) + self@.map_values(|e: EditView| edit_line(self.operation, e))),
    {
        let mut out = String::new();
        let ghost mut lines: Seq<Seq<char>> = Seq::empty();
        let mut first = true;
        let mut i: usize = 0;
        while i < self.contexts.len()
            invariant
                i <= self.contexts@.len(),
                lines == strings_of(self.contexts@).take(i as int),
                out@ == joined(lines),
                first == (lines.len() == 0),
            decreases self.contexts@.len() - i,
        {
            push_line(&mut out, self.contexts[i].as_str(), first, Ghost(lines));
            first = false;
            proof {
                lines = lines.push(self.contexts@[i as int]@);
            }
            assert(lines =~= strings_of(self.contexts@).take(i + 1));
            i = i + 1;
        }
        assert(lines =~= strings_of(self.contexts@));
        let ghost ctx = lines;
        let mut k: usize = 0;
        while k < self.edits.len()
            invariant
                k <= self.edits@.len(),
                ctx == strings_of(self.contexts@),
                lines == ctx + self@.take(k as int).map_values(|e: EditView| edit_line(self.operation, e)),
                out@ == joined(lines),
                first == (lines.len() == 0),
            decreases self.edits@.len() - k,
        {
            let edit = &self.edits[k];
            let mut line = String::new();
            append_str(&mut line, "  ");
            append_str(&mut line, edit.target.file.as_str());
            append_str(&mut line, "#");
            append_str(&mut line, edit.target.pointer.as_str());
            append_str(&mut line, ": ");
            let hide = match self.operation {
                OperationKind::Rotate(RotationKind::VlessUuid) => false,
                OperationKind::Rotate(RotationKind::VlessRealityKeypair) => ends_with_str(edit.target.pointer.as_str(), "/private_key"),
                OperationKind::Property(_) => false,
                OperationKind::Material(Protocol::Vless) => ends_with_str(edit.target.pointer.as_str(), "/private_key")
                    || ends_with_str(edit.target.pointer.as_str(), "/short_id"),
                _ => true,
            };
            assert(self@[k as int] == edit@);
            assert(hide == masked(self.operation, edit@));
            push_shown(&mut line, hide, &edit.old);
            append_str(&mut line, " -> ");
            push_shown(&mut line, hide, &edit.new);
            assert(line@ =~= edit_line(self.operation, edit@));
            push_line(&mut out, line.as_str(), first, Ghost(lines));
            first = false;
            proof {
                lines = lines.push(line@);
            }
            assert(self@.take(k + 1).map_values(|e: EditView| edit_line(self.operation, e))
                =~= self@.take(k as int).map_values(|e: EditView| edit_line(self.operation, e)).push(line@));
            assert(lines =~= ctx + self@.take(k + 1).map_values(|e: EditView| edit_line(self.operation, e)));
            k = k + 1;
        }
        assert(self@.take(k as int) =~= self@);
        out
    }
}

} // verus!
