//! A JSON document model with RFC 6901 pointer lookup and editing.
use vstd::prelude::*;
use serde_json::Value;
use crate::text::{str_equal, all_digits, chars_of, decimal_value, is_digit, lemma_decimal_value_prefix, string_of};

verus! {

/// A JSON number: integers keep their value, other numbers keep their text.
pub enum JsonNumber {
    Unsigned(u64),
    Negative(i64),
    Other(String),
}

pub enum NumberView {
    Unsigned(u64),
    Negative(i64),
    Other(Seq<char>),
}

pub struct Member {
    pub key: String,
    pub value: Json,
}

pub enum Json {
    Null,
    Bool(bool),
    Number(JsonNumber),
    String(String),
    Array(Vec<Json>),
    Object(Vec<Member>),
}

pub enum JsonView {
    Null,
    Bool(bool),
    Number(NumberView),
    String(Seq<char>),
    Array(Seq<JsonView>),
    Object(Seq<(Seq<char>, JsonView)>),
}

impl JsonNumber {
    pub open spec fn view(&self) -> NumberView {
        match self {
            JsonNumber::Unsigned(n) => NumberView::Unsigned(*n),
            JsonNumber::Negative(n) => NumberView::Negative(*n),
            JsonNumber::Other(s) => NumberView::Other(s@),
        }
    }
}

impl Json {
    pub open spec fn view(&self) -> JsonView
        decreases self,
    {
        match self {
            Json::Null => JsonView::Null,
            Json::Bool(b) => JsonView::Bool(*b),
            Json::Number(n) => JsonView::Number(n.view()),
            Json::String(s) => JsonView::String(s@),
            Json::Array(items) => JsonView::Array(
                Seq::new(
                    items@.len(),
                    |i: int|
                        if 0 <= i < items@.len() {
                            proof {
                                assert(decreases_to!(items => items@[i]));
                            }
                            items@[i].view()
                        } else {
                            JsonView::Null
                        },
                ),
            ),
            Json::Object(members) => JsonView::Object(
                Seq::new(
                    members@.len(),
                    |i: int|
                        if 0 <= i < members@.len() {
                            proof {
                                assert(decreases_to!(members => members@[i]));
                            }
                            (members@[i].key@, members@[i].value.view())
                        } else {
                            (Seq::empty(), JsonView::Null)
                        },
                ),
            ),
        }
    }
}


impl JsonNumber {
    pub fn duplicate(&self) -> (r: JsonNumber)
        ensures
            r.view() == self.view(),
    {
        match self {
            JsonNumber::Unsigned(n) => JsonNumber::Unsigned(*n),
            JsonNumber::Negative(n) => JsonNumber::Negative(*n),
            JsonNumber::Other(s) => JsonNumber::Other(s.clone()),
        }
    }

    pub fn same(&self, other: &JsonNumber) -> (r: bool)
        ensures
            r == (self.view() == other.view()),
    {
        match (self, other) {
            (JsonNumber::Unsigned(a), JsonNumber::Unsigned(b)) => *a == *b,
            (JsonNumber::Negative(a), JsonNumber::Negative(b)) => *a == *b,
            (JsonNumber::Other(a), JsonNumber::Other(b)) => *a == *b,
            _ => false,
        }
    }
}

impl Json {
    /// A copy with the same view.
    pub fn duplicate(&self) -> (r: Json)
        ensures
            r@ == self@,
        decreases self,
    {
        match self {
            Json::Null => Json::Null,
            Json::Bool(b) => Json::Bool(*b),
            Json::Number(n) => Json::Number(n.duplicate()),
            Json::String(s) => Json::String(s.clone()),
            Json::Array(items) => {
                let ghost sv = self@->Array_0;
                let mut out: Vec<Json> = Vec::new();
                let mut i: usize = 0;
                while i < items.len()
                    invariant
                        *self == Json::Array(*items),
                        sv == self@->Array_0,
                        i <= items@.len(),
                        out@.len() == i,
                        forall|k: int| 0 <= k < i ==> #[trigger] out@[k]@ == items@[k]@,
                    decreases items@.len() - i,
                {
                    proof {
                        assert(decreases_to!(*self => items@[i as int]));
                    }
                    let c = items[i].duplicate();
                    out.push(c);
                    i = i + 1;
                }
                let r = Json::Array(out);
                assert forall|k: int| 0 <= k < sv.len() implies #[trigger] r@->Array_0[k] == sv[k] by {
                    assert(out@[k]@ == items@[k]@);
                }
                assert(r@->Array_0 =~= sv);
                r
            },
            Json::Object(members) => {
                let ghost sv = self@->Object_0;
                let mut out: Vec<Member> = Vec::new();
                let mut i: usize = 0;
                while i < members.len()
                    invariant
                        *self == Json::Object(*members),
                        sv == self@->Object_0,
                        i <= members@.len(),
                        out@.len() == i,
                        forall|k: int|
                            0 <= k < i ==> #[trigger] out@[k].key@ == members@[k].key@
                                && out@[k].value@ == members@[k].value@,
                    decreases members@.len() - i,
                {
                    proof {
                        assert(decreases_to!(*self => members@[i as int].value));
                    }
                    let v = members[i].value.duplicate();
                    out.push(Member { key: members[i].key.clone(), value: v });
                    i = i + 1;
                }
                let r = Json::Object(out);
                assert(r@->Object_0 =~= sv);
                r
            },
        }
    }

    /// Structural equality of the views.
    pub fn same(&self, other: &Json) -> (r: bool)
        ensures
            r == (self@ == other@),
        decreases self,
    {
        match (self, other) {
            (Json::Null, Json::Null) => true,
            (Json::Bool(a), Json::Bool(b)) => *a == *b,
            (Json::Number(a), Json::Number(b)) => a.same(b),
            (Json::String(a), Json::String(b)) => *a == *b,
            (Json::Array(a), Json::Array(b)) => {
                let ghost sa = self@->Array_0;
                let ghost sb = other@->Array_0;
                if a.len() != b.len() {
                    assert(sa.len() != sb.len());
                    return false;
                }
                let mut i: usize = 0;
                while i < a.len()
                    invariant
                        *self == Json::Array(*a),
                        *other == Json::Array(*b),
                        sa == self@->Array_0,
                        sb == other@->Array_0,
                        i <= a@.len(),
                        a@.len() == b@.len(),
                        forall|k: int| 0 <= k < i ==> #[trigger] a@[k]@ == b@[k]@,
                    decreases a@.len() - i,
                {
                    proof {
                        assert(decreases_to!(*self => a@[i as int]));
                    }
                    if !a[i].same(&b[i]) {
                        assert(sa[i as int] != sb[i as int]);
                        return false;
                    }
                    i = i + 1;
                }
                assert forall|k: int| 0 <= k < sa.len() implies #[trigger] sa[k] == sb[k] by {
                    assert(a@[k]@ == b@[k]@);
                }
                assert(sa =~= sb);
                true
            },
            (Json::Object(a), Json::Object(b)) => {
                let ghost sa = self@->Object_0;
                let ghost sb = other@->Object_0;
                if a.len() != b.len() {
                    assert(sa.len() != sb.len());
                    return false;
                }
                let mut i: usize = 0;
                while i < a.len()
                    invariant
                        *self == Json::Object(*a),
                        *other == Json::Object(*b),
                        sa == self@->Object_0,
                        sb == other@->Object_0,
                        i <= a@.len(),
                        a@.len() == b@.len(),
                        forall|k: int| 0 <= k < i ==> #[trigger] a@[k].key@ == b@[k].key@,
                        forall|k: int| 0 <= k < i ==> #[trigger] a@[k].value@ == b@[k].value@,
                    decreases a@.len() - i,
                {
                    proof {
                        assert(decreases_to!(*self => a@[i as int].value));
                    }
                    let same_key = a[i].key == b[i].key;
                    if !same_key {
                        assert(sa[i as int] != sb[i as int]);
                        return false;
                    }
                    assert(a@[i as int].key@ == b@[i as int].key@);
                    let same_value = a[i].value.same(&b[i].value);
                    if !same_value {
                        assert(sa[i as int] != sb[i as int]);
                        return false;
                    }
                    assert(a@[i as int].value@ == b@[i as int].value@);
                    i = i + 1;
                }
                assert forall|k: int| 0 <= k < sa.len() implies #[trigger] sa[k] == sb[k] by {
                    assert(a@[k].key@ == b@[k].key@);
                    assert(a@[k].value@ == b@[k].value@);
                }
                assert(sa =~= sb);
                true
            },
            _ => false,
        }
    }
}


// ---------------------------------------------------------------------------
// JSON pointers (RFC 6901): "/a/b~1c" names member "a", then member "b/c".

pub open spec fn strings_view(v: Seq<String>) -> Seq<Seq<char>> {
    v.map_values(|s: String| s@)
}

/// Progress of reading a pointer after its leading '/'.
pub struct PointerScan {
    pub done: Seq<Seq<char>>,
    pub current: Seq<char>,
    pub escape: bool,
    pub valid: bool,
}

pub open spec fn pointer_scan_step(st: PointerScan, c: char) -> PointerScan {
    if !st.valid {
        st
    } else if st.escape {
        if c == '0' {
            PointerScan { current: st.current.push('~'), escape: false, ..st }
        } else if c == '1' {
            PointerScan { current: st.current.push('/'), escape: false, ..st }
        } else {
            PointerScan { valid: false, escape: false, ..st }
        }
    } else if c == '~' {
        PointerScan { escape: true, ..st }
    } else if c == '/' {
        PointerScan { done: st.done.push(st.current), current: Seq::empty(), ..st }
    } else {
        PointerScan { current: st.current.push(c), ..st }
    }
}

pub open spec fn pointer_scan(s: Seq<char>) -> PointerScan
    decreases s.len(),
{
    if s.len() == 0 {
        PointerScan { done: Seq::empty(), current: Seq::empty(), escape: false, valid: true }
    } else {
        pointer_scan_step(pointer_scan(s.drop_last()), s.last())
    }
}

/// The reference tokens of a pointer; `None` when it does not start with '/'
/// or holds a '~' that is not followed by '0' or '1'.
pub open spec fn pointer_tokens(p: Seq<char>) -> Option<Seq<Seq<char>>> {
    if p.len() == 0 {
        Some(Seq::empty())
    } else if p[0] != '/' {
        None
    } else {
        let st = pointer_scan(p.drop_first());
        if st.valid && !st.escape {
            Some(st.done.push(st.current))
        } else {
            None
        }
    }
}

/// Splits a pointer into its unescaped reference tokens.
pub fn parse_pointer(p: &str) -> (r: Option<Vec<String>>)
    ensures
        match r {
            Some(v) => pointer_tokens(p@) == Some(strings_view(v@)),
            None => pointer_tokens(p@) is None,
        },
{
    let cs = chars_of(p);
    if cs.len() == 0 {
        let v: Vec<String> = Vec::new();
        assert(strings_view(v@) =~= Seq::<Seq<char>>::empty());
        return Some(v);
    }
    if cs[0] != '/' {
        return None;
    }
    let ghost body = cs@.drop_first();
    let mut done: Vec<String> = Vec::new();
    let mut current: Vec<char> = Vec::new();
    let mut escape = false;
    let mut valid = true;
    let mut i: usize = 1;
    assert(body.take(0) =~= Seq::<char>::empty());
    while i < cs.len()
        invariant
            cs@ == p@,
            body == cs@.drop_first(),
            1 <= i <= cs@.len(),
            ({
                let st = pointer_scan(body.take(i - 1));
                &&& st.done == strings_view(done@)
                &&& st.current == current@
                &&& st.escape == escape
                &&& st.valid == valid
            }),
        decreases cs@.len() - i,
    {
        let c = cs[i];
        assert(body.take(i as int).drop_last() =~= body.take(i - 1));
        assert(body.take(i as int).last() == c);
        if valid {
            if escape {
                if c == '0' {
                    current.push('~');
                } else if c == '1' {
                    current.push('/');
                } else {
                    valid = false;
                }
                escape = false;
            } else if c == '~' {
                escape = true;
            } else if c == '/' {
                let token = string_of(&current);
                done.push(token);
                current = Vec::new();
                assert(strings_view(done@) =~= pointer_scan(body.take(i - 1)).done.push(token@));
            } else {
                current.push(c);
            }
        }
        i = i + 1;
    }
    assert(body.take(cs@.len() - 1) =~= body);
    if valid && !escape {
        let token = string_of(&current);
        done.push(token);
        assert(strings_view(done@) =~= pointer_scan(body).done.push(token@));
        Some(done)
    } else {
        None
    }
}

/// A token used as an array index: decimal digits, no leading zero.
pub open spec fn array_index(t: Seq<char>) -> Option<nat> {
    if t.len() == 0 || !all_digits(t) || (t[0] == '0' && t.len() != 1) {
        None
    } else {
        Some(decimal_value(t))
    }
}

/// The array index named by a token, when it is below `limit`.
pub fn token_index(t: &String, limit: usize) -> (r: Option<usize>)
    ensures
        match r {
            Some(n) => array_index(t@) == Some(n as nat) && n < limit,
            None => !(array_index(t@) matches Some(n) && n < limit),
        },
{
    let cs = chars_of(t.as_str());
    let n = cs.len();
    if n == 0 {
        return None;
    }
    if cs[0] == '0' && n != 1 {
        return None;
    }
    if limit == 0 {
        return None;
    }
    let mut acc: usize = 0;
    let mut i: usize = 0;
    while i < n
        invariant
            n == cs@.len(),
            cs@ == t@,
            i <= n,
            all_digits(cs@.take(i as int)),
            acc == decimal_value(cs@.take(i as int)),
            acc < limit,
        decreases n - i,
    {
        let c = cs[i];
        if !('0' <= c && c <= '9') {
            assert(!all_digits(t@)) by {
                assert(!is_digit(t@[i as int]));
            }
            return None;
        }
        assert(cs@.take(i + 1).drop_last() =~= cs@.take(i as int));
        assert(all_digits(cs@.take(i + 1)));
        let d = (c as u32 - '0' as u32) as u128;
        let v: u128 = acc as u128 * 10 + d;
        assert(v == decimal_value(cs@.take(i + 1)));
        if v >= limit as u128 {
            // longer numerals only grow
            if i + 1 < n {
                let mut j: usize = i + 1;
                while j < n
                    invariant
                        n == cs@.len(),
                        cs@ == t@,
                        i + 1 <= j <= n,
                        all_digits(cs@.take(j as int)),
                    decreases n - j,
                {
                    let e = cs[j];
                    if !('0' <= e && e <= '9') {
                        assert(!is_digit(t@[j as int]));
                        return None;
                    }
                    assert(cs@.take(j + 1).drop_last() =~= cs@.take(j as int));
                    j = j + 1;
                }
                assert(cs@.take(n as int) =~= cs@);
                proof {
                    lemma_decimal_value_prefix(cs@, i + 1);
                }
            } else {
                assert(cs@.take(i + 1) =~= cs@);
            }
            return None;
        }
        acc = v as usize;
        i = i + 1;
    }
    assert(cs@.take(n as int) =~= cs@);
    Some(acc)
}


/// The position of the first member named `key`, searching from `i`.
pub open spec fn key_position_from(ms: Seq<(Seq<char>, JsonView)>, key: Seq<char>, i: int) -> Option<int>
    decreases ms.len() - i,
{
    if i < 0 || i >= ms.len() {
        None
    } else if ms[i].0 == key {
        Some(i)
    } else {
        key_position_from(ms, key, i + 1)
    }
}

pub open spec fn key_position(ms: Seq<(Seq<char>, JsonView)>, key: Seq<char>) -> Option<int> {
    key_position_from(ms, key, 0)
}

pub proof fn lemma_key_position_from(ms: Seq<(Seq<char>, JsonView)>, key: Seq<char>, i: int)
    requires
        0 <= i <= ms.len(),
        forall|k: int| 0 <= k < i ==> ms[k].0 != key,
    ensures
        key_position(ms, key) == key_position_from(ms, key, i),
    decreases i,
{
    if i > 0 {
        lemma_key_position_from(ms, key, i - 1);
    }
}

pub proof fn lemma_key_position_found(ms: Seq<(Seq<char>, JsonView)>, key: Seq<char>)
    ensures
        key_position(ms, key) matches Some(p) ==> 0 <= p < ms.len() && ms[p].0 == key
            && forall|k: int| 0 <= k < p ==> ms[k].0 != key,
        key_position(ms, key) is None ==> forall|k: int| 0 <= k < ms.len() ==> ms[k].0 != key,
{
    lemma_key_position_found_from(ms, key, 0);
}

proof fn lemma_key_position_found_from(ms: Seq<(Seq<char>, JsonView)>, key: Seq<char>, i: int)
    requires
        0 <= i,
    ensures
        key_position_from(ms, key, i) matches Some(p) ==> i <= p < ms.len() && ms[p].0 == key
            && forall|k: int| i <= k < p ==> ms[k].0 != key,
        key_position_from(ms, key, i) is None ==> forall|k: int| i <= k < ms.len() ==> ms[k].0 != key,
    decreases ms.len() - i,
{
    if i < ms.len() && ms[i].0 != key {
        lemma_key_position_found_from(ms, key, i + 1);
    }
}

/// The value reached from `j` by one reference token.
pub open spec fn child(j: JsonView, token: Seq<char>) -> Option<JsonView> {
    match j {
        JsonView::Object(ms) => match key_position(ms, token) {
            Some(p) => Some(ms[p].1),
            None => None,
        },
        JsonView::Array(items) => match array_index(token) {
            Some(n) => if n < items.len() { Some(items[n as int]) } else { None },
            None => None,
        },
        _ => None,
    }
}

/// The value that a token sequence names inside `j`.
pub open spec fn lookup(j: JsonView, tokens: Seq<Seq<char>>) -> Option<JsonView>
    decreases tokens.len(),
{
    if tokens.len() == 0 {
        Some(j)
    } else {
        match child(j, tokens[0]) {
            Some(c) => lookup(c, tokens.drop_first()),
            None => None,
        }
    }
}

/// The value a JSON pointer names inside `j`.
pub open spec fn lookup_pointer(j: JsonView, pointer: Seq<char>) -> Option<JsonView> {
    match pointer_tokens(pointer) {
        Some(t) => lookup(j, t),
        None => None,
    }
}

impl Json {
    /// The member named `key` of an object, when there is one.
    pub fn member<'a>(&'a self, key: &str) -> (r: Option<&'a Json>)
        ensures
            match r {
                Some(v) => self@ is Object && (key_position(self@->Object_0, key@) matches Some(p)
                    && self@->Object_0[p].1 == v@),
                None => !(self@ is Object) || key_position(self@->Object_0, key@) is None,
            },
    {
        match self {
            Json::Object(ms) => {
                let ghost sv = self@->Object_0;
                let mut i: usize = 0;
                while i < ms.len()
                    invariant
                        *self == Json::Object(*ms),
                        sv == self@->Object_0,
                        sv.len() == ms@.len(),
                        i <= ms@.len(),
                        forall|k: int| 0 <= k < i ==> sv[k].0 != key@,
                    decreases ms@.len() - i,
                {
                    assert(sv[i as int] == (ms@[i as int].key@, ms@[i as int].value@));
                    if str_equal(ms[i].key.as_str(), key) {
                        proof {
                            lemma_key_position_from(sv, key@, i as int);
                        }
                        return Some(&ms[i].value);
                    }
                    i = i + 1;
                }
                proof {
                    lemma_key_position_from(sv, key@, i as int);
                }
                None
            },
            _ => None,
        }
    }

    /// The value reached by one reference token.
    pub fn child_at<'a>(&'a self, token: &String) -> (r: Option<&'a Json>)
        ensures
            match r {
                Some(v) => child(self@, token@) == Some(v@),
                None => child(self@, token@) is None,
            },
    {
        match self {
            Json::Object(_) => self.member(token.as_str()),
            Json::Array(items) => {
                let ghost sv = self@->Array_0;
                match token_index(token, items.len()) {
                    Some(n) => {
                        assert(sv[n as int] == items@[n as int]@);
                        Some(&items[n])
                    },
                    None => None,
                }
            },
            _ => None,
        }
    }

    /// The value named by `tokens`.
    pub fn get<'a>(&'a self, tokens: &Vec<String>) -> (r: Option<&'a Json>)
        ensures
            match r {
                Some(v) => lookup(self@, strings_view(tokens@)) == Some(v@),
                None => lookup(self@, strings_view(tokens@)) is None,
            },
    {
        let r = self.get_prefix(tokens, tokens.len());
        assert(strings_view(tokens@).take(tokens@.len() as int) =~= strings_view(tokens@));
        r
    }

    /// The value named by the first `count` tokens.
    pub fn get_prefix<'a>(&'a self, tokens: &Vec<String>, count: usize) -> (r: Option<&'a Json>)
        requires
            count <= tokens@.len(),
        ensures
            match r {
                Some(v) => lookup(self@, strings_view(tokens@).take(count as int)) == Some(v@),
                None => lookup(self@, strings_view(tokens@).take(count as int)) is None,
            },
    {
        let ghost ts = strings_view(tokens@).take(count as int);
        let mut cur: &Json = self;
        let mut i: usize = 0;
        assert(ts.skip(0) =~= ts);
        while i < count
            invariant
                ts == strings_view(tokens@).take(count as int),
                count <= tokens@.len(),
                i <= count,
                lookup(self@, ts) == lookup(cur@, ts.skip(i as int)),
            decreases count - i,
        {
            assert(ts.skip(i as int)[0] == tokens@[i as int]@);
            assert(ts.skip(i as int).drop_first() =~= ts.skip(i + 1));
            match cur.child_at(&tokens[i]) {
                Some(c) => {
                    cur = c;
                },
                None => {
                    return None;
                },
            }
            i = i + 1;
        }
        assert(ts.skip(i as int) =~= Seq::<Seq<char>>::empty());
        Some(cur)
    }

    /// The value named by a JSON pointer.
    pub fn pointer<'a>(&'a self, pointer: &str) -> (r: Option<&'a Json>)
        ensures
            match r {
                Some(v) => lookup_pointer(self@, pointer@) == Some(v@),
                None => lookup_pointer(self@, pointer@) is None,
            },
    {
        match parse_pointer(pointer) {
            Some(tokens) => self.get(&tokens),
            None => None,
        }
    }
}


pub open spec fn members_view(ms: Seq<Member>) -> Seq<(Seq<char>, JsonView)> {
    Seq::new(ms.len(), |i: int| (ms[i].key@, ms[i].value@))
}

pub open spec fn items_view(items: Seq<Json>) -> Seq<JsonView> {
    Seq::new(items.len(), |i: int| items[i]@)
}

pub proof fn lemma_object_view(ms: Vec<Member>)
    ensures
        Json::Object(ms)@ == JsonView::Object(members_view(ms@)),
{
    assert(Json::Object(ms)@->Object_0 =~= members_view(ms@));
}

pub proof fn lemma_array_view(items: Vec<Json>)
    ensures
        Json::Array(items)@ == JsonView::Array(items_view(items@)),
{
    assert(Json::Array(items)@->Array_0 =~= items_view(items@));
}

/// The position of the first member named `key`.
pub fn find_member(ms: &Vec<Member>, key: &str) -> (r: Option<usize>)
    ensures
        match r {
            Some(p) => key_position(members_view(ms@), key@) == Some(p as int),
            None => key_position(members_view(ms@), key@) is None,
        },
{
    let ghost sv = members_view(ms@);
    let mut i: usize = 0;
    while i < ms.len()
        invariant
            sv == members_view(ms@),
            i <= ms@.len(),
            forall|k: int| 0 <= k < i ==> sv[k].0 != key@,
        decreases ms@.len() - i,
    {
        if str_equal(ms[i].key.as_str(), key) {
            proof {
                lemma_key_position_from(sv, key@, i as int);
            }
            return Some(i);
        }
        i = i + 1;
    }
    proof {
        lemma_key_position_from(sv, key@, i as int);
    }
    None
}

/// Sets (`Some`) or removes (`None`) the member or element that the last token
/// names inside `j`; the earlier tokens must name existing values.
pub open spec fn set_member(j: JsonView, token: Seq<char>, new: Option<JsonView>) -> Option<JsonView> {
    match j {
        JsonView::Object(ms) => match key_position(ms, token) {
            Some(p) => match new {
                Some(v) => Some(JsonView::Object(ms.update(p, (token, v)))),
                None => Some(JsonView::Object(ms.remove(p))),
            },
            None => match new {
                Some(v) => Some(JsonView::Object(ms.push((token, v)))),
                None => Some(j),
            },
        },
        JsonView::Array(items) => match (array_index(token), new) {
            (Some(n), Some(v)) => if n < items.len() {
                Some(JsonView::Array(items.update(n as int, v)))
            } else {
                None
            },
            _ => None,
        },
        _ => None,
    }
}

/// `j` with the child named by `token` replaced by `c`.
pub open spec fn replace_child(j: JsonView, token: Seq<char>, c: JsonView) -> JsonView {
    match j {
        JsonView::Object(ms) => match key_position(ms, token) {
            Some(p) => JsonView::Object(ms.update(p, (ms[p].0, c))),
            None => j,
        },
        JsonView::Array(items) => match array_index(token) {
            Some(n) => if n < items.len() { JsonView::Array(items.update(n as int, c)) } else { j },
            None => j,
        },
        _ => j,
    }
}

pub open spec fn set_path(j: JsonView, tokens: Seq<Seq<char>>, new: Option<JsonView>) -> Option<JsonView>
    decreases tokens.len(),
{
    if tokens.len() == 0 {
        None
    } else if tokens.len() == 1 {
        set_member(j, tokens[0], new)
    } else {
        match child(j, tokens[0]) {
            Some(c) => match set_path(c, tokens.drop_first(), new) {
                Some(c2) => Some(replace_child(j, tokens[0], c2)),
                None => None,
            },
            None => None,
        }
    }
}

pub open spec fn option_view(o: Option<Json>) -> Option<JsonView> {
    match o {
        Some(j) => Some(j@),
        None => None,
    }
}

/// What an edit at `tokens` replaces: `Some(None)` for an absent object member,
/// `Some(Some(v))` for an existing value, `None` when the location cannot be edited.
pub open spec fn edit_target(j: JsonView, tokens: Seq<Seq<char>>) -> Option<Option<JsonView>> {
    if tokens.len() == 0 {
        None
    } else {
        match lookup(j, tokens.drop_last()) {
            Some(JsonView::Object(ms)) => Some(
                match key_position(ms, tokens.last()) {
                    Some(p) => Some(ms[p].1),
                    None => None,
                },
            ),
            Some(JsonView::Array(items)) => match array_index(tokens.last()) {
                Some(n) => if n < items.len() { Some(Some(items[n as int])) } else { None },
                None => None,
            },
            _ => None,
        }
    }
}

impl Json {
    /// Sets or removes the value at `tokens[from..]`.
    pub fn set_path(self, tokens: &Vec<String>, from: usize, new: Option<Json>) -> (r: Option<Json>)
        requires
            from <= tokens@.len(),
        ensures
            option_view(r) == set_path(self@, strings_view(tokens@).skip(from as int), option_view(new)),
        decreases tokens@.len() - from,
    {
        let ghost ts = strings_view(tokens@).skip(from as int);
        let ghost sv = self@;
        if from >= tokens.len() {
            return None;
        }
        assert(ts[0] == tokens@[from as int]@);
        assert(ts.drop_first() =~= strings_view(tokens@).skip(from + 1));
        let last = from + 1 == tokens.len();
        match self {
            Json::Object(mut ms) => {
                proof {
                    lemma_object_view(ms);
                }
                match find_member(&ms, tokens[from].as_str()) {
                    Some(p) => {
                        proof {
                            lemma_key_position_found(members_view(ms@), ts[0]);
                        }
                        let m = ms.remove(p);
                        if last {
                            match new {
                                Some(v) => {
                                    ms.insert(p, Member { key: m.key, value: v });
                                },
                                None => {},
                            }
                        } else {
                            match m.value.set_path(tokens, from + 1, new) {
                                Some(c2) => {
                                    ms.insert(p, Member { key: m.key, value: c2 });
                                },
                                None => {
                                    return None;
                                },
                            }
                        }
                        let r = Json::Object(ms);
                        proof {
                            lemma_object_view(ms);
                            assert(members_view(ms@) =~= set_path(sv, ts, option_view(new)).unwrap()->Object_0);
                        }
                        Some(r)
                    },
                    None => {
                        if last {
                            match new {
                                Some(v) => {
                                    let k = tokens[from].clone();
                                    ms.push(Member { key: k, value: v });
                                    let r = Json::Object(ms);
                                    proof {
                                        lemma_object_view(ms);
                                        assert(members_view(ms@) =~= set_path(sv, ts, option_view(new)).unwrap()->Object_0);
                                    }
                                    Some(r)
                                },
                                None => {
                                    proof {
                                        lemma_object_view(ms);
                                    }
                                    Some(Json::Object(ms))
                                },
                            }
                        } else {
                            None
                        }
                    },
                }
            },
            Json::Array(mut items) => {
                proof {
                    lemma_array_view(items);
                }
                match token_index(&tokens[from], items.len()) {
                    Some(n) => {
                        let e = items.remove(n);
                        if last {
                            match new {
                                Some(v) => {
                                    items.insert(n, v);
                                },
                                None => {
                                    return None;
                                },
                            }
                        } else {
                            match e.set_path(tokens, from + 1, new) {
                                Some(c2) => {
                                    items.insert(n, c2);
                                },
                                None => {
                                    return None;
                                },
                            }
                        }
                        let r = Json::Array(items);
                        proof {
                            lemma_array_view(items);
                            assert(items_view(items@) =~= set_path(sv, ts, option_view(new)).unwrap()->Array_0);
                        }
                        Some(r)
                    },
                    None => None,
                }
            },
            _ => None,
        }
    }

    /// The current value at an edit location (`Ok(None)` for an absent member);
    /// `Err` when the location cannot be edited.
    pub fn edit_target<'a>(&'a self, tokens: &Vec<String>) -> (r: Result<Option<&'a Json>, ()>)
        ensures
            match r {
                Ok(Some(v)) => edit_target(self@, strings_view(tokens@)) == Some(Some(v@)),
                Ok(None) => edit_target(self@, strings_view(tokens@)) == Some(None::<JsonView>),
                Err(_) => edit_target(self@, strings_view(tokens@)) is None,
            },
    {
        let n = tokens.len();
        if n == 0 {
            return Err(());
        }
        let ghost ts = strings_view(tokens@);
        assert(ts.take(n - 1) =~= ts.drop_last());
        match self.get_prefix(tokens, n - 1) {
            Some(parent) => {
                match parent {
                    Json::Object(ms) => {
                        proof {
                            lemma_object_view(*ms);
                        }
                        proof {
                            lemma_key_position_found(members_view(ms@), tokens@[n - 1]@);
                        }
                        assert(ts.last() == tokens@[n - 1]@);
                        match find_member(ms, tokens[n - 1].as_str()) {
                            Some(p) => Ok(Some(&ms[p].value)),
                            None => Ok(None),
                        }
                    },
                    Json::Array(items) => {
                        proof {
                            lemma_array_view(*items);
                        }
                        assert(ts.last() == tokens@[n - 1]@);
                        match token_index(&tokens[n - 1], items.len()) {
                            Some(k) => Ok(Some(&items[k])),
                            None => Err(()),
                        }
                    },
                    _ => Err(()),
                }
            },
            None => Err(()),
        }
    }
}


/// The member `key` of an object; `None` for other values.
pub open spec fn member_of(j: JsonView, key: Seq<char>) -> Option<JsonView> {
    match j {
        JsonView::Object(ms) => match key_position(ms, key) {
            Some(p) => Some(ms[p].1),
            None => None,
        },
        _ => None,
    }
}

/// The text of a string value.
pub open spec fn as_text(j: Option<JsonView>) -> Option<Seq<char>> {
    match j {
        Some(JsonView::String(s)) => Some(s),
        _ => None,
    }
}

impl Json {
    pub fn get_member<'a>(&'a self, key: &str) -> (r: Option<&'a Json>)
        ensures
            match r {
                Some(v) => member_of(self@, key@) == Some(v@),
                None => member_of(self@, key@) is None,
            },
    {
        self.member(key)
    }

    /// The text of the member `key`, when it is a string.
    pub fn text_member<'a>(&'a self, key: &str) -> (r: Option<&'a String>)
        ensures
            match r {
                Some(s) => as_text(member_of(self@, key@)) == Some(s@),
                None => as_text(member_of(self@, key@)) is None,
            },
    {
        match self.member(key) {
            Some(Json::String(s)) => Some(s),
            _ => None,
        }
    }

    pub fn as_string<'a>(&'a self) -> (r: Option<&'a String>)
        ensures
            match r {
                Some(s) => self@ == JsonView::String(s@),
                None => !(self@ is String),
            },
    {
        match self {
            Json::String(s) => Some(s),
            _ => None,
        }
    }
}

} // verus!

verus! {

// ---------------------------------------------------------------------------
// JSON text, written by serde_json.

/// The compact text `serde_json` writes for a value (its `Display`), which a
/// plan shows.
pub uninterp spec fn json_text(j: JsonView) -> Seq<char>;

/// The indented text `serde_json::to_vec_pretty` writes for a value, which an
/// edited config file holds.
pub uninterp spec fn pretty_json(j: JsonView) -> Seq<u8>;

impl Json {
    /// The compact JSON text of the value, by `serde_json`.
    /// Trusted: the result is `json_text` of the value.
    #[verifier::external_body]
    pub(crate) fn text(&self) -> (r: String)
        ensures
            r@ == json_text(self@),
    {
        value_of_json(self).to_string()
    }

    /// The indented JSON text of the value, by `serde_json::to_vec_pretty`, which
    /// cannot fail on a `serde_json::Value`.
    /// Trusted: the result is `pretty_json` of the value.
    #[verifier::external_body]
    pub(crate) fn pretty(&self) -> (r: Vec<u8>)
        ensures
            r@ == pretty_json(self@),
    {
        serde_json::to_vec_pretty(&value_of_json(self)).unwrap_or_default()
    }
}

/// The value as a `serde_json::Value`, node for node (the inverse of
/// `json_of_value`). Nothing is claimed of it; `text` and `pretty` name what
/// it gives together with the writer.
#[verifier::external_body]
fn value_of_json(j: &Json) -> Value {
    match j {
        Json::Null => Value::Null,
        Json::Bool(b) => Value::Bool(*b),
        Json::Number(JsonNumber::Unsigned(u)) => Value::from(*u),
        Json::Number(JsonNumber::Negative(i)) => Value::from(*i),
        Json::Number(JsonNumber::Other(t)) => t.parse().map(Value::Number).unwrap_or(Value::Null),
        Json::String(s) => Value::String(s.clone()),
        Json::Array(items) => Value::Array(items.iter().map(value_of_json).collect()),
        Json::Object(ms) => Value::Object(ms.iter().map(|m| (m.key.clone(), value_of_json(&m.value))).collect()),
    }
}

} // verus!

verus! {

// ---------------------------------------------------------------------------
// JSON text, read by serde_json.

#[verifier::external_type_specification]
#[verifier::external_body]
pub struct OutsideJsonValue(serde_json::Value);

/// What `serde_json::from_slice` reads from a text, in this model of JSON
/// values; `None` when the text is not JSON.
pub uninterp spec fn parsed_json(bytes: Seq<u8>) -> Option<JsonView>;

/// Reads JSON text with `serde_json::from_slice` into a `serde_json::Value`,
/// converted to this model node for node (`json_of_value`).
/// Trusted: the result is `parsed_json` of the bytes; nothing else is claimed of it.
#[verifier::external_body]
pub(crate) fn parse_json(bytes: &[u8]) -> (r: Option<Json>)
    ensures
        match r {
            Some(j) => parsed_json(bytes@) == Some(j@),
            None => parsed_json(bytes@) is None,
        },
{
    match serde_json::from_slice::<Value>(bytes) {
        Ok(v) => Some(json_of_value(&v)),
        Err(_) => None,
    }
}

/// A `serde_json::Value` in this model, node for node: integers by value, other
/// numbers by their text, object members in the value's order. Nothing is
/// claimed of it; `parse_json` names what the two give together.
#[verifier::external_body]
fn json_of_value(v: &Value) -> Json {
    match v {
        Value::Null => Json::Null,
        Value::Bool(b) => Json::Bool(*b),
        Value::Number(n) => Json::Number(match (n.as_u64(), n.as_i64()) {
            (Some(u), _) => JsonNumber::Unsigned(u),
            (None, Some(i)) => JsonNumber::Negative(i),
            _ => JsonNumber::Other(n.to_string()),
        }),
        Value::String(s) => Json::String(s.clone()),
        Value::Array(items) => Json::Array(items.iter().map(json_of_value).collect()),
        Value::Object(m) => Json::Object(m.iter().map(|(k, x)| Member { key: k.clone(), value: json_of_value(x) }).collect()),
    }
}

} // verus!
