//! The sing-box executable as seen by the planners: generators, validators and
//! the version gate. Running the program is left to the caller; what its output
//! means is decided here.
use vstd::prelude::*;
use crate::error::{Error, ErrorKind};
use crate::text::{any_whitespace, append_str, chars_of, decimal, u64_text, has_prefix, is_hex_digit, starts_with, has_white_space, is_white_space, is_whitespace, split_once, split_once_chars,
    string_of, sub_chars, trim, trim_chars, trim_start};

verus! {

/// A generated Reality keypair.
pub struct RealityKeyPair {
    pub private_key: String,
    pub public_key: String,
}

/// A semantic version: major.minor.patch, pre-release and build identifiers.
pub struct Version {
    pub major: u64,
    pub minor: u64,
    pub patch: u64,
    pub pre: String,
    pub build: String,
}

impl Version {
    pub open spec fn view(&self) -> (u64, u64, u64, Seq<char>, Seq<char>) {
        (self.major, self.minor, self.patch, self.pre@, self.build@)
    }

    /// The release `major.minor.patch`.
    pub fn new(major: u64, minor: u64, patch: u64) -> (r: Version)
        ensures
            r@ == (major, minor, patch, Seq::<char>::empty(), Seq::<char>::empty()),
    {
        Version { major, minor, patch, pre: String::new(), build: String::new() }
    }
}

/// Random bytes behind a generated Hysteria2 password or obfs password.
pub const PASSWORD_BYTES: usize = 32;

/// Random bytes behind a generated Reality short ID.
pub const SHORT_ID_BYTES: usize = 8;

/// The failures a generator call may end in: sing-box could not be run, it
/// failed, or it printed something that is not a value of the requested form.
pub open spec fn generator_failure(kind: ErrorKind) -> bool {
    kind == ErrorKind::Executable || kind == ErrorKind::Generator || kind == ErrorKind::EmptyGenerated
        || kind == ErrorKind::InvalidGenerated
}

pub open spec fn is_base64_char(c: char) -> bool {
    ('A' <= c <= 'Z') || ('a' <= c <= 'z') || ('0' <= c <= '9') || c == '+' || c == '/' || c == '='
}

/// The length of the padded base64 text of `bytes` bytes.
pub open spec fn base64_length(bytes: nat) -> nat {
    4 * ((bytes + 2) / 3)
}

/// Padded base64 text of `bytes` random bytes.
pub open spec fn base64_text(v: Seq<char>, bytes: nat) -> bool {
    v.len() == base64_length(bytes) && forall|i: int| 0 <= i < v.len() ==> is_base64_char(#[trigger] v[i])
}

/// Hexadecimal text of `bytes` random bytes.
pub open spec fn hex_text(v: Seq<char>, bytes: nat) -> bool {
    v.len() == 2 * bytes && forall|i: int| 0 <= i < v.len() ==> is_hex_digit(#[trigger] v[i])
}

/// What the tool needs from sing-box. Generated values are random: of each, an
/// implementation promises only its form (a UUID, or the text of the requested
/// number of bytes), and that a failure is one of `generator_failure`. The
/// executable's implementation checks the form with `accept_uuid`,
/// `accept_base64` and `accept_hex`.
pub trait SingBox {
    fn version(&self) -> Result<Version, Error>;

    fn generate_uuid(&self) -> (r: Result<String, Error>)
        ensures
            r matches Ok(v) ==> uuid_parses(v@),
            r matches Err(e) ==> generator_failure(e.kind);

    fn generate_random_base64(&self, bytes: usize) -> (r: Result<String, Error>)
        ensures
            r matches Ok(v) ==> base64_text(v@, bytes as nat),
            r matches Err(e) ==> generator_failure(e.kind);

    fn generate_random_hex(&self, bytes: usize) -> (r: Result<String, Error>)
        ensures
            r matches Ok(v) ==> hex_text(v@, bytes as nat),
            r matches Err(e) ==> generator_failure(e.kind);

    fn generate_reality_keypair(&self) -> (r: Result<RealityKeyPair, Error>)
        ensures
            r matches Err(e) ==> generator_failure(e.kind);

    fn check_file(&self, path: &str) -> Result<(), Error>;

    fn check_directory(&self, path: &str) -> Result<(), Error>;
}

/// The sing-box executable to run: the explicit override, else the `SING_BOX`
/// environment value, else `sing-box` looked up on the search path.
pub struct Executable {
    pub path: String,
}

impl Executable {
    pub fn resolve(explicit: Option<&str>, environment: Option<String>) -> (r: Executable)
        ensures
            r.path@ == match explicit {
                Some(p) => p@,
                None => match environment {
                    Some(e) => e@,
                    None => "sing-box"@,
                },
            },
    {
        match explicit {
            Some(p) => Executable { path: p.to_string() },
            None => match environment {
                Some(e) => Executable { path: e },
                None => Executable { path: "sing-box".to_string() },
            },
        }
    }
}

/// What `semver::Version::parse` makes of a text: its major, minor and patch
/// numbers and its pre-release and build identifiers, or `None` when the text is
/// not a semantic version.
pub uninterp spec fn semver_of(text: Seq<char>) -> Option<(u64, u64, u64, Seq<char>, Seq<char>)>;

/// Parses a semantic version with `semver::Version::parse`.
/// Trusted: the result is `semver_of` of the text; the pre-release and build
/// identifiers are carried as their text (`as_str`).
#[verifier::external_body]
fn parse_semver(text: &str) -> (r: Option<Version>)
    ensures
        match r {
            Some(v) => semver_of(text@) == Some(v@),
            None => semver_of(text@) is None,
        },
{
    match semver::Version::parse(text) {
        Ok(v) => Some(Version {
            major: v.major,
            minor: v.minor,
            patch: v.patch,
            pre: v.pre.as_str().to_string(),
            build: v.build.as_str().to_string(),
        }),
        Err(_) => None,
    }
}

/// Hexadecimal digits with hyphens after the 8th, 12th, 16th and 20th digit.
pub open spec fn hyphenated_uuid(s: Seq<char>) -> bool {
    &&& s.len() == 36
    &&& forall|i: int| 0 <= i < 36 ==> (if i == 8 || i == 13 || i == 18 || i == 23 {
        #[trigger] s[i] == '-'
    } else {
        is_hex_digit(s[i])
    })
}

/// `urn:uuid:`, each letter in either case.
pub open spec fn urn_prefix(s: Seq<char>) -> bool {
    &&& s.len() >= 9
    &&& (s[0] == 'u' || s[0] == 'U') && (s[1] == 'r' || s[1] == 'R') && (s[2] == 'n' || s[2] == 'N')
    &&& s[3] == ':' && (s[4] == 'u' || s[4] == 'U') && (s[5] == 'u' || s[5] == 'U')
    &&& (s[6] == 'i' || s[6] == 'I') && (s[7] == 'd' || s[7] == 'D') && s[8] == ':'
}

/// The texts `uuid::Uuid::parse_str` accepts: 32 hexadecimal digits, the
/// hyphenated form, the hyphenated form in braces, or the hyphenated form after
/// `urn:uuid:`.
pub open spec fn uuid_parses(text: Seq<char>) -> bool {
    ||| text.len() == 32 && forall|i: int| 0 <= i < 32 ==> is_hex_digit(#[trigger] text[i])
    ||| hyphenated_uuid(text)
    ||| text.len() == 38 && text[0] == '{' && text[37] == '}' && hyphenated_uuid(text.subrange(1, 37))
    ||| text.len() == 45 && urn_prefix(text) && hyphenated_uuid(text.skip(9))
}

/// Whether a text is a UUID, by `uuid::Uuid::parse_str`.
/// Trusted: the call succeeds exactly on the texts `uuid_parses` describes (the
/// crate's parser compares bytes, and every accepted form is ASCII, so its byte
/// lengths are these character counts).
#[verifier::external_body]
fn is_uuid(text: &str) -> (r: bool)
    ensures
        r == uuid_parses(text@),
{
    uuid::Uuid::parse_str(text).is_ok()
}

/// The line without a carriage return that ended it.
pub open spec fn strip_cr(line: Seq<char>) -> Seq<char> {
    if line.len() > 0 && line.last() == '\r' {
        line.drop_last()
    } else {
        line
    }
}

/// The lines of a text: separated by `\n` (a `\r` before it belongs to the line
/// ending); a final line ending adds no empty line.
pub open spec fn lines(s: Seq<char>) -> Seq<Seq<char>>
    decreases s.len(),
{
    if s.len() == 0 {
        Seq::empty()
    } else {
        match split_once(s, '\n') {
            Some((line, rest)) => {
                proof {
                    crate::text::lemma_position_of_bounds(s, '\n', 0);
                }
                seq![strip_cr(line)] + lines(rest)
            },
            None => seq![s],
        }
    }
}

/// The leading run of non-white-space characters.
pub open spec fn token(t: Seq<char>) -> Seq<char>
    decreases t.len(),
{
    if t.len() == 0 || is_white_space(t[0]) {
        Seq::empty()
    } else {
        seq![t[0]] + token(t.drop_first())
    }
}

/// The first white-space-separated word of a text.
pub open spec fn first_word(s: Seq<char>) -> Option<Seq<char>> {
    let t = trim_start(s);
    if t.len() == 0 {
        None
    } else {
        Some(token(t))
    }
}

pub open spec fn version_prefix() -> Seq<char> {
    "sing-box version "@
}

/// The version word of the first line that starts with `sing-box version `.
pub open spec fn version_word(ls: Seq<Seq<char>>) -> Option<Seq<char>>
    decreases ls.len(),
{
    if ls.len() == 0 {
        None
    } else if has_prefix(ls[0], version_prefix()) {
        first_word(ls[0].skip(version_prefix().len() as int))
    } else {
        version_word(ls.drop_first())
    }
}

/// The version that `sing-box version` reports.
pub open spec fn reported_version(output: Seq<char>) -> Result<(u64, u64, u64, Seq<char>, Seq<char>), ErrorKind> {
    match version_word(lines(output)) {
        None => Err(ErrorKind::VersionNotFound),
        Some(w) => match semver_of(w) {
            None => Err(ErrorKind::InvalidVersion),
            Some(v) => Ok(v),
        },
    }
}

fn token_of(t: &Vec<char>) -> (r: Vec<char>)
    ensures
        r@ == token(t@),
{
    let mut i: usize = 0;
    while i < t.len() && !is_whitespace(t[i])
        invariant
            i <= t@.len(),
            forall|k: int| 0 <= k < i ==> !is_white_space(#[trigger] t@[k]),
        decreases t@.len() - i,
    {
        i = i + 1;
    }
    proof {
        lemma_token_prefix(t@, i as int);
    }
    sub_chars(t, 0, i)
}

proof fn lemma_token_prefix(t: Seq<char>, i: int)
    requires
        0 <= i <= t.len(),
        forall|k: int| 0 <= k < i ==> !is_white_space(#[trigger] t[k]),
        i == t.len() || is_white_space(t[i]),
    ensures
        token(t) == t.take(i),
    decreases t.len(),
{
    if i > 0 {
        assert forall|k: int| 0 <= k < i - 1 implies !is_white_space(#[trigger] t.drop_first()[k]) by {
            assert(t.drop_first()[k] == t[k + 1]);
        }
        if i < t.len() {
            assert(t.drop_first()[i - 1] == t[i]);
        }
        lemma_token_prefix(t.drop_first(), i - 1);
        assert(seq![t[0]] + t.drop_first().take(i - 1) =~= t.take(i));
    }
}

fn first_word_of(s: &Vec<char>) -> (r: Option<Vec<char>>)
    ensures
        match r {
            Some(w) => first_word(s@) == Some(w@),
            None => first_word(s@) is None,
        },
{
    let n = s.len();
    let mut a: usize = 0;
    assert(s@.skip(0) =~= s@);
    while a < n && is_whitespace(s[a])
        invariant
            n == s@.len(),
            a <= n,
            trim_start(s@) == trim_start(s@.skip(a as int)),
        decreases n - a,
    {
        assert(s@.skip(a as int).drop_first() =~= s@.skip(a + 1));
        a = a + 1;
    }
    assert(trim_start(s@.skip(a as int)) == s@.skip(a as int));
    if a == n {
        return None;
    }
    let t = sub_chars(s, a, n);
    assert(t@ =~= s@.skip(a as int));
    Some(token_of(&t))
}

fn strip_cr_of(line: Vec<char>) -> (r: Vec<char>)
    ensures
        r@ == strip_cr(line@),
{
    let n = line.len();
    if n > 0 && line[n - 1] == '\r' {
        sub_chars(&line, 0, n - 1)
    } else {
        line
    }
}

/// The version word in `s`, searching its lines in order.
fn version_word_of(s: &Vec<char>, prefix: &Vec<char>) -> (r: Option<Vec<char>>)
    requires
        prefix@ == version_prefix(),
    ensures
        match r {
            Some(w) => version_word(lines(s@)) == Some(w@),
            None => version_word(lines(s@)) is None,
        },
    decreases s@.len(),
{
    if s.len() == 0 {
        return None;
    }
    let (line, rest) = match split_once_chars(s, '\n') {
        Some((a, b)) => {
            proof {
                crate::text::lemma_position_of_bounds(s@, '\n', 0);
            }
            (strip_cr_of(a), Some(b))
        },
        None => {
            let whole = sub_chars(s, 0, s.len());
            assert(whole@ =~= s@);
            (whole, None)
        },
    };
    let ghost ls = lines(s@);
    assert(ls[0] == line@);
    if starts_with(&line, prefix) {
        let after = sub_chars(&line, prefix.len(), line.len());
        assert(after@ =~= line@.skip(version_prefix().len() as int));
        return first_word_of(&after);
    }
    match rest {
        Some(b) => {
            assert(ls.drop_first() =~= lines(b@));
            version_word_of(&b, prefix)
        },
        None => {
            assert(ls.drop_first() =~= Seq::<Seq<char>>::empty());
            assert(version_word(Seq::<Seq<char>>::empty()) is None);
            None
        },
    }
}

/// The version in the output of `sing-box version`: the first word after
/// `sing-box version ` on the first line that starts so, as a semantic version.
pub fn parse_version(output: &str) -> (r: Result<Version, Error>)
    ensures
        match r {
            Ok(v) => reported_version(output@) == Ok::<(u64, u64, u64, Seq<char>, Seq<char>), ErrorKind>(v@),
            Err(e) => reported_version(output@) == Err::<(u64, u64, u64, Seq<char>, Seq<char>), ErrorKind>(e.kind)
                && (e.kind == ErrorKind::InvalidVersion ==> version_word(lines(output@)) == Some(e.context@)),
        },
{
    let cs = chars_of(output);
    let prefix = chars_of("sing-box version ");
    let word = match version_word_of(&cs, &prefix) {
        Some(w) => w,
        None => {
            return Err(Error::plain(ErrorKind::VersionNotFound));
        },
    };
    let text = string_of(&word);
    match parse_semver(text.as_str()) {
        Some(v) => Ok(v),
        None => Err(Error::new(ErrorKind::InvalidVersion, text)),
    }
}

/// The oldest supported release is 1.14.0; its pre-releases are older still.
/// (Build metadata never lowers a version below the plain release.)
pub open spec fn supported(v: (u64, u64, u64, Seq<char>, Seq<char>)) -> bool {
    ||| v.0 > 1
    ||| (v.0 == 1 && v.1 > 14)
    ||| (v.0 == 1 && v.1 == 14 && v.2 > 0)
    ||| (v.0 == 1 && v.1 == 14 && v.2 == 0 && v.3.len() == 0)
}

/// Whether a version is at least 1.14.0.
pub fn version_supported(v: &Version) -> (r: bool)
    ensures
        r == supported(v@),
{
    v.major > 1 || (v.major == 1 && v.minor > 14) || (v.major == 1 && v.minor == 14 && v.patch > 0)
        || (v.major == 1 && v.minor == 14 && v.patch == 0 && v.pre.unicode_len() == 0)
}

/// A version as semver writes it: `major.minor.patch`, then `-pre` and `+build`
/// when present.
pub open spec fn version_text(v: (u64, u64, u64, Seq<char>, Seq<char>)) -> Seq<char> {
    decimal(v.0 as nat) + "."@ + decimal(v.1 as nat) + "."@ + decimal(v.2 as nat)
        + (if v.3.len() > 0 { "-"@ + v.3 } else { Seq::empty() })
        + (if v.4.len() > 0 { "+"@ + v.4 } else { Seq::empty() })
}

impl Version {
    pub fn text(&self) -> (r: String)
        ensures
            r@ == version_text(self@),
    {
        let mut s = u64_text(self.major);
        append_str(&mut s, ".");
        append_str(&mut s, u64_text(self.minor).as_str());
        append_str(&mut s, ".");
        append_str(&mut s, u64_text(self.patch).as_str());
        if self.pre.unicode_len() > 0 {
            append_str(&mut s, "-");
            append_str(&mut s, self.pre.as_str());
        }
        if self.build.unicode_len() > 0 {
            append_str(&mut s, "+");
            append_str(&mut s, self.build.as_str());
        }
        s
    }
}

/// What an unsupported version is refused with.
pub open spec fn unsupported_text(v: (u64, u64, u64, Seq<char>, Seq<char>)) -> Seq<char> {
    "sing-box "@ + version_text(v) + " is unsupported; version >= 1.14.0 is required"@
}

/// A version, refused unless it is at least 1.14.0.
pub fn supported_version(version: Version) -> (r: Result<Version, Error>)
    ensures
        match r {
            Ok(v) => supported(version@) && v@ == version@,
            Err(e) => !supported(version@) && e.kind == ErrorKind::UnsupportedVersion && e.context@ == unsupported_text(version@),
        },
{
    if !version_supported(&version) {
        let mut context = "sing-box ".to_string();
        append_str(&mut context, version.text().as_str());
        append_str(&mut context, " is unsupported; version >= 1.14.0 is required");
        return Err(Error::new(ErrorKind::UnsupportedVersion, context));
    }
    Ok(version)
}

/// The version of sing-box, refused unless it is at least 1.14.0.
pub fn require_supported<S: SingBox>(singbox: &S) -> (r: Result<Version, Error>)
    ensures
        r matches Ok(v) ==> supported(v@),
{
    let version = singbox.version()?;
    supported_version(version)
}

/// A generated value as sing-box prints it: surrounding white space is dropped,
/// and what is left must be one nonempty word.
pub open spec fn generated_value(output: Seq<char>) -> Result<Seq<char>, ErrorKind> {
    let t = trim(output);
    if t.len() == 0 || has_white_space(t) {
        Err(ErrorKind::InvalidGenerated)
    } else {
        Ok(t)
    }
}

/// The generated value in a generator's output.
pub fn accept_generated(output: &str) -> (r: Result<String, Error>)
    ensures
        match r {
            Ok(v) => generated_value(output@) == Ok::<Seq<char>, ErrorKind>(v@),
            Err(e) => generated_value(output@) == Err::<Seq<char>, ErrorKind>(e.kind),
        },
{
    let cs = chars_of(output);
    let t = trim_chars(&cs);
    if t.len() == 0 || any_whitespace(&t) {
        return Err(Error::plain(ErrorKind::InvalidGenerated));
    }
    Ok(string_of(&t))
}

/// A generated UUID: one word that `uuid::Uuid::parse_str` accepts.
pub open spec fn generated_uuid(output: Seq<char>) -> Result<Seq<char>, ErrorKind> {
    match generated_value(output) {
        Err(e) => Err(e),
        Ok(v) => if uuid_parses(v) {
            Ok(v)
        } else {
            Err(ErrorKind::InvalidGenerated)
        },
    }
}

/// The UUID in the output of `sing-box generate uuid`.
pub fn accept_uuid(output: &str) -> (r: Result<String, Error>)
    ensures
        match r {
            Ok(v) => generated_uuid(output@) == Ok::<Seq<char>, ErrorKind>(v@),
            Err(e) => generated_uuid(output@) == Err::<Seq<char>, ErrorKind>(e.kind),
        },
{
    let v = accept_generated(output)?;
    if !is_uuid(v.as_str()) {
        return Err(Error::plain(ErrorKind::InvalidGenerated));
    }
    Ok(v)
}

/// Generated base64: one word, the padded base64 text of `bytes` bytes.
pub open spec fn generated_base64(output: Seq<char>, bytes: nat) -> Result<Seq<char>, ErrorKind> {
    match generated_value(output) {
        Err(e) => Err(e),
        Ok(v) => if base64_text(v, bytes) {
            Ok(v)
        } else {
            Err(ErrorKind::InvalidGenerated)
        },
    }
}

/// Generated hex: one word, the hexadecimal text of `bytes` bytes.
pub open spec fn generated_hex(output: Seq<char>, bytes: nat) -> Result<Seq<char>, ErrorKind> {
    match generated_value(output) {
        Err(e) => Err(e),
        Ok(v) => if hex_text(v, bytes) {
            Ok(v)
        } else {
            Err(ErrorKind::InvalidGenerated)
        },
    }
}

/// The value in the output of `sing-box generate rand <bytes> --base64`.
pub fn accept_base64(output: &str, bytes: usize) -> (r: Result<String, Error>)
    ensures
        match r {
            Ok(v) => generated_base64(output@, bytes as nat) == Ok::<Seq<char>, ErrorKind>(v@),
            Err(e) => generated_base64(output@, bytes as nat) == Err::<Seq<char>, ErrorKind>(e.kind),
        },
{
    let v = accept_generated(output)?;
    let cs = chars_of(v.as_str());
    let want: u128 = (bytes as u128 + 2) / 3 * 4;
    if cs.len() as u128 != want {
        return Err(Error::plain(ErrorKind::InvalidGenerated));
    }
    let mut i: usize = 0;
    while i < cs.len()
        invariant
            cs@ == v@,
            i <= cs@.len(),
            forall|k: int| 0 <= k < i ==> is_base64_char(#[trigger] cs@[k]),
            generated_value(output@) == Ok::<Seq<char>, ErrorKind>(v@),
            cs@.len() == base64_length(bytes as nat),
        decreases cs@.len() - i,
    {
        let c = cs[i];
        if !(('A' <= c && c <= 'Z') || ('a' <= c && c <= 'z') || ('0' <= c && c <= '9') || c == '+' || c == '/' || c == '=') {
            assert(!is_base64_char(v@[i as int]));
            return Err(Error::plain(ErrorKind::InvalidGenerated));
        }
        i = i + 1;
    }
    Ok(v)
}

/// The value in the output of `sing-box generate rand <bytes> --hex`.
pub fn accept_hex(output: &str, bytes: usize) -> (r: Result<String, Error>)
    ensures
        match r {
            Ok(v) => generated_hex(output@, bytes as nat) == Ok::<Seq<char>, ErrorKind>(v@),
            Err(e) => generated_hex(output@, bytes as nat) == Err::<Seq<char>, ErrorKind>(e.kind),
        },
{
    let v = accept_generated(output)?;
    let cs = chars_of(v.as_str());
    if cs.len() as u128 != 2 * (bytes as u128) {
        return Err(Error::plain(ErrorKind::InvalidGenerated));
    }
    let mut i: usize = 0;
    while i < cs.len()
        invariant
            cs@ == v@,
            i <= cs@.len(),
            forall|k: int| 0 <= k < i ==> is_hex_digit(#[trigger] cs@[k]),
            generated_value(output@) == Ok::<Seq<char>, ErrorKind>(v@),
            cs@.len() == 2 * bytes,
        decreases cs@.len() - i,
    {
        let c = cs[i];
        if !(('0' <= c && c <= '9') || ('a' <= c && c <= 'f') || ('A' <= c && c <= 'F')) {
            assert(!is_hex_digit(v@[i as int]));
            return Err(Error::plain(ErrorKind::InvalidGenerated));
        }
        i = i + 1;
    }
    Ok(v)
}

/// The value after `label` on the first line that starts with it.
pub open spec fn labelled(ls: Seq<Seq<char>>, label: Seq<char>) -> Option<Seq<char>>
    decreases ls.len(),
{
    if ls.len() == 0 {
        None
    } else if has_prefix(ls[0], label) {
        Some(ls[0].skip(label.len() as int))
    } else {
        labelled(ls.drop_first(), label)
    }
}

/// One generated key of `sing-box generate reality-keypair`: the single word
/// after its label.
pub open spec fn keypair_part(output: Seq<char>, label: Seq<char>) -> Result<Seq<char>, ErrorKind> {
    match labelled(lines(output), label) {
        None => Err(ErrorKind::InvalidGenerated),
        Some(rest) => generated_value(rest),
    }
}

fn labelled_of(ls: &Vec<Vec<char>>, label: &Vec<char>) -> (r: Option<Vec<char>>)
    ensures
        match r {
            Some(v) => labelled(ls@.map_values(|l: Vec<char>| l@), label@) == Some(v@),
            None => labelled(ls@.map_values(|l: Vec<char>| l@), label@) is None,
        },
{
    let ghost all = ls@.map_values(|l: Vec<char>| l@);
    let mut i: usize = 0;
    assert(all.skip(0) =~= all);
    while i < ls.len()
        invariant
            all == ls@.map_values(|l: Vec<char>| l@),
            i <= ls@.len(),
            labelled(all, label@) == labelled(all.skip(i as int), label@),
        decreases ls@.len() - i,
    {
        assert(all.skip(i as int)[0] == ls@[i as int]@);
        if starts_with(&ls[i], label) {
            let rest = sub_chars(&ls[i], label.len(), ls[i].len());
            assert(rest@ =~= ls@[i as int]@.skip(label@.len() as int));
            return Some(rest);
        }
        assert(all.skip(i as int).drop_first() =~= all.skip(i + 1));
        i = i + 1;
    }
    assert(all.skip(i as int) =~= Seq::<Seq<char>>::empty());
    None
}

fn lines_of(s: &Vec<char>) -> (r: Vec<Vec<char>>)
    ensures
        r@.map_values(|l: Vec<char>| l@) == lines(s@),
    decreases s@.len(),
{
    let mut out: Vec<Vec<char>> = Vec::new();
    if s.len() == 0 {
        assert(out@.map_values(|l: Vec<char>| l@) =~= lines(s@));
        return out;
    }
    match split_once_chars(s, '\n') {
        Some((a, b)) => {
            proof {
                crate::text::lemma_position_of_bounds(s@, '\n', 0);
            }
            let rest = lines_of(&b);
            let first = strip_cr_of(a);
            let ghost first_view = first@;
            out.push(first);
            assert(out@.map_values(|l: Vec<char>| l@) =~= seq![first_view]);
            let mut k: usize = 0;
            while k < rest.len()
                invariant
                    k <= rest@.len(),
                    out@.len() == k + 1,
                    out@.map_values(|l: Vec<char>| l@) == seq![first_view] + rest@.map_values(|l: Vec<char>| l@).take(k as int),
                decreases rest@.len() - k,
            {
                let ghost before = out@.map_values(|l: Vec<char>| l@);
                let line = sub_chars(&rest[k], 0, rest[k].len());
                assert(line@ =~= rest@[k as int]@);
                out.push(line);
                assert(out@.map_values(|l: Vec<char>| l@) =~= before.push(rest@[k as int]@));
                assert(rest@.map_values(|l: Vec<char>| l@).take(k + 1)
                    =~= rest@.map_values(|l: Vec<char>| l@).take(k as int).push(rest@[k as int]@));
                k = k + 1;
            }
            assert(rest@.map_values(|l: Vec<char>| l@).take(k as int) =~= rest@.map_values(|l: Vec<char>| l@));
            assert(lines(s@) == seq![first_view] + lines(b@));
            assert(out@.map_values(|l: Vec<char>| l@) =~= lines(s@));
            out
        },
        None => {
            let whole = sub_chars(s, 0, s.len());
            assert(whole@ =~= s@);
            out.push(whole);
            assert(out@.map_values(|l: Vec<char>| l@) =~= seq![s@]);
            assert(lines(s@) == seq![s@]);
            out
        },
    }
}

fn keypair_part_of(ls: &Vec<Vec<char>>, label: &str) -> (r: Result<String, Error>)
    ensures
        match r {
            Ok(v) => match labelled(ls@.map_values(|l: Vec<char>| l@), label@) {
                Some(rest) => generated_value(rest) == Ok::<Seq<char>, ErrorKind>(v@),
                None => false,
            },
            Err(e) => match labelled(ls@.map_values(|l: Vec<char>| l@), label@) {
                Some(rest) => generated_value(rest) == Err::<Seq<char>, ErrorKind>(e.kind),
                None => e.kind == ErrorKind::InvalidGenerated,
            },
        },
{
    let l = chars_of(label);
    match labelled_of(ls, &l) {
        None => Err(Error::plain(ErrorKind::InvalidGenerated)),
        Some(rest) => {
            let t = trim_chars(&rest);
            if t.len() == 0 || any_whitespace(&t) {
                return Err(Error::plain(ErrorKind::InvalidGenerated));
            }
            Ok(string_of(&t))
        },
    }
}

/// The keypair in the output of `sing-box generate reality-keypair`: the words
/// after `PrivateKey:` and `PublicKey:`.
pub fn parse_reality_keypair(output: &str) -> (r: Result<RealityKeyPair, Error>)
    ensures
        match r {
            Ok(k) => keypair_part(output@, "PrivateKey:"@) == Ok::<Seq<char>, ErrorKind>(k.private_key@)
                && keypair_part(output@, "PublicKey:"@) == Ok::<Seq<char>, ErrorKind>(k.public_key@),
            Err(e) => e.kind == ErrorKind::InvalidGenerated
                && (keypair_part(output@, "PrivateKey:"@) is Err || keypair_part(output@, "PublicKey:"@) is Err),
        },
{
    let cs = chars_of(output);
    let ls = lines_of(&cs);
    let private_key = keypair_part_of(&ls, "PrivateKey:")?;
    let public_key = keypair_part_of(&ls, "PublicKey:")?;
    Ok(RealityKeyPair { private_key, public_key })
}

} // verus!
