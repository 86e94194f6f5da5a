//! Scopes, env keys, project and variable records, and where each secret lives.

use vstd::prelude::*;

use sha2::Digest;

use crate::error::EnvError;
use crate::text::{
    chars_of, is_ascii_alnum, is_ascii_alnum_char, is_ascii_alpha, is_ascii_alpha_char, push_str,
    string_of, trim, trim_range,
};

verus! {

broadcast use vstd::string::group_string_axioms;

/// Where a value comes from.
#[derive(Debug, Clone, Copy, PartialEq, Eq, Structural, PartialOrd, Ord, Hash)]
pub enum Scope {
    Global,
    Project,
    Shell,
}

pub open spec fn scope_name(scope: Scope) -> Seq<char> {
    match scope {
        Scope::Global => "global"@,
        Scope::Project => "project"@,
        Scope::Shell => "shell"@,
    }
}

/// ASCII lower-casing, as `str::to_ascii_lowercase` does.
pub open spec fn ascii_lower_char(c: char) -> char {
    if 'A' <= c && c <= 'Z' {
        ((c as u8) + 32) as char
    } else {
        c
    }
}

pub open spec fn ascii_lower(s: Seq<char>) -> Seq<char> {
    s.map_values(|c: char| ascii_lower_char(c))
}

/// What `Scope::from_str` gives for `value`.
pub open spec fn scope_from_name(value: Seq<char>) -> Result<Scope, EnvError> {
    let name = ascii_lower(trim(value));
    if name == "global"@ {
        Ok(Scope::Global)
    } else if name == "project"@ {
        Ok(Scope::Project)
    } else if name == "shell"@ {
        Ok(Scope::Shell)
    } else {
        Err(EnvError::InvalidScope(arbitrary_string_of(name)))
    }
}

/// Some `String` whose view is `s`.
pub open spec fn arbitrary_string_of(s: Seq<char>) -> String {
    choose|t: String| t@ == s
}

fn lower_char(c: char) -> (r: char)
    ensures
        r == ascii_lower_char(c),
{
    if 'A' <= c && c <= 'Z' {
        ((c as u8) + 32) as char
    } else {
        c
    }
}

/// The characters of `value` with surrounding whitespace removed and ASCII
/// letters lower-cased.
pub(crate) fn trimmed_lower(value: &str) -> (lower: Vec<char>)
    ensures
        lower@ == ascii_lower(trim(value@)),
{
    let v = chars_of(value);
    let (a, b) = trim_range(&v, 0, v.len());
    let mut lower: Vec<char> = Vec::new();
    let mut i: usize = a;
    while i < b
        invariant
            a <= i <= b <= v.len(),
            lower@ == ascii_lower(v@.subrange(a as int, i as int)),
        decreases b - i,
    {
        lower.push(lower_char(v[i]));
        i += 1;
        assert(lower@ =~= ascii_lower(v@.subrange(a as int, i as int)));
    }
    proof {
        assert(v@.subrange(0, v@.len() as int) =~= v@);
    }
    lower
}

pub(crate) fn eq_chars(v: &Vec<char>, lit: &str) -> (b: bool)
    ensures
        b == (v@ == lit@),
{
    let w = chars_of(lit);
    if v.len() != w.len() {
        return false;
    }
    let mut i: usize = 0;
    while i < v.len()
        invariant
            w@ == lit@,
            v.len() == w.len(),
            0 <= i <= v.len(),
            forall|j: int| 0 <= j < i ==> v@[j] == w@[j],
        decreases v.len() - i,
    {
        if v[i] != w[i] {
            return false;
        }
        i += 1;
    }
    assert(v@ =~= w@);
    true
}

impl Scope {
    pub fn as_str(self) -> (r: &'static str)
        ensures
            r@ == scope_name(self),
    {
        match self {
            Scope::Global => "global",
            Scope::Project => "project",
            Scope::Shell => "shell",
        }
    }

    /// Whether values of this scope are written to the secret store.
    pub fn stored(self) -> (b: bool)
        ensures
            b == (self != Scope::Shell),
    {
        !matches!(self, Scope::Shell)
    }

    /// The scope's name as an owned string.
    pub fn to_string(&self) -> (r: String)
        ensures
            r@ == scope_name(*self),
    {
        let mut s = String::new();
        push_str(&mut s, self.as_str());
        s
    }

    /// Parses a scope name, ignoring surrounding whitespace and ASCII case.
    pub fn parse_name(value: &str) -> (r: Result<Scope, EnvError>)
        ensures
            r matches Ok(s) ==> scope_from_name(value@) == Ok::<Scope, EnvError>(s),
            r matches Err(EnvError::InvalidScope(n)) ==> scope_from_name(value@) is Err
                && n@ == ascii_lower(trim(value@)),
            r is Ok || r matches Err(EnvError::InvalidScope(_)),
    {
        let lower = trimmed_lower(value);
        if eq_chars(&lower, "global") {
            Ok(Scope::Global)
        } else if eq_chars(&lower, "project") {
            Ok(Scope::Project)
        } else if eq_chars(&lower, "shell") {
            Ok(Scope::Shell)
        } else {
            Err(EnvError::InvalidScope(string_of(&lower)))
        }
    }
}

impl std::str::FromStr for Scope {
    type Err = EnvError;

    fn from_str(value: &str) -> (r: Result<Scope, EnvError>)
        ensures
            r matches Ok(s) ==> scope_from_name(value@) == Ok::<Scope, EnvError>(s),
            r matches Err(EnvError::InvalidScope(n)) ==> scope_from_name(value@) is Err
                && n@ == ascii_lower(trim(value@)),
            r is Ok || r matches Err(EnvError::InvalidScope(_)),
    {
        Scope::parse_name(value)
    }
}

/// Why `s` is not a valid env key, if it is not one.
pub open spec fn key_fault(s: Seq<char>) -> Option<EnvError> {
    if s.len() == 0 {
        Some(EnvError::EmptyKey)
    } else if !(s[0] == '_' || is_ascii_alpha(s[0])) {
        Some(EnvError::KeyBadStart)
    } else if exists|j: int| 1 <= j < s.len() && !(s[j] == '_' || is_ascii_alnum(#[trigger] s[j])) {
        Some(EnvError::KeyBadChar)
    } else {
        None
    }
}

/// A non-empty run of ASCII letters, digits and `_` that does not start with a digit.
pub open spec fn is_valid_key(s: Seq<char>) -> bool {
    key_fault(s) is None
}

/// The key rule in plain terms: a key is valid exactly when it is not
/// empty, starts with an ASCII letter or `_`, and holds only ASCII letters,
/// digits and `_`.
pub proof fn law_key_rule(s: Seq<char>)
    ensures
        is_valid_key(s) <==> (s.len() > 0 && (s[0] == '_' || ('a' <= s[0] && s[0] <= 'z') || ('A' <= s[0]
            && s[0] <= 'Z')) && forall|i: int|
            0 <= i < s.len() ==> (#[trigger] s[i] == '_' || ('a' <= s[i] && s[i] <= 'z') || ('A' <= s[i]
                && s[i] <= 'Z') || ('0' <= s[i] && s[i] <= '9'))),
{
    if is_valid_key(s) {
        assert forall|i: int| 0 <= i < s.len() implies (#[trigger] s[i] == '_' || ('a' <= s[i] && s[i] <= 'z')
            || ('A' <= s[i] && s[i] <= 'Z') || ('0' <= s[i] && s[i] <= '9')) by {
            if i > 0 {
                assert(s[i] == '_' || is_ascii_alnum(s[i]));
            }
        }
    }
}

/// Every ASCII letter may stand anywhere in a key: alone, first, or after
/// `_`; a digit may follow the first character but not start a key.
pub proof fn law_letters_and_digits_in_keys(c: char)
    ensures
        ('a' <= c && c <= 'z') || ('A' <= c && c <= 'Z') ==> is_valid_key(seq![c]) && is_valid_key(seq![c, '_'])
            && is_valid_key(seq!['_', c]),
        '0' <= c && c <= '9' ==> is_valid_key(seq!['_', c]) && key_fault(seq![c]) == Some(EnvError::KeyBadStart),
{
    law_key_rule(seq![c]);
    law_key_rule(seq![c, '_']);
    law_key_rule(seq!['_', c]);
}

/// Checks `v[lo..hi]` against the env-key rules.
pub fn check_key_range(v: &Vec<char>, lo: usize, hi: usize) -> (r: Result<(), EnvError>)
    requires
        lo <= hi <= v.len(),
    ensures
        r matches Err(e) ==> key_fault(v@.subrange(lo as int, hi as int)) == Some(e),
        r is Ok ==> key_fault(v@.subrange(lo as int, hi as int)) is None,
{
    let ghost s = v@.subrange(lo as int, hi as int);
    if lo == hi {
        return Err(EnvError::EmptyKey);
    }
    let first = v[lo];
    assert(s[0] == first);
    if !(first == '_' || is_ascii_alpha_char(first)) {
        return Err(EnvError::KeyBadStart);
    }
    let mut i: usize = lo + 1;
    while i < hi
        invariant
            lo + 1 <= i <= hi <= v.len(),
            s == v@.subrange(lo as int, hi as int),
            s[0] == '_' || is_ascii_alpha(s[0]),
            forall|j: int| 1 <= j < i - lo ==> (s[j] == '_' || is_ascii_alnum(#[trigger] s[j])),
        decreases hi - i,
    {
        let ch = v[i];
        assert(s[i - lo] == ch);
        if !(ch == '_' || is_ascii_alnum_char(ch)) {
            assert(!(s[i - lo] == '_' || is_ascii_alnum(s[i - lo])));
            return Err(EnvError::KeyBadChar);
        }
        i += 1;
    }
    Ok(())
}

/// Checks `v` against the env-key rules.
pub fn check_key_chars(v: &Vec<char>) -> (r: Result<(), EnvError>)
    ensures
        r matches Err(e) ==> key_fault(v@) == Some(e),
        r is Ok ==> key_fault(v@) is None,
{
    assert(v@.subrange(0, v@.len() as int) =~= v@);
    check_key_range(v, 0, v.len())
}

fn validate_key(value: &str) -> (r: Result<(), EnvError>)
    ensures
        r matches Err(e) ==> key_fault(value@) == Some(e),
        r is Ok ==> key_fault(value@) is None,
{
    let v = chars_of(value);
    check_key_chars(&v)
}

/// The name of an environment variable; always a valid env key.
#[derive(Debug, PartialEq, Eq, Hash, PartialOrd, Ord)]
pub struct EnvKey(String);

impl View for EnvKey {
    type V = Seq<char>;

    closed spec fn view(&self) -> Seq<char> {
        self.0@
    }
}

impl EnvKey {
    #[verifier::type_invariant]
    spec fn inv(self) -> bool {
        is_valid_key(self.0@)
    }

    /// Accepts `value` exactly when it is a valid env key.
    pub fn parse(value: &str) -> (r: Result<EnvKey, EnvError>)
        ensures
            r matches Ok(k) ==> is_valid_key(value@) && k@ == value@,
            r matches Err(e) ==> key_fault(value@) == Some(e),
    {
        validate_key(value)?;
        let mut s = String::new();
        push_str(&mut s, value);
        Ok(EnvKey(s))
    }

    /// A key made of the characters in `v`.
    pub fn from_chars(v: &Vec<char>) -> (r: Result<EnvKey, EnvError>)
        ensures
            r matches Ok(k) ==> is_valid_key(v@) && k@ == v@,
            r matches Err(e) ==> key_fault(v@) == Some(e),
    {
        check_key_chars(v)?;
        Ok(EnvKey(string_of(v)))
    }

    /// A key made of the characters in `v[lo..hi]`.
    pub fn from_range(v: &Vec<char>, lo: usize, hi: usize) -> (r: Result<EnvKey, EnvError>)
        requires
            lo <= hi <= v.len(),
        ensures
            r matches Ok(k) ==> is_valid_key(v@.subrange(lo as int, hi as int)) && k@ == v@.subrange(
                lo as int,
                hi as int,
            ),
            r matches Err(e) ==> key_fault(v@.subrange(lo as int, hi as int)) == Some(e),
    {
        check_key_range(v, lo, hi)?;
        let mut s = String::new();
        push_range(&mut s, v, lo, hi);
        assert(s@ =~= v@.subrange(lo as int, hi as int));
        Ok(EnvKey(s))
    }

    pub fn as_str(&self) -> (r: &str)
        ensures
            r@ == self@,
    {
        self.0.as_str()
    }
}

impl Clone for EnvKey {
    fn clone(&self) -> (r: EnvKey)
        ensures
            r == *self,
    {
        proof {
            use_type_invariant(self);
        }
        EnvKey(self.0.clone())
    }
}

/// A registered project.
#[derive(Debug, PartialEq, Eq)]
pub struct ProjectRecord {
    pub id: String,
    pub root_path: String,
    pub name: String,
    pub created_at: i64,
}

impl Clone for ProjectRecord {
    fn clone(&self) -> (r: ProjectRecord)
        ensures
            r == *self,
    {
        ProjectRecord {
            id: self.id.clone(),
            root_path: self.root_path.clone(),
            name: self.name.clone(),
            created_at: self.created_at,
        }
    }
}

/// What is known of a stored variable, apart from its value.
#[derive(Debug, PartialEq, Eq)]
pub struct VarMetadata {
    pub key: EnvKey,
    pub scope: Scope,
    pub project_id: Option<String>,
    pub profile: String,
    pub updated_at: i64,
    pub expires_at: Option<i64>,
}

pub fn clone_opt_string(o: &Option<String>) -> (r: Option<String>)
    ensures
        r == *o,
{
    match o {
        Some(s) => Some(s.clone()),
        None => None,
    }
}

impl Clone for VarMetadata {
    fn clone(&self) -> (r: VarMetadata)
        ensures
            r == *self,
    {
        VarMetadata {
            key: self.key.clone(),
            scope: self.scope,
            project_id: clone_opt_string(&self.project_id),
            profile: self.profile.clone(),
            updated_at: self.updated_at,
            expires_at: self.expires_at,
        }
    }
}

/// The address of one item in the secret store.
#[derive(Debug, PartialEq, Eq)]
pub struct SecretLocator {
    pub service: String,
    pub account: String,
    pub label: String,
}

impl Clone for SecretLocator {
    fn clone(&self) -> (r: SecretLocator)
        ensures
            r == *self,
    {
        SecretLocator {
            service: self.service.clone(),
            account: self.account.clone(),
            label: self.label.clone(),
        }
    }
}

/// Service, account and label of the item that holds a variable's value.
pub open spec fn var_locator(m: VarMetadata) -> Result<(Seq<char>, Seq<char>, Seq<char>), EnvError> {
    let profile = trim(m.profile@);
    let key = m.key@;
    if profile.len() == 0 {
        Err(EnvError::EmptyProfile)
    } else {
        match m.scope {
            Scope::Global => Ok(
                (
                    "dev.easyenv.global"@,
                    "global/"@ + profile + "/"@ + key,
                    "easyenv "@ + key,
                ),
            ),
            Scope::Project => match m.project_id {
                Some(id) => Ok(
                    (
                        "dev.easyenv.project"@,
                        "project/"@ + id@ + "/"@ + profile + "/"@ + key,
                        "easyenv "@ + key,
                    ),
                ),
                None => Err(EnvError::MissingProjectId),
            },
            Scope::Shell => Err(EnvError::ShellNotStored),
        }
    }
}

/// `s` has no `/`.
pub open spec fn no_slash(s: Seq<char>) -> bool {
    forall|i: int| 0 <= i < s.len() ==> s[i] != '/'
}

/// Two strings with no `/` before a `/` split a string at the same place.
pub proof fn lemma_split_at_slash(x1: Seq<char>, y1: Seq<char>, x2: Seq<char>, y2: Seq<char>)
    requires
        no_slash(x1),
        no_slash(x2),
        x1 + seq!['/'] + y1 == x2 + seq!['/'] + y2,
    ensures
        x1 == x2,
        y1 == y2,
{
    let s = x1 + seq!['/'] + y1;
    if x1.len() < x2.len() {
        assert(s[x1.len() as int] == '/');
        assert(s[x1.len() as int] == x2[x1.len() as int]);
    } else if x2.len() < x1.len() {
        assert(s[x2.len() as int] == '/');
        assert(s[x2.len() as int] == x1[x2.len() as int]);
    }
    assert(x1 =~= s.take(x1.len() as int));
    assert(x2 =~= s.take(x2.len() as int));
    assert(y1 =~= s.skip(x1.len() as int + 1));
    assert(y2 =~= s.skip(x2.len() as int + 1));
}

/// A valid env key has no `/`.
pub proof fn lemma_key_no_slash(k: Seq<char>)
    requires
        is_valid_key(k),
    ensures
        no_slash(k),
{
    assert forall|i: int| 0 <= i < k.len() implies k[i] != '/' by {
        if i > 0 && k[i] == '/' {
            assert(!(k[i] == '_' || is_ascii_alnum(k[i])));
        }
    }
}

/// Distinct variables live in distinct items: where two rows' locators
/// share service and account, and their profiles and project ids hold no
/// `/`, the rows have the same key, scope and profile, and project rows the
/// same project.
pub proof fn law_locators_distinct(m1: VarMetadata, m2: VarMetadata)
    requires
        is_valid_key(m1.key@),
        is_valid_key(m2.key@),
        var_locator(m1) is Ok,
        var_locator(m2) is Ok,
        no_slash(trim(m1.profile@)),
        no_slash(trim(m2.profile@)),
        m1.project_id matches Some(id) ==> no_slash(id@),
        m2.project_id matches Some(id) ==> no_slash(id@),
        var_locator(m1)->Ok_0.0 == var_locator(m2)->Ok_0.0,
        var_locator(m1)->Ok_0.1 == var_locator(m2)->Ok_0.1,
    ensures
        m1.key@ == m2.key@,
        m1.scope == m2.scope,
        trim(m1.profile@) == trim(m2.profile@),
        m1.scope == Scope::Project ==> m1.project_id->Some_0@ == m2.project_id->Some_0@,
{
    reveal_strlit("/");
    reveal_strlit("global/");
    reveal_strlit("project/");
    reveal_strlit("dev.easyenv.global");
    reveal_strlit("dev.easyenv.project");
    lemma_key_no_slash(m1.key@);
    lemma_key_no_slash(m2.key@);
    let p1 = trim(m1.profile@);
    let p2 = trim(m2.profile@);
    let a1 = var_locator(m1)->Ok_0.1;
    let a2 = var_locator(m2)->Ok_0.1;
    if m1.scope != m2.scope {
        assert(var_locator(m1)->Ok_0.0[12] != var_locator(m2)->Ok_0.0[12]);
    }
    assert(m1.scope == m2.scope);
    if m1.scope == Scope::Global {
        let g = "global/"@;
        assert(a1 == g + p1 + "/"@ + m1.key@);
        assert(a1.skip(7) =~= p1 + seq!['/'] + m1.key@);
        assert(a2.skip(7) =~= p2 + seq!['/'] + m2.key@);
        lemma_split_at_slash(p1, m1.key@, p2, m2.key@);
    } else {
        let id1 = m1.project_id->Some_0@;
        let id2 = m2.project_id->Some_0@;
        assert(a1.skip(8) =~= id1 + seq!['/'] + (p1 + "/"@ + m1.key@));
        assert(a2.skip(8) =~= id2 + seq!['/'] + (p2 + "/"@ + m2.key@));
        lemma_split_at_slash(id1, p1 + "/"@ + m1.key@, id2, p2 + "/"@ + m2.key@);
        assert(p1 + "/"@ + m1.key@ =~= p1 + seq!['/'] + m1.key@);
        assert(p2 + "/"@ + m2.key@ =~= p2 + seq!['/'] + m2.key@);
        lemma_split_at_slash(p1, m1.key@, p2, m2.key@);
    }
}

pub open spec fn locator_view(l: SecretLocator) -> (Seq<char>, Seq<char>, Seq<char>) {
    (l.service@, l.account@, l.label@)
}

/// A new `String` holding `s`.
pub fn owned(s: &str) -> (r: String)
    ensures
        r@ == s@,
{
    let mut r = String::new();
    push_str(&mut r, s);
    r
}

/// Appends `v[lo..hi]` to `s`.
pub fn push_range(s: &mut String, v: &Vec<char>, lo: usize, hi: usize)
    requires
        lo <= hi <= v.len(),
    ensures
        final(s)@ == old(s)@ + v@.subrange(lo as int, hi as int),
{
    let ghost s0 = s@;
    let mut i: usize = lo;
    while i < hi
        invariant
            lo <= i <= hi <= v.len(),
            s@ == s0 + v@.subrange(lo as int, i as int),
        decreases hi - i,
    {
        s.push(v[i]);
        i += 1;
        assert(s@ =~= s0 + v@.subrange(lo as int, i as int));
    }
}

impl SecretLocator {
    /// Where the master encryption key lives.
    pub fn master_key() -> (r: SecretLocator)
        ensures
            r.service@ == "dev.easyenv.master"@,
            r.account@ == "master/aes256gcm/default"@,
            r.label@ == "easyenv master key"@,
    {
        SecretLocator {
            service: owned("dev.easyenv.master"),
            account: owned("master/aes256gcm/default"),
            label: owned("easyenv master key"),
        }
    }

    /// Where the health check writes its probe item.
    pub fn doctor_probe(suffix: &str) -> (r: SecretLocator)
        ensures
            r.service@ == "dev.easyenv.doctor"@,
            r.account@ == "probe/"@ + suffix@,
            r.label@ == "easyenv doctor probe"@,
    {
        let mut account = owned("probe/");
        push_str(&mut account, suffix);
        SecretLocator {
            service: owned("dev.easyenv.doctor"),
            account,
            label: owned("easyenv doctor probe"),
        }
    }

    /// Where the workspace share identity lives.
    pub fn share_identity() -> (r: SecretLocator)
        ensures
            r.service@ == "dev.easyenv.identity"@,
            r.account@ == "workspace/age/x25519/default"@,
            r.label@ == "easyenv workspace identity"@,
    {
        SecretLocator {
            service: owned("dev.easyenv.identity"),
            account: owned("workspace/age/x25519/default"),
            label: owned("easyenv workspace identity"),
        }
    }

    /// Where the value of the variable described by `metadata` lives.
    pub fn for_var(metadata: &VarMetadata) -> (r: Result<SecretLocator, EnvError>)
        ensures
            r matches Ok(l) ==> var_locator(*metadata) == Ok::<_, EnvError>(locator_view(l)),
            r matches Err(e) ==> var_locator(*metadata) == Err::<(Seq<char>, Seq<char>, Seq<char>), EnvError>(e),
    {
        let key = metadata.key.as_str();
        let pv = chars_of(metadata.profile.as_str());
        let (a, b) = trim_range(&pv, 0, pv.len());
        proof {
            assert(pv@.subrange(0, pv@.len() as int) =~= pv@);
        }
        if a == b {
            return Err(EnvError::EmptyProfile);
        }
        let (service, account) = match metadata.scope {
            Scope::Global => {
                let mut account = owned("global/");
                push_range(&mut account, &pv, a, b);
                push_str(&mut account, "/");
                push_str(&mut account, key);
                (owned("dev.easyenv.global"), account)
            },
            Scope::Project => {
                let project_id = match &metadata.project_id {
                    Some(id) => id,
                    None => {
                        return Err(EnvError::MissingProjectId);
                    },
                };
                let mut account = owned("project/");
                push_str(&mut account, project_id.as_str());
                push_str(&mut account, "/");
                push_range(&mut account, &pv, a, b);
                push_str(&mut account, "/");
                push_str(&mut account, key);
                (owned("dev.easyenv.project"), account)
            },
            Scope::Shell => {
                return Err(EnvError::ShellNotStored);
            },
        };
        let mut label = owned("easyenv ");
        push_str(&mut label, key);
        Ok(SecretLocator { service, account, label })
    }
}

/// The last normal component of a path, as `Path::file_name` finds it.
pub open spec fn file_name(p: Seq<char>) -> Option<Seq<char>>
    decreases p.len(),
{
    if p.len() == 0 {
        None
    } else if p.last() == '/' {
        file_name(p.drop_last())
    } else {
        let k = last_index_of(p, '/');
        let seg = p.skip(k + 1);
        if seg == "."@ {
            if k < 0 {
                None
            } else {
                proof {
                    lemma_last_index_of_bounds(p, '/');
                }
                file_name(p.take(k))
            }
        } else if seg == ".."@ {
            None
        } else {
            Some(seg)
        }
    }
}

/// Position of the last `c` in `s`, or -1.
pub open spec fn last_index_of(s: Seq<char>, c: char) -> int
    decreases s.len(),
{
    if s.len() == 0 {
        -1
    } else if s.last() == c {
        s.len() - 1
    } else {
        last_index_of(s.drop_last(), c)
    }
}

pub proof fn lemma_last_index_of_bounds(s: Seq<char>, c: char)
    ensures
        -1 <= last_index_of(s, c) < s.len(),
    decreases s.len(),
{
    if s.len() > 0 && s.last() != c {
        lemma_last_index_of_bounds(s.drop_last(), c);
    }
}

pub proof fn lemma_last_index_of_is(s: Seq<char>, c: char, k: int)
    requires
        -1 <= k < s.len(),
        k >= 0 ==> s[k] == c,
        forall|j: int| k < j < s.len() ==> s[j] != c,
    ensures
        last_index_of(s, c) == k,
    decreases s.len(),
{
    if s.len() > 0 && s.last() != c {
        assert forall|j: int| k < j < s.drop_last().len() implies s.drop_last()[j] != c by {
            assert(s.drop_last()[j] == s[j]);
        }
        lemma_last_index_of_is(s.drop_last(), c, k);
    }
}

/// The name a newly registered project gets: the path's last component, or `project`.
pub open spec fn project_name_of(p: Seq<char>) -> Seq<char> {
    match file_name(p) {
        Some(n) => n,
        None => "project"@,
    }
}

pub fn default_project_name(path: &str) -> (r: String)
    ensures
        r@ == project_name_of(path@),
{
    let v = chars_of(path);
    let mut end: usize = v.len();

    proof {
        assert(v@.take(v@.len() as int) =~= v@);
    }
    loop
        invariant
            end <= v.len(),
            v@ == path@,
            file_name(v@) == file_name(v@.take(end as int)),
        decreases end,
    {
        proof {
            reveal_strlit(".");
            reveal_strlit("..");
        }
        let ghost end0 = end;
        while end > 0 && v[end - 1] == '/'
            invariant
                end <= end0 <= v.len(),
                file_name(v@) == file_name(v@.take(end as int)),
            decreases end,
        {
            assert(v@.take(end as int).drop_last() =~= v@.take(end - 1));
            end -= 1;
        }
        if end == 0 {
            proof {
                assert(v@.take(0).len() == 0);
                assert(file_name(v@.take(0)) is None);
            }
            return owned("project");
        }
        let ghost p = v@.take(end as int);
        let mut k: usize = end;
        while k > 0 && v[k - 1] != '/'
            invariant
                k <= end <= v.len(),
                forall|j: int| k <= j < end ==> v@[j] != '/',
            decreases k,
        {
            k -= 1;
        }
        proof {
            lemma_last_index_of_is(p, '/', k - 1);
            assert(p.skip(k as int) =~= v@.subrange(k as int, end as int));
        }
        let seg_len = end - k;
        if seg_len == 1 && v[k] == '.' {
            proof {
                assert(v@.subrange(k as int, end as int) =~= "."@);
            }
            if k == 0 {
                return owned("project");
            }
            proof {
                assert(p.take(k - 1) =~= v@.take(k - 1));
            }
            end = k - 1;
        } else if seg_len == 2 && v[k] == '.' && v[k + 1] == '.' {
            proof {
                assert(v@.subrange(k as int, end as int) =~= ".."@);
            }
            return owned("project");
        } else {
            proof {
                if v@.subrange(k as int, end as int) == "."@ {
                    assert(v@.subrange(k as int, end as int)[0] == '.');
                }
                if v@.subrange(k as int, end as int) == ".."@ {
                    assert(v@.subrange(k as int, end as int)[0] == '.');
                    assert(v@.subrange(k as int, end as int)[1] == '.');
                }
            }
            let mut name = String::new();
            push_range(&mut name, &v, k, end);
            assert(name@ =~= v@.subrange(k as int, end as int));
            return name;
        }
    }
}

/// SHA-256 of `data`, as the `sha2` crate computes it.
pub uninterp spec fn sha256_of(data: Seq<u8>) -> Seq<u8>;

/// Calls `sha2::Sha256::digest`. Trusted: the result is the SHA-256 digest
/// of `data`, named `sha256_of`, and is 32 bytes long.
#[verifier::external_body]
pub(crate) fn sha256_digest(data: &[u8]) -> (r: Vec<u8>)
    ensures
        r@ == sha256_of(data@),
        r@.len() == 32,
{
    sha2::Sha256::digest(data).to_vec()
}

/// The lower-case hex digit for `n < 16`.
pub open spec fn hex_digit(n: u8) -> char {
    if n < 10 {
        ((48 + n) as u8) as char
    } else {
        ((87 + n) as u8) as char
    }
}

/// Lower-case hex encoding, two digits per byte, high nibble first.
pub open spec fn hex_lower(b: Seq<u8>) -> Seq<char>
    decreases b.len(),
{
    if b.len() == 0 {
        Seq::empty()
    } else {
        seq![hex_digit(b[0] / 16), hex_digit(b[0] % 16)] + hex_lower(b.drop_first())
    }
}

/// Calls `hex::encode`. Trusted: the result is the lower-case hex encoding
/// of `data`, two characters per byte, high nibble first.
#[verifier::external_body]
pub(crate) fn hex_encode(data: &[u8]) -> (r: String)
    ensures
        r@ == hex_lower(data@),
{
    hex::encode(data)
}

/// A project's id: hex of the first 16 bytes of the SHA-256 of its path.
pub open spec fn project_id_of(path: Seq<char>) -> Seq<char> {
    hex_lower(sha256_of(vstd::utf8::encode_utf8(path)).take(16))
}

pub fn project_id_for_path(path: &str) -> (r: String)
    ensures
        r@ == project_id_of(path@),
{
    let mut digest = sha256_digest(path.as_bytes());
    digest.truncate(16);
    hex_encode(digest.as_slice())
}

} // verus!
