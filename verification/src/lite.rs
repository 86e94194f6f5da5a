//! The standalone tool: values kept under a profile in the global scope, a
//! project's scope or the shell, an index of what is stored, and the rules
//! for keys, assignments, `.env` files and what is printed.

use vstd::prelude::*;

use crate::error::EnvError;
use crate::store::StoreError;
use crate::order::{has_key, lemma_upsert_keys, strictly_sorted, upsert_sorted, Keyed};
use crate::text::{chars_of, find_char, index_of, is_ascii_alnum, is_ascii_digit, push_str, trim, trim_range};

verus! {

broadcast use vstd::string::group_string_axioms;

/// Where a value lives.
#[derive(Debug)]
pub enum LiteScope {
    Global,
    Project { id: String, root: String },
    Shell,
}

/// What names a stored value.
#[derive(Debug)]
pub struct SecretRef {
    pub key: String,
    pub scope: LiteScope,
    pub profile: String,
}

/// A value together with where it lives.
#[derive(Debug)]
pub struct SecretRecord {
    pub key: String,
    pub value: String,
    pub scope: LiteScope,
    pub profile: String,
}

/// Characters a key may hold.
pub open spec fn env_key_char(c: char) -> bool {
    is_ascii_alnum(c) || c == '_'
}

pub fn is_env_key_char(c: char) -> (b: bool)
    ensures
        b == env_key_char(c),
{
    crate::text::is_ascii_alnum_char(c) || c == '_'
}

/// Why `s` is not a key, if it is not one.
pub open spec fn lite_key_fault(s: Seq<char>) -> Option<EnvError> {
    if s.len() == 0 {
        Some(EnvError::EmptyKey)
    } else if is_ascii_digit(s[0]) {
        Some(EnvError::KeyLeadingDigit)
    } else if exists|i: int| 0 <= i < s.len() && !env_key_char(#[trigger] s[i]) {
        Some(EnvError::KeyBadChar)
    } else {
        None
    }
}

/// The tool's key rule in plain terms: a key is accepted exactly when it
/// is not empty, does not start with a digit, and holds only ASCII letters,
/// digits and `_`; so every ASCII letter may stand anywhere in a key.
pub proof fn law_lite_key_rule(s: Seq<char>)
    ensures
        lite_key_fault(s) is None <==> (s.len() > 0 && !('0' <= s[0] && s[0] <= '9') && forall|i: int|
            0 <= i < s.len() ==> (#[trigger] s[i] == '_' || ('a' <= s[i] && s[i] <= 'z') || ('A' <= s[i]
                && s[i] <= 'Z') || ('0' <= s[i] && s[i] <= '9'))),
{
    if lite_key_fault(s) is None {
        assert forall|i: int| 0 <= i < s.len() implies (#[trigger] s[i] == '_' || ('a' <= s[i] && s[i] <= 'z')
            || ('A' <= s[i] && s[i] <= 'Z') || ('0' <= s[i] && s[i] <= '9')) by {
            assert(env_key_char(s[i]));
        }
    }
}

/// Accepts a key that is not empty, does not start with a digit and holds
/// only ASCII letters, digits and `_`.
pub fn validate_key(key: &str) -> (r: Result<(), EnvError>)
    ensures
        r matches Err(e) ==> lite_key_fault(key@) == Some(e),
        r is Ok ==> lite_key_fault(key@) is None,
{
    let v = chars_of(key);
    if v.len() == 0 {
        return Err(EnvError::EmptyKey);
    }
    if '0' <= v[0] && v[0] <= '9' {
        return Err(EnvError::KeyLeadingDigit);
    }
    let mut i: usize = 0;
    while i < v.len()
        invariant
            i <= v@.len(),
            v@ == key@,
            v@.len() > 0,
            !is_ascii_digit(v@[0]),
            forall|j: int| 0 <= j < i ==> env_key_char(#[trigger] v@[j]),
        decreases v@.len() - i,
    {
        if !is_env_key_char(v[i]) {
            assert(!env_key_char(v@[i as int]));
            return Err(EnvError::KeyBadChar);
        }
        i += 1;
    }
    Ok(())
}

/// The name a scope is shown by.
pub open spec fn label_of(scope: LiteScope) -> Seq<char> {
    match scope {
        LiteScope::Global => "global"@,
        LiteScope::Project { .. } => "project"@,
        LiteScope::Shell => "shell"@,
    }
}

pub fn scope_label(scope: &LiteScope) -> (r: &'static str)
    ensures
        r@ == label_of(*scope),
{
    match scope {
        LiteScope::Global => "global",
        LiteScope::Project { .. } => "project",
        LiteScope::Shell => "shell",
    }
}

/// The credential name of a stored value: profile, scope and key, joined by `:`.
pub open spec fn user_of(r: SecretRef) -> Seq<char> {
    let scope = match r.scope {
        LiteScope::Global => "global"@,
        LiteScope::Project { id, .. } => "project:"@ + id@,
        LiteScope::Shell => "shell"@,
    };
    r.profile@ + ":"@ + scope + ":"@ + r.key@
}

pub fn store_user(secret_ref: &SecretRef) -> (r: String)
    ensures
        r@ == user_of(*secret_ref),
{
    let mut s = crate::domain::owned(secret_ref.profile.as_str());
    push_str(&mut s, ":");
    match &secret_ref.scope {
        LiteScope::Global => push_str(&mut s, "global"),
        LiteScope::Project { id, .. } => {
            push_str(&mut s, "project:");
            push_str(&mut s, id.as_str());
        },
        LiteScope::Shell => push_str(&mut s, "shell"),
    }
    push_str(&mut s, ":");
    push_str(&mut s, secret_ref.key.as_str());
    s
}

/// `n` stars.
pub open spec fn stars(n: nat) -> Seq<char> {
    Seq::new(n, |i: int| '*')
}

fn push_stars(s: &mut String, n: usize)
    ensures
        final(s)@ == old(s)@ + stars(n as nat),
{
    let mut i: usize = 0;
    while i < n
        invariant
            i <= n,
            s@ == old(s)@ + stars(i as nat),
        decreases n - i,
    {
        s.push('*');
        i += 1;
        assert(s@ =~= old(s)@ + stars(i as nat));
    }
}

/// The value can be masked: beyond four bytes, its last four bytes start a character.
pub open spec fn lite_maskable(value: Seq<char>) -> bool {
    let b = vstd::utf8::encode_utf8(value);
    b.len() <= usize::MAX && (b.len() <= 4 || vstd::utf8::is_char_boundary(b, b.len() - 4))
}

/// A value as shown masked: a star per byte but the last four bytes, which
/// are shown as they are; nothing for an empty value, and only stars for a
/// value of at most four bytes.
pub open spec fn masked_lite(value: Seq<char>) -> Seq<char> {
    let b = vstd::utf8::encode_utf8(value);
    if b.len() == 0 {
        Seq::empty()
    } else if b.len() <= 4 {
        stars(b.len())
    } else {
        stars((b.len() - 4) as nat) + vstd::utf8::decode_utf8(b.skip(b.len() - 4))
    }
}

pub fn mask(value: &str) -> (r: String)
    requires
        lite_maskable(value@),
    ensures
        r@ == masked_lite(value@),
{
    let n = value.len();
    let mut s = String::new();
    if n == 0 {
        return s;
    }
    if n <= 4 {
        push_stars(&mut s, n);
        assert(s@ =~= masked_lite(value@));
        return s;
    }
    push_stars(&mut s, n - 4);
    let (_, tail) = value.split_at(n - 4);
    push_str(&mut s, tail);
    proof {
        vstd::utf8::encode_utf8_decode_utf8(tail@);
        assert(vstd::utf8::encode_utf8(value@).subrange(n - 4, n as int) =~= vstd::utf8::encode_utf8(
            value@,
        ).skip(n - 4));
    }
    s
}

/// What `format!("{:?}", s)` writes for the string `s`.
pub uninterp spec fn debug_text(s: Seq<char>) -> Seq<char>;

/// Calls `format!("{:?}", s)`. Trusted: the result is `debug_text(s)`, the
/// string in double quotes with `Debug` escapes.
#[verifier::external_body]
fn debug_quoted(s: &str) -> (r: String)
    ensures
        r@ == debug_text(s@),
{
    format!("{:?}", s)
}

/// Characters a dotenv value may hold without quotes.
pub open spec fn dotenv_bare(c: char) -> bool {
    is_ascii_alnum(c) || c == '_' || c == '-' || c == '.' || c == '/' || c == ':'
}

/// A value as written to a dotenv file: bare when every character may stand
/// bare, else as Rust's `Debug` writes the string.
pub open spec fn dotenv_escaped_lite(s: Seq<char>) -> Seq<char> {
    if forall|i: int| 0 <= i < s.len() ==> dotenv_bare(#[trigger] s[i]) {
        s
    } else {
        debug_text(s)
    }
}

pub fn dotenv_escape(value: &str) -> (r: String)
    ensures
        r@ == dotenv_escaped_lite(value@),
{
    let v = chars_of(value);
    let mut i: usize = 0;
    while i < v.len()
        invariant
            i <= v@.len(),
            v@ == value@,
            forall|j: int| 0 <= j < i ==> dotenv_bare(#[trigger] v@[j]),
        decreases v@.len() - i,
    {
        let c = v[i];
        if !(crate::text::is_ascii_alnum_char(c) || c == '_' || c == '-' || c == '.' || c == '/' || c == ':') {
            return debug_quoted(value);
        }
        i += 1;
    }
    crate::domain::owned(value)
}

/// Position of the first `=` byte in `b`, or `b.len()`.
pub open spec fn first_eq_byte(b: Seq<u8>) -> int
    decreases b.len(),
{
    if b.len() == 0 {
        0
    } else if b[0] == 61 {
        0
    } else {
        1 + first_eq_byte(b.drop_first())
    }
}

proof fn lemma_first_eq_byte(b: Seq<u8>)
    ensures
        0 <= first_eq_byte(b) <= b.len(),
        first_eq_byte(b) < b.len() ==> b[first_eq_byte(b)] == 61,
        forall|j: int| 0 <= j < first_eq_byte(b) ==> b[j] != 61,
    decreases b.len(),
{
    if b.len() > 0 && b[0] != 61 {
        lemma_first_eq_byte(b.drop_first());
        assert forall|j: int| 0 <= j < first_eq_byte(b) implies b[j] != 61 by {
            if j > 0 {
                assert(b[j] == b.drop_first()[j - 1]);
            }
        }
    }
}

/// Splits `KEY=VALUE` at its first `=`: the text before it and the text after.
pub fn parse_assignment(assignment: &str) -> (r: Result<(&str, &str), EnvError>)
    ensures
        ({
            let b = vstd::utf8::encode_utf8(assignment@);
            let i = first_eq_byte(b);
            &&& i == b.len() ==> r == Err::<(&str, &str), EnvError>(EnvError::AssignmentMissingEquals)
            &&& i < b.len() ==> (r matches Ok((k, v)) && vstd::utf8::encode_utf8(k@) == b.take(i) && vstd::utf8::encode_utf8(v@)
                == b.skip(i + 1))
        }),
{
    let b = assignment.as_bytes();
    let ghost bs = vstd::utf8::encode_utf8(assignment@);
    proof {
        lemma_first_eq_byte(bs);
    }
    let mut i: usize = 0;
    while i < b.len() && b[i] != 61
        invariant
            b@ == bs,
            i <= bs.len(),
            forall|j: int| 0 <= j < i ==> bs[j] != 61,
        decreases bs.len() - i,
    {
        i += 1;
    }
    proof {
        if i < bs.len() {
            assert(first_eq_byte(bs) == i) by {
                if first_eq_byte(bs) < i {
                    assert(bs[first_eq_byte(bs)] != 61);
                }
                if first_eq_byte(bs) > i {
                    assert(bs[i as int] != 61);
                }
            }
        } else {
            if first_eq_byte(bs) < bs.len() {
                assert(bs[first_eq_byte(bs)] != 61);
            }
        }
    }
    if i == b.len() {
        return Err(EnvError::AssignmentMissingEquals);
    }
    proof {
        vstd::utf8::encode_utf8_valid_utf8(assignment@);
        vstd::utf8::is_char_boundary_iff_not_is_continuation_byte(bs, i as int);
    }
    let (key, rest) = assignment.split_at(i);
    let ghost rb = vstd::utf8::encode_utf8(rest@);
    proof {
        vstd::utf8::valid_utf8_split(bs, i as int);
        assert(rb =~= bs.subrange(i as int, bs.len() as int));
        assert(rb[0] == 61);
        if rb.len() > 1 {
            vstd::utf8::encode_utf8_valid_utf8(rest@);
            assert(vstd::utf8::length_of_first_scalar(rb) == 1);
            reveal_with_fuel(vstd::utf8::is_char_boundary, 2);
        } else {
            vstd::utf8::is_char_boundary_start_end_of_seq(rb);
        }
    }
    let (_, value) = rest.split_at(1);
    proof {
        assert(vstd::utf8::encode_utf8(key@) =~= bs.take(i as int));
        assert(vstd::utf8::encode_utf8(value@) =~= bs.skip(i + 1));
    }
    Ok((key, value))
}


/// A value with the quotes around it taken off: matching double or single
/// quotes at both ends are removed, an opening quote without its match is
/// refused, anything else is kept as it is.
pub open spec fn unquoted(v: Seq<char>) -> Result<Seq<char>, EnvError> {
    if v.len() >= 2 && ((v[0] == '"' && v.last() == '"') || (v[0] == '\'' && v.last() == '\'')) {
        Ok(v.subrange(1, v.len() - 1))
    } else if v.len() > 0 && (v[0] == '"' || v[0] == '\'') {
        Err(EnvError::UnterminatedQuote)
    } else {
        Ok(v)
    }
}

fn unquote_range(v: &Vec<char>, lo: usize, hi: usize) -> (r: Result<String, EnvError>)
    requires
        lo <= hi <= v.len(),
    ensures
        match r {
            Ok(s) => unquoted(v@.subrange(lo as int, hi as int)) == Ok::<Seq<char>, EnvError>(s@),
            Err(e) => unquoted(v@.subrange(lo as int, hi as int)) == Err::<Seq<char>, EnvError>(e),
        },
{
    let ghost w = v@.subrange(lo as int, hi as int);
    if hi - lo >= 2 && ((v[lo] == '"' && v[hi - 1] == '"') || (v[lo] == '\'' && v[hi - 1] == '\'')) {
        let s = crate::text::string_of_range(v, lo + 1, hi - 1);
        assert(w.subrange(1, w.len() - 1) =~= v@.subrange(lo + 1, hi - 1));
        Ok(s)
    } else if hi > lo && (v[lo] == '"' || v[lo] == '\'') {
        Err(EnvError::UnterminatedQuote)
    } else {
        Ok(crate::text::string_of_range(v, lo, hi))
    }
}

pub fn unquote(value: &str) -> (r: Result<String, EnvError>)
    ensures
        match r {
            Ok(s) => unquoted(value@) == Ok::<Seq<char>, EnvError>(s@),
            Err(e) => unquoted(value@) == Err::<Seq<char>, EnvError>(e),
        },
{
    let v = chars_of(value);
    assert(v@.subrange(0, v@.len() as int) =~= v@);
    unquote_range(&v, 0, v.len())
}

/// What line number `line` of a `.env` file holds: nothing (`Ok(None)`), an
/// entry, or a fault. The key is taken as written before the `=`.
pub open spec fn lite_line(text: Seq<char>, line: nat) -> Result<Option<(Seq<char>, Seq<char>)>, EnvError> {
    let t = trim(text);
    if t.len() == 0 || t[0] == '#' {
        Ok(None)
    } else {
        let u = if 7 <= t.len() && t.take(7) == "export "@ {
            t.skip(7)
        } else {
            t
        };
        let eq = index_of(u, '=');
        if eq == u.len() {
            Err(EnvError::DotenvMissingEquals(line as usize))
        } else {
            let key = u.take(eq as int);
            match lite_key_fault(key) {
                Some(e) => Err(e),
                None => match unquoted(trim(u.skip(eq as int + 1))) {
                    Ok(v) => Ok(Some((key, v))),
                    Err(e) => Err(e),
                },
            }
        }
    }
}

/// The entries of the `.env` text `s` whose first line is number `line`, or
/// the first fault.
pub open spec fn lite_entries(s: Seq<char>, line: nat) -> Result<Seq<(Seq<char>, Seq<char>)>, EnvError>
    decreases s.len(),
{
    let e = index_of(s, '\n');
    let here = lite_line(s.take(e as int), line);
    let rest = if e < s.len() {
        proof {
            crate::text::lemma_index_of_bounds(s, '\n');
        }
        lite_entries(s.skip(e as int + 1), line + 1)
    } else {
        Ok(Seq::empty())
    };
    match here {
        Err(er) => Err(er),
        Ok(None) => rest,
        Ok(Some(p)) => match rest {
            Ok(r) => Ok(seq![p] + r),
            Err(er) => Err(er),
        },
    }
}

pub open spec fn pairs_view(v: Seq<(String, String)>) -> Seq<(Seq<char>, Seq<char>)> {
    v.map_values(|p: (String, String)| (p.0@, p.1@))
}

fn key_range_fault(v: &Vec<char>, lo: usize, hi: usize) -> (r: Option<EnvError>)
    requires
        lo <= hi <= v.len(),
    ensures
        r == lite_key_fault(v@.subrange(lo as int, hi as int)),
{
    let ghost k = v@.subrange(lo as int, hi as int);
    if lo == hi {
        return Some(EnvError::EmptyKey);
    }
    if '0' <= v[lo] && v[lo] <= '9' {
        return Some(EnvError::KeyLeadingDigit);
    }
    let mut i: usize = lo;
    while i < hi
        invariant
            lo <= i <= hi <= v.len(),
            k == v@.subrange(lo as int, hi as int),
            k.len() > 0,
            !is_ascii_digit(k[0]),
            forall|j: int| 0 <= j < i - lo ==> env_key_char(#[trigger] k[j]),
        decreases hi - i,
    {
        if !is_env_key_char(v[i]) {
            assert(!env_key_char(k[i - lo]));
            return Some(EnvError::KeyBadChar);
        }
        i += 1;
    }
    None
}

fn lite_parse_line(v: &Vec<char>, lo: usize, hi: usize, line: usize) -> (r: Result<
    Option<(String, String)>,
    EnvError,
>)
    requires
        lo <= hi <= v.len(),
    ensures
        r matches Ok(Some(p)) ==> lite_line(v@.subrange(lo as int, hi as int), line as nat) == Ok::<
            _,
            EnvError,
        >(Some((p.0@, p.1@))),
        r matches Ok(None) ==> lite_line(v@.subrange(lo as int, hi as int), line as nat) == Ok::<
            Option<(Seq<char>, Seq<char>)>,
            EnvError,
        >(None),
        r matches Err(e) ==> lite_line(v@.subrange(lo as int, hi as int), line as nat) == Err::<
            Option<(Seq<char>, Seq<char>)>,
            EnvError,
        >(e),
{
    let (a, b) = trim_range(v, lo, hi);
    let ghost t = v@.subrange(a as int, b as int);
    if a == b || v[a] == '#' {
        return Ok(None);
    }
    let mut a2 = a;
    proof {
        reveal_strlit("export ");
    }
    if b - a >= 7 && v[a] == 'e' && v[a + 1] == 'x' && v[a + 2] == 'p' && v[a + 3] == 'o' && v[a
        + 4] == 'r' && v[a + 5] == 't' && v[a + 6] == ' ' {
        assert(t.take(7) =~= "export "@);
        a2 = a + 7;
        assert(t.skip(7) =~= v@.subrange(a + 7, b as int));
    } else {
        proof {
            if 7 <= t.len() && t.take(7) == "export "@ {
                assert(t.take(7)[0] == t[0]);
                assert(t.take(7)[1] == t[1]);
                assert(t.take(7)[2] == t[2]);
                assert(t.take(7)[3] == t[3]);
                assert(t.take(7)[4] == t[4]);
                assert(t.take(7)[5] == t[5]);
                assert(t.take(7)[6] == t[6]);
            }
        }
    }
    let ghost u = v@.subrange(a2 as int, b as int);
    let eq = find_char(v, a2, b, '=');
    if eq == b {
        return Err(EnvError::DotenvMissingEquals(line));
    }
    assert(u.take(eq - a2) =~= v@.subrange(a2 as int, eq as int));
    assert(u.skip(eq - a2 + 1) =~= v@.subrange(eq + 1, b as int));
    match key_range_fault(v, a2, eq) {
        Some(e) => {
            return Err(e);
        },
        None => {},
    }
    let key = crate::text::string_of_range(v, a2, eq);
    let (va, vb) = trim_range(v, eq + 1, b);
    let value = unquote_range(v, va, vb)?;
    Ok(Some((key, value)))
}

/// Parses the lines of a `.env` file: blank lines and `#` comments are
/// skipped, a leading `export ` is dropped, and each remaining line must be
/// `KEY=VALUE` with a valid key; quotes around a value are taken off.
pub fn parse_dotenv(content: &str) -> (r: Result<Vec<(String, String)>, EnvError>)
    requires
        content@.len() < usize::MAX,
    ensures
        r matches Ok(entries) ==> lite_entries(content@, 1) == Ok::<
            Seq<(Seq<char>, Seq<char>)>,
            EnvError,
        >(pairs_view(entries@)),
        r matches Err(e) ==> lite_entries(content@, 1) == Err::<Seq<(Seq<char>, Seq<char>)>, EnvError>(e),
{
    let v = chars_of(content);
    let mut entries: Vec<(String, String)> = Vec::new();
    let mut p: usize = 0;
    let mut line: usize = 1;
    assert(v@.skip(0) =~= v@);
    loop
        invariant
            p <= v.len() < usize::MAX,
            1 <= line <= p + 1,
            v@ == content@,
            lite_entries(v@, 1) == crate::dotenv::prepend(
                pairs_view(entries@),
                lite_entries(v@.skip(p as int), line as nat),
            ),
        decreases v.len() - p,
    {
        let ghost s = v@.skip(p as int);
        let e = find_char(&v, p, v.len(), '\n');
        proof {
            assert(v@.subrange(p as int, v.len() as int) =~= s);
            assert(s.take(e - p) =~= v@.subrange(p as int, e as int));
            if e < v.len() {
                assert(s.skip(e - p + 1) =~= v@.skip(e + 1));
            }
        }
        let outcome = lite_parse_line(&v, p, e, line);
        match outcome {
            Err(er) => {
                return Err(er);
            },
            Ok(Some(entry)) => {
                let ghost before = pairs_view(entries@);
                let ghost ev = (entry.0@, entry.1@);
                entries.push(entry);
                proof {
                    assert(pairs_view(entries@) =~= before + seq![ev]);
                    assert forall|x: Seq<(Seq<char>, Seq<char>)>|
                        before + (seq![ev] + x) =~= pairs_view(entries@) + x by {}
                }
            },
            Ok(None) => {},
        }
        if e == v.len() {
            proof {
                assert(pairs_view(entries@) + Seq::<(Seq<char>, Seq<char>)>::empty() =~= pairs_view(entries@));
            }
            return Ok(entries);
        }
        p = e + 1;
        line = line + 1;
    }
}


/// A scope as rank, project id and project root.
pub open spec fn scope_view(s: LiteScope) -> (nat, Seq<char>, Seq<char>) {
    match s {
        LiteScope::Global => (0, Seq::empty(), Seq::empty()),
        LiteScope::Project { id, root } => (1, id@, root@),
        LiteScope::Shell => (2, Seq::empty(), Seq::empty()),
    }
}

/// A record as key, value, scope and profile.
pub open spec fn record_view(r: SecretRecord) -> (Seq<char>, Seq<char>, (nat, Seq<char>, Seq<char>), Seq<char>) {
    (r.key@, r.value@, scope_view(r.scope), r.profile@)
}

pub open spec fn records_view(v: Seq<SecretRecord>) -> Seq<(Seq<char>, Seq<char>, (nat, Seq<char>, Seq<char>), Seq<char>)> {
    v.map_values(|r: SecretRecord| record_view(r))
}

/// The order of listed records: by key, then global before project before
/// shell, then by project id, then by project root.
pub open spec fn rec_lt(
    a: (Seq<char>, Seq<char>, (nat, Seq<char>, Seq<char>), Seq<char>),
    b: (Seq<char>, Seq<char>, (nat, Seq<char>, Seq<char>), Seq<char>),
) -> bool {
    ||| crate::order::lex_lt(a.0, b.0)
    ||| (a.0 == b.0 && a.2.0 < b.2.0)
    ||| (a.0 == b.0 && a.2.0 == b.2.0 && crate::order::lex_lt(a.2.1, b.2.1))
    ||| (a.0 == b.0 && a.2.0 == b.2.0 && a.2.1 == b.2.1 && crate::order::lex_lt(a.2.2, b.2.2))
}

proof fn lemma_rec_lt_order(
    a: (Seq<char>, Seq<char>, (nat, Seq<char>, Seq<char>), Seq<char>),
    b: (Seq<char>, Seq<char>, (nat, Seq<char>, Seq<char>), Seq<char>),
    c: (Seq<char>, Seq<char>, (nat, Seq<char>, Seq<char>), Seq<char>),
)
    ensures
        !(rec_lt(a, b) && rec_lt(b, a)),
        rec_lt(a, b) && rec_lt(b, c) ==> rec_lt(a, c),
{
    crate::order::lemma_lex_asymmetric(a.0, b.0);
    crate::order::lemma_lex_asymmetric(a.2.1, b.2.1);
    crate::order::lemma_lex_irreflexive(a.0);
    crate::order::lemma_lex_irreflexive(b.0);
    crate::order::lemma_lex_irreflexive(a.2.1);
    crate::order::lemma_lex_asymmetric(a.2.2, b.2.2);
    crate::order::lemma_lex_irreflexive(a.2.2);
    if crate::order::lex_lt(a.2.2, b.2.2) && crate::order::lex_lt(b.2.2, c.2.2) {
        crate::order::lemma_lex_transitive(a.2.2, b.2.2, c.2.2);
    }
    if crate::order::lex_lt(a.0, b.0) && crate::order::lex_lt(b.0, c.0) {
        crate::order::lemma_lex_transitive(a.0, b.0, c.0);
    }
    if crate::order::lex_lt(a.2.1, b.2.1) && crate::order::lex_lt(b.2.1, c.2.1) {
        crate::order::lemma_lex_transitive(a.2.1, b.2.1, c.2.1);
    }
}

/// No record of `s` comes after a later one.
pub open spec fn records_sorted(s: Seq<(Seq<char>, Seq<char>, (nat, Seq<char>, Seq<char>), Seq<char>)>) -> bool {
    forall|i: int, j: int| 0 <= i < j < s.len() ==> !rec_lt(#[trigger] s[j], #[trigger] s[i])
}

fn scope_rank(s: &LiteScope) -> (r: u8)
    ensures
        r as nat == scope_view(*s).0,
{
    match s {
        LiteScope::Global => 0,
        LiteScope::Project { .. } => 1,
        LiteScope::Shell => 2,
    }
}

fn scope_id(s: &LiteScope) -> (r: &str)
    ensures
        r@ == scope_view(*s).1,
{
    match s {
        LiteScope::Project { id, .. } => id.as_str(),
        _ => {
            proof {
                reveal_strlit("");
            }
            ""
        },
    }
}

fn scope_root(s: &LiteScope) -> (r: &str)
    ensures
        r@ == scope_view(*s).2,
{
    match s {
        LiteScope::Project { root, .. } => root.as_str(),
        _ => {
            proof {
                reveal_strlit("");
            }
            ""
        },
    }
}

fn record_less(a: &SecretRecord, b: &SecretRecord) -> (r: bool)
    ensures
        r == rec_lt(record_view(*a), record_view(*b)),
{
    let c = crate::order::compare_str(a.key.as_str(), b.key.as_str());
    if c != 0 {
        return c < 0;
    }
    let ra = scope_rank(&a.scope);
    let rb = scope_rank(&b.scope);
    if ra != rb {
        return ra < rb;
    }
    let ci = crate::order::compare_str(scope_id(&a.scope), scope_id(&b.scope));
    if ci != 0 {
        return ci < 0;
    }
    crate::order::compare_str(scope_root(&a.scope), scope_root(&b.scope)) < 0
}

/// Sorts `records` by key, then scope, keeping the order of records that tie.
pub fn sort_records(records: Vec<SecretRecord>) -> (r: Vec<SecretRecord>)
    ensures
        records_sorted(records_view(r@)),
        records_view(r@).to_multiset() == records_view(records@).to_multiset(),
{
    let mut rest = records;
    let ghost all = records_view(rest@);
    let mut out: Vec<SecretRecord> = Vec::new();
    let ghost mut taken: int = 0;
    proof {
        assert(records_view(out@) =~= all.take(0));
        assert(all.skip(0) =~= all);
    }
    while rest.len() > 0
        invariant
            0 <= taken <= all.len(),
            records_view(rest@) == all.skip(taken),
            records_sorted(records_view(out@)),
            records_view(out@).to_multiset() == all.take(taken).to_multiset(),
        decreases rest@.len(),
    {
        let ghost before_rest = rest@;
        let x = rest.remove(0);
        let ghost xv = record_view(x);
        proof {
            assert(rest@ =~= before_rest.drop_first());
            assert(x == before_rest[0]);
            assert(records_view(before_rest)[0] == xv);
            assert(all.skip(taken).len() > 0);
            assert(all[taken] == xv);
            assert forall|k: int| 0 <= k < rest@.len() implies records_view(rest@)[k] == all.skip(taken + 1)[k] by {
                assert(records_view(rest@)[k] == record_view(before_rest[k + 1]));
                assert(records_view(before_rest)[k + 1] == all.skip(taken)[k + 1]);
            }
            assert(records_view(rest@) =~= all.skip(taken + 1));
            assert(all.take(taken + 1) =~= all.take(taken).push(xv));
            vstd::seq_lib::to_multiset_build(all.take(taken), xv);
        }
        let ghost ov = records_view(out@);
        let mut pos: usize = 0;
        while pos < out.len() && !record_less(&x, &out[pos])
            invariant
                pos <= out@.len(),
                ov == records_view(out@),
                xv == record_view(x),
                forall|j: int| 0 <= j < pos ==> !rec_lt(xv, #[trigger] ov[j]),
            decreases out@.len() - pos,
        {
            pos += 1;
        }
        out.insert(pos, x);
        proof {
            assert(records_view(out@) =~= ov.insert(pos as int, xv));
            vstd::seq_lib::to_multiset_insert(ov, pos as int, xv);
            let nv = records_view(out@);
            assert forall|i: int, j: int| 0 <= i < j < nv.len() implies !rec_lt(#[trigger] nv[j], #[trigger] nv[i]) by {
                if i < pos && j < pos {
                    assert(nv[i] == ov[i] && nv[j] == ov[j]);
                } else if i < pos && j == pos {
                    assert(nv[i] == ov[i]);
                } else if i < pos && j > pos {
                    assert(nv[i] == ov[i] && nv[j] == ov[j - 1]);
                } else if i == pos {
                    assert(nv[j] == ov[j - 1]);
                    assert(rec_lt(xv, ov[pos as int]));
                    assert(!rec_lt(ov[j - 1], ov[pos as int]) || j - 1 == pos);
                    lemma_rec_lt_order(ov[j - 1], xv, ov[pos as int]);
                    lemma_rec_lt_order(xv, ov[pos as int], xv);
                } else {
                    assert(nv[i] == ov[i - 1] && nv[j] == ov[j - 1]);
                }
            }
            taken = taken + 1;
        }
    }
    proof {
        assert(all.take(all.len() as int) =~= all);
    }
    out
}


impl Clone for LiteScope {
    fn clone(&self) -> (r: LiteScope)
        ensures
            r == *self,
    {
        match self {
            LiteScope::Global => LiteScope::Global,
            LiteScope::Project { id, root } => LiteScope::Project { id: id.clone(), root: root.clone() },
            LiteScope::Shell => LiteScope::Shell,
        }
    }
}

impl Clone for SecretRef {
    fn clone(&self) -> (r: SecretRef)
        ensures
            r == *self,
    {
        SecretRef { key: self.key.clone(), scope: self.scope.clone(), profile: self.profile.clone() }
    }
}

/// A project's marker file.
#[derive(Debug)]
pub struct ProjectFile {
    pub id: String,
    pub name: String,
}

/// The scope a listing is limited to.
#[derive(Debug, Clone, Copy, PartialEq, Eq, Structural)]
pub enum ScopeArg {
    Global,
    Project,
    Shell,
}

/// The scope a write goes to: global when asked for, the project's scope
/// when asked for (refused outside a project), else the project's scope
/// inside a project and global outside. `project` is the project found from
/// the current directory, as its root and marker file.
pub fn resolve_scope(global: bool, project: bool, found: Option<(String, ProjectFile)>) -> (r: Result<LiteScope, EnvError>)
    ensures
        global ==> r == Ok::<LiteScope, EnvError>(LiteScope::Global),
        !global ==> match found {
            Some((root, pf)) => r == Ok::<LiteScope, EnvError>(LiteScope::Project { id: pf.id, root }),
            None => if project {
                r == Err::<LiteScope, EnvError>(EnvError::NotInProject)
            } else {
                r == Ok::<LiteScope, EnvError>(LiteScope::Global)
            },
        },
{
    if global {
        return Ok(LiteScope::Global);
    }
    match found {
        Some((root, pf)) => Ok(LiteScope::Project { id: pf.id, root }),
        None => if project {
            Err(EnvError::NotInProject)
        } else {
            Ok(LiteScope::Global)
        },
    }
}

/// Where a key is looked for, in order: the project's scope when inside a
/// project, then the global scope.
pub fn explain_candidates(key: &str, profile: &str, found: Option<(String, ProjectFile)>) -> (r: Vec<SecretRef>)
    ensures
        r@.len() == (if found is Some { 2int } else { 1int }),
        forall|i: int| 0 <= i < r@.len() ==> (#[trigger] r@[i]).key@ == key@ && r@[i].profile@ == profile@,
        r@.last().scope == LiteScope::Global,
        found matches Some((root, pf)) ==> r@[0].scope == (LiteScope::Project { id: pf.id, root }),
{
    let mut candidates: Vec<SecretRef> = Vec::new();
    match found {
        Some((root, pf)) => candidates.push(
            SecretRef {
                key: crate::domain::owned(key),
                scope: LiteScope::Project { id: pf.id, root },
                profile: crate::domain::owned(profile),
            },
        ),
        None => {},
    }
    candidates.push(
        SecretRef { key: crate::domain::owned(key), scope: LiteScope::Global, profile: crate::domain::owned(profile) },
    );
    candidates
}

/// A value as found, with where it came from and where it was looked for.
#[derive(Debug)]
pub struct ResolvedValue {
    pub value: String,
    pub source: LiteScope,
    pub candidates: Vec<SecretRef>,
}

/// The index of the first stored value among `found`, if any.
pub open spec fn first_found(found: Seq<Option<String>>) -> Option<int>
    decreases found.len(),
{
    if found.len() == 0 {
        None
    } else {
        match found.last() {
            Some(_) => match first_found(found.drop_last()) {
                Some(i) => Some(i),
                None => Some(found.len() - 1),
            },
            None => first_found(found.drop_last()),
        }
    }
}

/// The standalone tool's store, as a lookup sees it: what it holds for a
/// reference. Implementations keep their values in the keychain or a file.
pub trait LiteStore {
    fn get(&self, secret_ref: &SecretRef) -> Result<Option<String>, StoreError>;
}

/// `found` is what a lookup of `n` candidates read: nothing where the shell
/// has a value; else one result per candidate read in order, stopping after
/// the first that holds a value.
pub open spec fn looked_up(found: Seq<Option<String>>, n: int, shell_set: bool) -> bool {
    if shell_set {
        found.len() == 0
    } else {
        &&& found.len() <= n
        &&& forall|i: int| 0 <= i < found.len() - 1 ==> (#[trigger] found[i]) is None
        &&& found.len() < n ==> found.len() > 0 && found.last() is Some
    }
}

/// Reads the store for each of `candidates` in turn until one holds a
/// value; reads nothing when the shell already has one (`shell_set`).
pub fn lookup_candidates<S: LiteStore>(store: &S, shell_set: bool, candidates: &Vec<SecretRef>) -> (r: Result<
    Vec<Option<String>>,
    StoreError,
>)
    ensures
        r matches Ok(found) ==> looked_up(found@, candidates@.len() as int, shell_set),
        shell_set || candidates@.len() == 0 ==> (r matches Ok(found) && found@.len() == 0),
{
    let mut found: Vec<Option<String>> = Vec::new();
    if shell_set {
        return Ok(found);
    }
    let mut i: usize = 0;
    while i < candidates.len()
        invariant
            !shell_set,
            i <= candidates@.len(),
            found@.len() == i,
            forall|j: int| 0 <= j < i ==> (#[trigger] found@[j]) is None,
        decreases candidates@.len() - i,
    {
        let value = store.get(&candidates[i])?;
        let done = value.is_some();
        found.push(value);
        if done {
            return Ok(found);
        }
        i += 1;
    }
    Ok(found)
}

/// Resolves `key`: its value in the shell wins; else the value stored for
/// the first candidate that has one, where `found[i]` is what the store
/// holds for `candidates[i]` (the candidates after the first found need not
/// be looked up).
#[verifier::loop_isolation(false)]
pub fn resolve_value(
    key: &str,
    shell_value: Option<String>,
    candidates: Vec<SecretRef>,
    found: Vec<Option<String>>,
) -> (r: Result<ResolvedValue, EnvError>)
    requires
        found@.len() <= candidates@.len(),
    ensures
        shell_value matches Some(v) ==> (r matches Ok(rv) && rv.value == v && rv.source == LiteScope::Shell
            && rv.candidates == candidates),
        shell_value is None ==> match first_found(found@) {
            Some(i) => r matches Ok(rv) && rv.value == found@[i]->Some_0 && rv.source == candidates@[i].scope
                && rv.candidates == candidates,
            None => r matches Err(e) && e is NoValue && e->NoValue_0@ == key@,
        },
{
    match shell_value {
        Some(value) => {
            return Ok(ResolvedValue { value, source: LiteScope::Shell, candidates });
        },
        None => {},
    }
    let mut found = found;
    let mut i: usize = 0;
    let ghost all = found@;
    while i < found.len()
        invariant
            i <= found@.len(),
            found@.len() == all.len(),
            all.len() <= candidates@.len(),
            forall|j: int| i <= j < all.len() ==> found@[j] == all[j],
            first_found(all.take(i as int)) is None,
        decreases found@.len() - i,
    {
        proof {
            assert(all.take(i + 1).drop_last() =~= all.take(i as int));
        }
        if found[i].is_some() {
            let v = found.remove(i);
            proof {
                assert(first_found(all.take(i + 1)) == Some(i as int));
                lemma_first_found_prefix(all, i as int);
            }
            let value = match v {
                Some(v) => v,
                None => String::new(),
            };
            let source = candidates[i].scope.clone();
            return Ok(ResolvedValue { value, source, candidates });
        }
        i += 1;
    }
    proof {
        assert(all.take(all.len() as int) =~= all);
    }
    Err(EnvError::NoValue(crate::domain::owned(key)))
}

proof fn lemma_first_found_prefix(s: Seq<Option<String>>, i: int)
    requires
        0 <= i < s.len(),
        first_found(s.take(i + 1)) == Some(i),
    ensures
        first_found(s) == Some(i),
    decreases s.len(),
{
    if s.len() > i + 1 {
        assert(s.drop_last().take(i + 1) =~= s.take(i + 1));
        lemma_first_found_prefix(s.drop_last(), i);
    } else {
        assert(s.take(i + 1) =~= s);
    }
}

/// An index entry a listing shows: of the profile, and of the filter's scope
/// (for the project's scope, of the current project); without a filter,
/// global entries and the current project's entries.
pub open spec fn entry_listed(e: SecretRef, profile: Seq<char>, filter: Option<ScopeArg>, pid: Option<Seq<char>>) -> bool {
    e.profile@ == profile && match (filter, e.scope) {
        (None, LiteScope::Project { id, .. }) => pid == Some(id@),
        (None, LiteScope::Global) => true,
        (None, LiteScope::Shell) => false,
        (Some(ScopeArg::Global), LiteScope::Global) => true,
        (Some(ScopeArg::Project), LiteScope::Project { id, .. }) => pid == Some(id@),
        (Some(ScopeArg::Shell), LiteScope::Shell) => true,
        _ => false,
    }
}

pub open spec fn listed_pred(profile: Seq<char>, filter: Option<ScopeArg>, pid: Option<Seq<char>>) -> spec_fn(SecretRef) -> bool {
    |e: SecretRef| entry_listed(e, profile, filter, pid)
}

pub open spec fn opt_seq(p: Option<&str>) -> Option<Seq<char>> {
    match p {
        Some(s) => Some(s@),
        None => None,
    }
}

fn entry_shown(e: &SecretRef, profile: &str, filter: Option<ScopeArg>, pid: Option<&str>) -> (b: bool)
    ensures
        b == entry_listed(*e, profile@, filter, opt_seq(pid)),
{
    if !crate::metadata::str_eq(e.profile.as_str(), profile) {
        return false;
    }
    let same_project = |id: &String| -> (b: bool)
        ensures
            b == (opt_seq(pid) == Some(id@)),
        {
            match pid {
                Some(c) => crate::metadata::str_eq(c, id.as_str()),
                None => false,
            }
        };
    match (filter, &e.scope) {
        (None, LiteScope::Project { id, .. }) => same_project(id),
        (None, LiteScope::Global) => true,
        (None, LiteScope::Shell) => false,
        (Some(ScopeArg::Global), LiteScope::Global) => true,
        (Some(ScopeArg::Project), LiteScope::Project { id, .. }) => same_project(id),
        (Some(ScopeArg::Shell), LiteScope::Shell) => true,
        _ => false,
    }
}

/// The index entries a listing shows, in index order.
pub fn listed_refs(entries: &Vec<SecretRef>, profile: &str, filter: Option<ScopeArg>, project_id: Option<&str>) -> (r: Vec<SecretRef>)
    ensures
        r@ == entries@.filter(listed_pred(profile@, filter, opt_seq(project_id))),
{
    let mut out: Vec<SecretRef> = Vec::new();
    let mut i: usize = 0;
    proof {
        reveal(Seq::filter);
        assert(entries@.take(0).len() == 0);
    }
    while i < entries.len()
        invariant
            i <= entries@.len(),
            out@ == entries@.take(i as int).filter(listed_pred(profile@, filter, opt_seq(project_id))),
        decreases entries@.len() - i,
    {
        proof {
            assert(entries@.take(i + 1).drop_last() =~= entries@.take(i as int));
            assert(entries@.take(i + 1) =~= entries@.take(i as int).push(entries@[i as int]));
        }
        let ghost p = listed_pred(profile@, filter, opt_seq(project_id));
        let ghost t = entries@.take(i + 1);
        proof {
            assert(t.drop_last() =~= entries@.take(i as int));
            assert(t.last() == entries@[i as int]);
            assert(p(entries@[i as int]) == entry_listed(entries@[i as int], profile@, filter, opt_seq(project_id)));
            assert(t =~= entries@.take(i as int).push(entries@[i as int]));
            entries@.take(i as int).lemma_filter_push(entries@[i as int], p);
        }
        if entry_shown(&entries[i], profile, filter, project_id) {
            out.push(entries[i].clone());
        }
        assert(out@ =~= t.filter(p));
        i += 1;
    }
    proof {
        assert(entries@.take(entries@.len() as int) =~= entries@);
    }
    out
}


/// Every character of `k` may stand in a key.
pub open spec fn all_key_chars(k: Seq<char>) -> bool {
    forall|i: int| 0 <= i < k.len() ==> env_key_char(#[trigger] k[i])
}

/// Some record of `r` has key `k`.
pub open spec fn has_record_key(
    r: Seq<(Seq<char>, Seq<char>, (nat, Seq<char>, Seq<char>), Seq<char>)>,
    k: Seq<char>,
) -> bool {
    exists|i: int| 0 <= i < r.len() && (#[trigger] r[i]).0 == k
}

pub open spec fn env_view(env: Seq<(String, String)>) -> Seq<(Seq<char>, Seq<char>)> {
    env.map_values(|p: (String, String)| (p.0@, p.1@))
}

/// The records with the shell's variables added: each variable whose name
/// could be a key and that no record has yet, as a shell record of `profile`.
pub open spec fn with_shell(
    recs: Seq<(Seq<char>, Seq<char>, (nat, Seq<char>, Seq<char>), Seq<char>)>,
    env: Seq<(Seq<char>, Seq<char>)>,
    profile: Seq<char>,
) -> Seq<(Seq<char>, Seq<char>, (nat, Seq<char>, Seq<char>), Seq<char>)>
    decreases env.len(),
{
    if env.len() == 0 {
        recs
    } else {
        let r = with_shell(recs, env.drop_last(), profile);
        let (k, v) = env.last();
        if all_key_chars(k) && !has_record_key(r, k) {
            r.push((k, v, (2, Seq::empty(), Seq::empty()), profile))
        } else {
            r
        }
    }
}

fn has_key_record(records: &Vec<SecretRecord>, key: &str) -> (b: bool)
    ensures
        b == has_record_key(records_view(records@), key@),
{
    let mut i: usize = 0;
    while i < records.len()
        invariant
            i <= records@.len(),
            forall|j: int| 0 <= j < i ==> (#[trigger] records@[j]).key@ != key@,
        decreases records@.len() - i,
    {
        if crate::metadata::str_eq(records[i].key.as_str(), key) {
            assert(records_view(records@)[i as int].0 == key@);
            return true;
        }
        i += 1;
    }
    proof {
        assert forall|j: int| 0 <= j < records_view(records@).len() implies (#[trigger] records_view(records@)[j]).0 != key@ by {
            assert(records_view(records@)[j].0 == records@[j].key@);
        }
    }
    false
}

fn all_key_chars_of(k: &str) -> (b: bool)
    ensures
        b == all_key_chars(k@),
{
    let v = chars_of(k);
    let mut i: usize = 0;
    while i < v.len()
        invariant
            i <= v@.len(),
            v@ == k@,
            forall|j: int| 0 <= j < i ==> env_key_char(#[trigger] v@[j]),
        decreases v@.len() - i,
    {
        if !is_env_key_char(v[i]) {
            assert(!env_key_char(v@[i as int]));
            return false;
        }
        i += 1;
    }
    true
}

/// Adds the shell's variables `env` to the listed records.
pub fn add_shell_records(records: Vec<SecretRecord>, env: &Vec<(String, String)>, profile: &str) -> (r: Vec<SecretRecord>)
    ensures
        records_view(r@) == with_shell(records_view(records@), env_view(env@), profile@),
{
    let mut out = records;
    let ghost base = records_view(out@);
    let mut j: usize = 0;
    proof {
        assert(env_view(env@).take(0) =~= Seq::<(Seq<char>, Seq<char>)>::empty());
    }
    while j < env.len()
        invariant
            j <= env@.len(),
            records_view(out@) == with_shell(base, env_view(env@).take(j as int), profile@),
        decreases env@.len() - j,
    {
        let ghost ev = env_view(env@);
        proof {
            assert(ev.take(j + 1).drop_last() =~= ev.take(j as int));
            assert(ev.take(j + 1).last() == (env@[j as int].0@, env@[j as int].1@));
        }
        let key = env[j].0.as_str();
        if all_key_chars_of(key) && !has_key_record(&out, key) {
            let ghost before = records_view(out@);
            out.push(
                SecretRecord {
                    key: env[j].0.clone(),
                    value: env[j].1.clone(),
                    scope: LiteScope::Shell,
                    profile: crate::domain::owned(profile),
                },
            );
            assert(records_view(out@) =~= before.push(
                (env@[j as int].0@, env@[j as int].1@, (2, Seq::empty(), Seq::empty()), profile@),
            ));
        }
        j += 1;
    }
    proof {
        assert(env_view(env@).take(env@.len() as int) =~= env_view(env@));
    }
    out
}

/// The records a listing shows: the stored ones, and the shell's variables
/// when the listing is not limited to the global or project scope, ordered
/// by key, then scope.
pub fn finish_listing(
    records: Vec<SecretRecord>,
    env: &Vec<(String, String)>,
    filter: Option<ScopeArg>,
    profile: &str,
) -> (r: Vec<SecretRecord>)
    ensures
        records_sorted(records_view(r@)),
        records_view(r@).to_multiset() == (if filter is None || filter == Some(ScopeArg::Shell) {
            with_shell(records_view(records@), env_view(env@), profile@)
        } else {
            records_view(records@)
        }).to_multiset(),
{
    let ghost rv = records_view(records@);
    let all = if filter.is_none() || filter == Some(ScopeArg::Shell) {
        add_shell_records(records, env, profile)
    } else {
        records
    };
    sort_records(all)
}


/// `s` has a line equal to `entry`, lines being split at `\n` with the `\r`
/// of a `\r\n` ending removed, as `str::lines` splits them.
pub open spec fn has_line(s: Seq<char>, entry: Seq<char>) -> bool
    decreases s.len(),
{
    if s.len() == 0 {
        false
    } else {
        let e = index_of(s, '\n');
        let raw = s.take(e as int);
        let line = if e < s.len() && raw.len() > 0 && raw.last() == '\r' {
            raw.drop_last()
        } else {
            raw
        };
        line == entry || (e < s.len() && {
            proof {
                crate::text::lemma_index_of_bounds(s, '\n');
            }
            has_line(s.skip(e as int + 1), entry)
        })
    }
}

/// The `.gitignore` text with `/name` added as a line of its own, or `None`
/// when it already has that line.
pub open spec fn gitignore_with(content: Seq<char>, name: Seq<char>) -> Option<Seq<char>> {
    let entry = seq!['/'] + name;
    if has_line(content, entry) {
        None
    } else {
        let prefix = if content.len() == 0 || content.last() == '\n' {
            Seq::empty()
        } else {
            seq!['\n']
        };
        Some(content + prefix + entry + seq!['\n'])
    }
}

/// Text that ends a line, followed by `entry` and a newline, has `entry`
/// as a line.
pub proof fn lemma_has_appended_line(a: Seq<char>, entry: Seq<char>)
    requires
        a.len() == 0 || a.last() == '\n',
        forall|i: int| 0 <= i < entry.len() ==> entry[i] != '\n',
        entry.len() == 0 || entry.last() != '\r',
    ensures
        has_line(a + entry + seq!['\n'], entry),
    decreases a.len(),
{
    let s = a + entry + seq!['\n'];
    if a.len() == 0 {
        assert(s =~= entry + seq!['\n']);
        crate::text::lemma_index_of_is(s, '\n', entry.len() as int);
        assert(s.take(entry.len() as int) =~= entry);
    } else {
        crate::text::lemma_index_of_bounds(a, '\n');
        if index_of(a, '\n') == a.len() {
            assert(a[a.len() - 1] == '\n');
        }
        let e = index_of(a, '\n') as int;
        assert(e < a.len());
        crate::text::lemma_index_of_is(s, '\n', e);
        let rest = a.skip(e + 1);
        assert(s.skip(e + 1) =~= rest + entry + seq!['\n']);
        lemma_has_appended_line(rest, entry);
    }
}

/// Adding a name to a `.gitignore` is idempotent: once `/name` is added, a
/// second update finds the line and changes nothing. The name has no line
/// break in it and does not end in a carriage return.
pub proof fn law_gitignore_idempotent(content: Seq<char>, name: Seq<char>)
    requires
        forall|i: int| 0 <= i < name.len() ==> name[i] != '\n',
        name.len() == 0 || name.last() != '\r',
    ensures
        gitignore_with(content, name) matches Some(c2) ==> gitignore_with(c2, name) is None,
{
    let entry = seq!['/'] + name;
    if gitignore_with(content, name) is Some {
        let prefix = if content.len() == 0 || content.last() == '\n' {
            Seq::<char>::empty()
        } else {
            seq!['\n']
        };
        let a = content + prefix;
        assert(a.len() == 0 || a.last() == '\n');
        assert forall|i: int| 0 <= i < entry.len() implies entry[i] != '\n' by {
            if i > 0 {
                assert(entry[i] == name[i - 1]);
            }
        }
        assert(entry.last() != '\r') by {
            if name.len() > 0 {
                assert(entry.last() == name.last());
            }
        }
        lemma_has_appended_line(a, entry);
        assert(content + prefix + entry + seq!['\n'] =~= a + entry + seq!['\n']);
    }
}

fn segment_is(v: &Vec<char>, lo: usize, hi: usize, crlf: bool, entry: &Vec<char>) -> (b: bool)
    requires
        lo <= hi <= v.len(),
    ensures
        b == ((if crlf && hi > lo && v@[hi - 1] == '\r' {
            v@.subrange(lo as int, hi - 1)
        } else {
            v@.subrange(lo as int, hi as int)
        }) == entry@),
{
    let end = if crlf && hi > lo && v[hi - 1] == '\r' {
        hi - 1
    } else {
        hi
    };
    if end - lo != entry.len() {
        return false;
    }
    let mut i: usize = 0;
    while i < entry.len()
        invariant
            i <= entry@.len(),
            end - lo == entry@.len(),
            lo <= end <= v.len(),
            lo <= hi <= v.len(),
            end == (if crlf && hi > lo && v@[hi - 1] == '\r' {
                hi - 1
            } else {
                hi as int
            }),
            forall|j: int| 0 <= j < i ==> v@[lo + j] == entry@[j],
        decreases entry@.len() - i,
    {
        if v[lo + i] != entry[i] {
            assert(v@.subrange(lo as int, end as int)[i as int] != entry@[i as int]);
            return false;
        }
        i += 1;
    }
    assert(v@.subrange(lo as int, end as int) =~= entry@);
    true
}

/// Adds `/name` to the `.gitignore` text `content` unless it is already a line.
pub fn gitignore_update(content: &str, name: &str) -> (r: Option<String>)
    requires
        content@.len() < usize::MAX,
    ensures
        opt_view(r) == gitignore_with(content@, name@),
{
    let v = chars_of(content);
    let mut entry: Vec<char> = Vec::new();
    entry.push('/');
    let n = chars_of(name);
    let mut k: usize = 0;
    while k < n.len()
        invariant
            k <= n@.len(),
            entry@ == seq!['/'] + n@.take(k as int),
        decreases n@.len() - k,
    {
        entry.push(n[k]);
        k += 1;
        assert(entry@ =~= seq!['/'] + n@.take(k as int));
    }
    assert(n@.take(n@.len() as int) =~= n@);
    let ghost ent = entry@;
    let mut p: usize = 0;
    let mut found = false;
    assert(v@.skip(0) =~= v@);
    while p < v.len() && !found
        invariant
            p <= v.len() < usize::MAX,
            v@ == content@,
            entry@ == ent,
            found ==> has_line(content@, ent),
            !found ==> (has_line(content@, ent) == has_line(v@.skip(p as int), ent)),
        decreases v.len() - p + (if found { 0int } else { 1int }),
    {
        let ghost sk = v@.skip(p as int);
        let e = find_char(&v, p, v.len(), '\n');
        proof {
            assert(v@.subrange(p as int, v.len() as int) =~= sk);
            assert(sk.take(e - p) =~= v@.subrange(p as int, e as int));
            if e < v.len() {
                assert(sk.skip(e - p + 1) =~= v@.skip(e + 1));
            }
            if e > p {
                assert(sk.take(e - p).drop_last() =~= v@.subrange(p as int, e - 1));
            }
        }
        if segment_is(&v, p, e, e < v.len(), &entry) {
            found = true;
        } else if e == v.len() {
            p = e;
            assert(v@.skip(p as int).len() == 0);
        } else {
            p = e + 1;
        }
    }
    if found {
        return None;
    }
    let mut out = crate::domain::owned(content);
    if v.len() > 0 && v[v.len() - 1] != '\n' {
        out.push('\n');
    } else {
        assert(out@ + Seq::<char>::empty() =~= out@);
    }
    let mut i: usize = 0;
    let ghost base = out@;
    while i < entry.len()
        invariant
            i <= entry@.len(),
            out@ == base + entry@.take(i as int),
        decreases entry@.len() - i,
    {
        out.push(entry[i]);
        i += 1;
        assert(out@ =~= base + entry@.take(i as int));
    }
    out.push('\n');
    assert(entry@.take(entry@.len() as int) =~= entry@);
    Some(out)
}

pub open spec fn opt_view(o: Option<String>) -> Option<Seq<char>> {
    match o {
        Some(s) => Some(s@),
        None => None,
    }
}


/// Characters `shell_escape` leaves bare.
pub open spec fn sh_word(c: char) -> bool {
    is_ascii_alnum(c) || c == '-' || c == '_' || c == '=' || c == '/' || c == ',' || c == '.' || c == '+'
}

/// The inside of a single-quoted word: `'` and `!` are written as `'\'`
/// and `'\!'` followed by a closing quote reopened.
pub open spec fn sh_body(s: Seq<char>) -> Seq<char>
    decreases s.len(),
{
    if s.len() == 0 {
        Seq::empty()
    } else if s.last() == '\'' || s.last() == '!' {
        sh_body(s.drop_last()) + seq!['\'', '\\', s.last(), '\'']
    } else {
        sh_body(s.drop_last()).push(s.last())
    }
}

/// A value as `shell_escape::unix::escape` writes it: bare when it is not
/// empty and every character may stand bare, else single-quoted.
pub open spec fn sh_escaped(s: Seq<char>) -> Seq<char> {
    if s.len() > 0 && forall|i: int| 0 <= i < s.len() ==> sh_word(#[trigger] s[i]) {
        s
    } else {
        seq!['\''] + sh_body(s) + seq!['\'']
    }
}

/// Calls `shell_escape::unix::escape`. Trusted: the result is
/// `sh_escaped(s)`, which is how the crate's source writes it.
#[verifier::external_body]
fn shell_escape_word(s: &str) -> (r: String)
    ensures
        r@ == sh_escaped(s@),
{
    shell_escape::unix::escape(std::borrow::Cow::Borrowed(s)).into_owned()
}

/// `n` spaces.
pub open spec fn spaces(n: nat) -> Seq<char> {
    Seq::new(n, |i: int| ' ')
}

/// `s` padded with spaces on the right to `w` characters, as `{:<w}` pads.
pub open spec fn padded(s: Seq<char>, w: nat) -> Seq<char> {
    if s.len() < w {
        s + spaces((w - s.len()) as nat)
    } else {
        s
    }
}

fn push_padded(out: &mut String, s: &str, w: usize)
    ensures
        final(out)@ == old(out)@ + padded(s@, w as nat),
{
    push_str(out, s);
    let v = chars_of(s);
    let mut n = v.len();
    let ghost base = out@;
    while n < w
        invariant
            v@.len() <= n,
            n <= w || v@.len() >= w,
            v@.len() >= w ==> n == v@.len(),
            out@ == base + spaces((n - v@.len()) as nat),
        decreases w - n,
    {
        out.push(' ');
        n += 1;
        assert(out@ =~= base + spaces((n - v@.len()) as nat));
    }
    proof {
        assert(base == old(out)@ + s@);
        if s@.len() < w {
            assert(n == w);
            assert(spaces((n - v@.len()) as nat) == spaces((w - s@.len()) as nat));
            assert(out@ =~= old(out)@ + padded(s@, w as nat));
        } else {
            assert(n == v@.len());
            assert(spaces(0) =~= Seq::<char>::empty());
            assert(out@ =~= old(out)@ + padded(s@, w as nat));
        }
    }
}

/// The text forms `list` prints in.
#[derive(Debug, Clone, Copy, PartialEq, Eq, Structural)]
pub enum ListFormat {
    Table,
    Dotenv,
    Shell,
}

/// The line `list` prints for one record.
pub open spec fn record_line(r: SecretRecord, format: ListFormat, reveal: bool) -> Seq<char> {
    match format {
        ListFormat::Table => padded(r.key@, 32) + " "@ + padded(label_of(r.scope), 16) + " "@ + (if reveal {
            r.value@
        } else {
            masked_lite(r.value@)
        }),
        ListFormat::Dotenv => r.key@ + "="@ + dotenv_escaped_lite(r.value@),
        ListFormat::Shell => "export "@ + r.key@ + "="@ + sh_escaped(r.value@),
    }
}

pub open spec fn text_of(lines: Seq<String>) -> Seq<Seq<char>> {
    lines.map_values(|l: String| l@)
}

/// What `list` prints in a text form: a header for the table, then a line per record.
pub open spec fn records_text(records: Seq<SecretRecord>, format: ListFormat, reveal: bool) -> Seq<Seq<char>> {
    let body = records.map_values(|r: SecretRecord| record_line(r, format, reveal));
    if format == ListFormat::Table {
        seq![padded("KEY"@, 32) + " "@ + padded("SCOPE"@, 16) + " VALUE"@] + body
    } else {
        body
    }
}

pub fn record_lines(records: &Vec<SecretRecord>, format: ListFormat, reveal: bool) -> (r: Vec<String>)
    requires
        format == ListFormat::Table && !reveal ==> forall|i: int|
            0 <= i < records@.len() ==> lite_maskable((#[trigger] records@[i]).value@),
    ensures
        text_of(r@) == records_text(records@, format, reveal),
{
    let mut lines: Vec<String> = Vec::new();
    if format == ListFormat::Table {
        let mut h = String::new();
        push_padded(&mut h, "KEY", 32);
        push_str(&mut h, " ");
        push_padded(&mut h, "SCOPE", 16);
        push_str(&mut h, " VALUE");
        lines.push(h);
    }
    let ghost head = text_of(lines@);
    let mut i: usize = 0;
    while i < records.len()
        invariant
            i <= records@.len(),
            format == ListFormat::Table && !reveal ==> forall|j: int|
                0 <= j < records@.len() ==> lite_maskable((#[trigger] records@[j]).value@),
            head == (if format == ListFormat::Table {
                seq![padded("KEY"@, 32) + " "@ + padded("SCOPE"@, 16) + " VALUE"@]
            } else {
                Seq::<Seq<char>>::empty()
            }),
            text_of(lines@) == head + records@.take(i as int).map_values(
                |r: SecretRecord| record_line(r, format, reveal),
            ),
        decreases records@.len() - i,
    {
        let rec = &records[i];
        let line = match format {
            ListFormat::Table => {
                let mut l = String::new();
                push_padded(&mut l, rec.key.as_str(), 32);
                push_str(&mut l, " ");
                push_padded(&mut l, scope_label(&rec.scope), 16);
                push_str(&mut l, " ");
                if reveal {
                    push_str(&mut l, rec.value.as_str());
                } else {
                    let m = mask(rec.value.as_str());
                    push_str(&mut l, m.as_str());
                }
                l
            },
            ListFormat::Dotenv => {
                let mut l = crate::domain::owned(rec.key.as_str());
                push_str(&mut l, "=");
                let e = dotenv_escape(rec.value.as_str());
                push_str(&mut l, e.as_str());
                l
            },
            ListFormat::Shell => {
                let mut l = crate::domain::owned("export ");
                push_str(&mut l, rec.key.as_str());
                push_str(&mut l, "=");
                let e = shell_escape_word(rec.value.as_str());
                push_str(&mut l, e.as_str());
                l
            },
        };
        assert(line@ == record_line(records@[i as int], format, reveal));
        let ghost before = lines@;
        lines.push(line);
        proof {
            assert(text_of(lines@) =~= text_of(before).push(line@));
            assert(records@.take(i + 1) =~= records@.take(i as int).push(records@[i as int]));
            assert(text_of(lines@) =~= head + records@.take(i + 1).map_values(
                |r: SecretRecord| record_line(r, format, reveal),
            ));
        }
        i += 1;
    }
    assert(records@.take(records@.len() as int) =~= records@);
    assert(text_of(lines@) =~= records_text(records@, format, reveal));
    lines
}

/// The scope a rotated value is written to: where it was found, or, for a
/// value found in the shell, where a new value would go.
pub fn rotation_scope(source: LiteScope, fallback: LiteScope) -> (r: LiteScope)
    ensures
        r == (if source == LiteScope::Shell {
            fallback
        } else {
            source
        }),
{
    match source {
        LiteScope::Shell => fallback,
        other => other,
    }
}


impl Keyed for String {
    open spec fn key_view(&self) -> Seq<char> {
        self@
    }

    fn key_str(&self) -> (r: &str) {
        self.as_str()
    }
}

/// Some entry of `entries` is of profile `p`.
pub open spec fn profile_known(entries: Seq<SecretRef>, p: Seq<char>) -> bool {
    exists|i: int| 0 <= i < entries.len() && (#[trigger] entries[i]).profile@ == p
}

/// The profile names to list: the active one and those of the index
/// entries, each once, in increasing order.
pub fn profile_names(active: &str, entries: &Vec<SecretRef>) -> (r: Vec<String>)
    ensures
        strictly_sorted(r@),
        forall|k: Seq<char>| #[trigger] has_key(r@, k) <==> (k == active@ || profile_known(entries@, k)),
{
    let mut names: Vec<String> = Vec::new();
    let first = crate::domain::owned(active);
    let ghost x0 = first;
    upsert_sorted(&mut names, first);
    proof {
        assert forall|k: Seq<char>| #[trigger] has_key(names@, k) <==> k == active@ by {
            lemma_upsert_keys(Seq::<String>::empty(), names@, x0, k);
        }
    }
    let mut i: usize = 0;
    while i < entries.len()
        invariant
            i <= entries@.len(),
            strictly_sorted(names@),
            forall|k: Seq<char>| #[trigger] has_key(names@, k) <==> (k == active@ || profile_known(
                entries@.take(i as int),
                k,
            )),
        decreases entries@.len() - i,
    {
        let x = entries[i].profile.clone();
        let ghost xg = x;
        let ghost before = names@;
        upsert_sorted(&mut names, x);
        proof {
            assert forall|k: Seq<char>| #[trigger] has_key(names@, k) <==> (k == active@ || profile_known(
                entries@.take(i + 1),
                k,
            )) by {
                lemma_upsert_keys(before, names@, xg, k);
                if profile_known(entries@.take(i as int), k) {
                    let t = choose|t: int| 0 <= t < entries@.take(i as int).len() && (#[trigger] entries@.take(i as int)[t]).profile@ == k;
                    assert(entries@.take(i + 1)[t] == entries@.take(i as int)[t]);
                }
                if k == xg@ {
                    assert(entries@.take(i + 1)[i as int] == entries@[i as int]);
                }
                if profile_known(entries@.take(i + 1), k) {
                    let t = choose|t: int| 0 <= t < entries@.take(i + 1).len() && (#[trigger] entries@.take(i + 1)[t]).profile@ == k;
                    if t < i {
                        assert(entries@.take(i as int)[t] == entries@.take(i + 1)[t]);
                    }
                }
            }
        }
        i += 1;
    }
    assert(entries@.take(entries@.len() as int) =~= entries@);
    names
}

} // verus!
