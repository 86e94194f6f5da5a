//! The command-line tool's own rules: which scope the flags ask for, how an
//! assignment or a shell override is read, how values are quoted for dotenv
//! and shell output, and the lines its commands print.

use vstd::prelude::*;

use crate::domain::{key_fault, scope_name, EnvKey, Scope};
use crate::dotenv::{dotenv_entries, dq_value, line_outcome, strip_export, unescape, uq_cut, value_of};
use crate::error::EnvError;
use crate::text::is_ws;
use crate::service::{mask_value, maskable, masked, CheckStatus, DesiredScope, DoctorCheck, ResolvedSecret};
use crate::text::{chars_of, decimal, find_char, index_of, push_decimal, push_str, string_of_range, trim, trim_range};

verus! {

/// The scope `--global` and `--project` ask for.
pub open spec fn scope_for_flags(global: bool, project: bool) -> Result<DesiredScope, EnvError> {
    if global && project {
        Err(EnvError::ConflictingScopeFlags)
    } else if global {
        Ok(DesiredScope::Global)
    } else if project {
        Ok(DesiredScope::Project)
    } else {
        Ok(DesiredScope::Auto)
    }
}

pub fn desired_scope(global: bool, project: bool) -> (r: Result<DesiredScope, EnvError>)
    ensures
        r == scope_for_flags(global, project),
{
    if global && project {
        Err(EnvError::ConflictingScopeFlags)
    } else if global {
        Ok(DesiredScope::Global)
    } else if project {
        Ok(DesiredScope::Project)
    } else {
        Ok(DesiredScope::Auto)
    }
}

/// `s` split at its first `=`, as `str::split_once('=')` does.
pub open spec fn split_at_eq(s: Seq<char>) -> Option<(Seq<char>, Seq<char>)> {
    let i = index_of(s, '=');
    if i < s.len() {
        Some((s.take(i as int), s.skip(i as int + 1)))
    } else {
        None
    }
}

/// A key given as text: the key when it is valid, else why not.
pub open spec fn key_outcome(k: Seq<char>) -> Result<Seq<char>, EnvError> {
    match key_fault(k) {
        Some(e) => Err(e),
        None => Ok(k),
    }
}

/// What `KEY=value`, or `KEY` followed by a separate value, assigns.
pub open spec fn assignment_outcome(input: Seq<char>, value: Option<Seq<char>>) -> Result<
    (Seq<char>, Seq<char>),
    EnvError,
> {
    match (split_at_eq(input), value) {
        (Some((k, v)), None) => match key_outcome(trim(k)) {
            Ok(key) => Ok((key, v)),
            Err(e) => Err(e),
        },
        (None, Some(v)) => match key_outcome(input) {
            Ok(key) => Ok((key, v)),
            Err(e) => Err(e),
        },
        (Some(_), Some(_)) => Err(EnvError::AssignmentBothForms),
        (None, None) => Err(EnvError::AssignmentMissingValue),
    }
}

pub open spec fn pair_view(r: Result<(EnvKey, String), EnvError>) -> Result<(Seq<char>, Seq<char>), EnvError> {
    match r {
        Ok((k, v)) => Ok((k@, v@)),
        Err(e) => Err(e),
    }
}

pub open spec fn opt_view(o: Option<String>) -> Option<Seq<char>> {
    match o {
        Some(s) => Some(s@),
        None => None,
    }
}

proof fn lemma_key_outcome(k: Seq<char>)
    ensures
        crate::domain::is_valid_key(k) <==> key_fault(k) is None,
{
}

/// Reads `KEY=value`, or `KEY` with the value given separately.
pub fn parse_assignment(input: &str, value: Option<String>) -> (r: Result<(EnvKey, String), EnvError>)
    ensures
        pair_view(r) == assignment_outcome(input@, opt_view(value)),
{
    let v = chars_of(input);
    let i = find_char(&v, 0, v.len(), '=');
    proof {
        assert(v@.subrange(0, v@.len() as int) =~= v@);
    }
    match value {
        None => {
            if i == v.len() {
                return Err(EnvError::AssignmentMissingValue);
            }
            let (a, b) = trim_range(&v, 0, i);
            let key = EnvKey::from_range(&v, a, b)?;
            let val = string_of_range(&v, i + 1, v.len());
            proof {
                assert(v@.subrange(0, i as int) =~= v@.take(i as int));
                assert(v@.subrange(i + 1, v@.len() as int) =~= v@.skip(i + 1));
                lemma_key_outcome(v@.subrange(a as int, b as int));
            }
            Ok((key, val))
        },
        Some(val) => {
            if i < v.len() {
                return Err(EnvError::AssignmentBothForms);
            }
            let key = EnvKey::parse(input)?;
            proof {
                lemma_key_outcome(input@);
            }
            Ok((key, val))
        },
    }
}

/// Reads each of `raw_keys` as a key, stopping at the first that is not one.
pub fn parse_keys(raw_keys: &[String]) -> (r: Result<Vec<EnvKey>, EnvError>)
    ensures
        r matches Ok(keys) ==> keys@.len() == raw_keys@.len() && forall|j: int|
            0 <= j < keys@.len() ==> (#[trigger] keys@[j])@ == raw_keys@[j]@,
        r matches Ok(_) ==> forall|j: int|
            0 <= j < raw_keys@.len() ==> key_fault((#[trigger] raw_keys@[j])@) is None,
        r matches Err(e) ==> exists|j: int|
            0 <= j < raw_keys@.len() && key_fault((#[trigger] raw_keys@[j])@) == Some(e) && forall|t: int|
                0 <= t < j ==> key_fault((#[trigger] raw_keys@[t])@) is None,
{
    let mut keys: Vec<EnvKey> = Vec::new();
    let mut j: usize = 0;
    while j < raw_keys.len()
        invariant
            j <= raw_keys@.len(),
            keys@.len() == j,
            forall|t: int| 0 <= t < j ==> (#[trigger] keys@[t])@ == raw_keys@[t]@,
            forall|t: int| 0 <= t < j ==> key_fault((#[trigger] raw_keys@[t])@) is None,
        decreases raw_keys@.len() - j,
    {
        let key = match EnvKey::parse(raw_keys[j].as_str()) {
            Ok(k) => k,
            Err(e) => {
                return Err(e);
            },
        };
        proof {
            lemma_key_outcome(raw_keys@[j as int]@);
        }
        keys.push(key);
        j += 1;
    }
    Ok(keys)
}

/// What a `--env KEY=value` override sets.
pub open spec fn override_outcome(raw: Seq<char>) -> Result<(Seq<char>, Seq<char>), EnvError> {
    match split_at_eq(raw) {
        Some((k, v)) => match key_outcome(trim(k)) {
            Ok(key) => Ok((key, v)),
            Err(e) => Err(e),
        },
        None => Err(EnvError::OverrideMissingEquals),
    }
}

/// A valid key holds no `=` and no whitespace.
proof fn lemma_key_chars_plain(k: Seq<char>)
    requires
        crate::domain::is_valid_key(k),
    ensures
        forall|i: int| 0 <= i < k.len() ==> #[trigger] k[i] != '=' && !is_ws(k[i]),
{
    assert forall|i: int| 0 <= i < k.len() implies #[trigger] k[i] != '=' && !is_ws(k[i]) by {
        if i > 0 {
            assert(k[i] == '_' || crate::text::is_ascii_alnum(k[i]));
        }
    }
}

/// An override or an assignment splits at its first `=`: for a valid key
/// `k` and any value `v`, `=` signs in it included, `k=v` sets `k` to `v`.
pub proof fn law_assignment_splits_at_first_eq(k: Seq<char>, v: Seq<char>)
    requires
        crate::domain::is_valid_key(k),
    ensures
        override_outcome(k + "="@ + v) == Ok::<(Seq<char>, Seq<char>), EnvError>((k, v)),
        assignment_outcome(k + "="@ + v, None) == Ok::<(Seq<char>, Seq<char>), EnvError>((k, v)),
{
    reveal_strlit("=");
    let s = k + "="@ + v;
    lemma_key_chars_plain(k);
    assert forall|j: int| 0 <= j < k.len() implies s[j] != '=' by {
        assert(s[j] == k[j]);
    }
    crate::text::lemma_index_of_is(s, '=', k.len() as int);
    assert(s.take(k.len() as int) =~= k);
    assert(s.skip(k.len() as int + 1) =~= v);
    crate::text::lemma_trim_start_fixed(k);
    crate::text::lemma_trim_end_fixed(k);
    lemma_key_outcome(k);
}

/// A word in POSIX shell syntax as the shell reads it, where it is made of
/// single-quoted runs and backslash escapes (`quoted` inside quotes); `None`
/// for anything else, or an unclosed quote.
pub open spec fn posix_word(s: Seq<char>, quoted: bool) -> Option<Seq<char>>
    decreases s.len(),
{
    if s.len() == 0 {
        if quoted {
            None
        } else {
            Some(Seq::empty())
        }
    } else if quoted {
        if s[0] == '\'' {
            posix_word(s.drop_first(), false)
        } else {
            match posix_word(s.drop_first(), true) {
                Some(r) => Some(seq![s[0]] + r),
                None => None,
            }
        }
    } else if s[0] == '\'' {
        posix_word(s.drop_first(), true)
    } else if s[0] == '\\' && s.len() >= 2 {
        match posix_word(s.skip(2), false) {
            Some(r) => Some(seq![s[1]] + r),
            None => None,
        }
    } else {
        None
    }
}

proof fn lemma_posix_escaped(v: Seq<char>, t: Seq<char>)
    ensures
        posix_word(shell_escaped(v) + t, true) == (match posix_word(t, true) {
            Some(r) => Some(v + r),
            None => None,
        }),
    decreases v.len(),
{
    if v.len() == 0 {
        assert(shell_escaped(v) + t =~= t);
        if let Some(r) = posix_word(t, true) {
            assert(v + r =~= r);
        }
    } else {
        let w = v.drop_last();
        let c = v.last();
        let e = if c == '\'' {
            seq!['\'', '\\', '\'', '\'']
        } else {
            seq![c]
        };
        assert(shell_escaped(v) =~= shell_escaped(w) + e);
        assert(shell_escaped(v) + t =~= shell_escaped(w) + (e + t));
        lemma_posix_escaped(w, e + t);
        let s = e + t;
        if c == '\'' {
            assert(s.drop_first() =~= seq!['\\', '\'', '\''] + t);
            assert((seq!['\\', '\'', '\''] + t).skip(2) =~= seq!['\''] + t);
            assert((seq!['\''] + t).drop_first() =~= t);
            assert(posix_word(seq!['\''] + t, false) == posix_word(t, true));
            assert(posix_word(seq!['\\', '\'', '\''] + t, false) == (match posix_word(t, true) {
                Some(r) => Some(seq!['\''] + r),
                None => None,
            }));
        } else {
            assert(s.drop_first() =~= t);
        }
        assert(posix_word(s, true) == (match posix_word(t, true) {
            Some(r) => Some(seq![c] + r),
            None => None,
        }));
        if let Some(r) = posix_word(t, true) {
            assert(w + (seq![c] + r) =~= v + r);
        }
    }
}

/// Shell quoting round-trips: the shell reads a quoted value back as
/// exactly that value, every character included.
pub proof fn law_shell_quote_roundtrip(v: Seq<char>)
    ensures
        posix_word(seq!['\''] + shell_escaped(v) + seq!['\''], false) == Some(v),
{
    let s = seq!['\''] + shell_escaped(v) + seq!['\''];
    assert(s.drop_first() =~= shell_escaped(v) + seq!['\'']);
    lemma_posix_escaped(v, seq!['\'']);
    assert(seq!['\''].drop_first() =~= Seq::<char>::empty());
    assert(posix_word(Seq::<char>::empty(), false) == Some(Seq::<char>::empty()));
    assert(posix_word(seq!['\''], true) == Some(Seq::<char>::empty()));
    assert(v + Seq::<char>::empty() =~= v);
}

/// Reads a `--env KEY=value` shell override.
pub fn parse_shell_override(raw: &str) -> (r: Result<(EnvKey, String), EnvError>)
    ensures
        pair_view(r) == override_outcome(raw@),
{
    let v = chars_of(raw);
    let i = find_char(&v, 0, v.len(), '=');
    proof {
        assert(v@.subrange(0, v@.len() as int) =~= v@);
    }
    if i == v.len() {
        return Err(EnvError::OverrideMissingEquals);
    }
    let (a, b) = trim_range(&v, 0, i);
    let key = EnvKey::from_range(&v, a, b)?;
    let val = string_of_range(&v, i + 1, v.len());
    proof {
        assert(v@.subrange(0, i as int) =~= v@.take(i as int));
        assert(v@.subrange(i + 1, v@.len() as int) =~= v@.skip(i + 1));
        lemma_key_outcome(v@.subrange(a as int, b as int));
    }
    Ok((key, val))
}

/// Characters a dotenv value may hold without quotes.
pub open spec fn dotenv_plain(c: char) -> bool {
    crate::text::is_ascii_alnum(c) || c == '_' || c == '-' || c == '.' || c == '/' || c == ':'
}

/// One character of a double-quoted dotenv value.
pub open spec fn dotenv_escape_char(c: char) -> Seq<char> {
    if c == '\\' {
        seq!['\\', '\\']
    } else if c == '"' {
        seq!['\\', '"']
    } else if c == '\n' {
        seq!['\\', 'n']
    } else if c == '\r' {
        seq!['\\', 'r']
    } else if c == '\t' {
        seq!['\\', 't']
    } else {
        seq![c]
    }
}

/// The escaped characters of `s`.
pub open spec fn dotenv_escaped(s: Seq<char>) -> Seq<char>
    decreases s.len(),
{
    if s.len() == 0 {
        Seq::empty()
    } else {
        dotenv_escaped(s.drop_last()) + dotenv_escape_char(s.last())
    }
}

/// A value as a dotenv file writes it: bare when every character may stand
/// bare, else in double quotes with `\`, `"`, newline, return and tab escaped.
pub open spec fn dotenv_quoted(s: Seq<char>) -> Seq<char> {
    if forall|i: int| 0 <= i < s.len() ==> dotenv_plain(#[trigger] s[i]) {
        s
    } else {
        seq!['"'] + dotenv_escaped(s) + seq!['"']
    }
}

pub fn dotenv_quote(value: &str) -> (r: String)
    ensures
        r@ == dotenv_quoted(value@),
{
    let v = chars_of(value);
    let mut plain = true;
    let mut i: usize = 0;
    while i < v.len()
        invariant
            i <= v@.len(),
            v@ == value@,
            plain == forall|j: int| 0 <= j < i ==> dotenv_plain(#[trigger] v@[j]),
        decreases v@.len() - i,
    {
        let c = v[i];
        let ok = crate::text::is_ascii_alnum_char(c) || c == '_' || c == '-' || c == '.' || c == '/' || c == ':';
        plain = plain && ok;
        i += 1;
    }
    if plain {
        return string_of_range(&v, 0, v.len());
    }
    let mut out = String::new();
    out.push('"');
    let mut k: usize = 0;
    while k < v.len()
        invariant
            k <= v@.len(),
            v@ == value@,
            out@ == seq!['"'] + dotenv_escaped(v@.take(k as int)),
        decreases v@.len() - k,
    {
        let c = v[k];
        if c == '\\' {
            out.push('\\');
            out.push('\\');
        } else if c == '"' {
            out.push('\\');
            out.push('"');
        } else if c == '\n' {
            out.push('\\');
            out.push('n');
        } else if c == '\r' {
            out.push('\\');
            out.push('r');
        } else if c == '\t' {
            out.push('\\');
            out.push('t');
        } else {
            out.push(c);
        }
        assert(v@.take(k + 1).drop_last() =~= v@.take(k as int));
        k += 1;
        assert(out@ =~= seq!['"'] + dotenv_escaped(v@.take(k as int)));
    }
    out.push('"');
    assert(v@.take(v@.len() as int) =~= v@);
    out
}

/// An escaped value holds no raw line break.
proof fn lemma_escaped_no_newline(v: Seq<char>)
    ensures
        forall|i: int| 0 <= i < dotenv_escaped(v).len() ==> #[trigger] dotenv_escaped(v)[i] != '\n',
    decreases v.len(),
{
    if v.len() > 0 {
        lemma_escaped_no_newline(v.drop_last());
        let a = dotenv_escaped(v.drop_last());
        let e = dotenv_escape_char(v.last());
        assert forall|i: int| 0 <= i < dotenv_escaped(v).len() implies #[trigger] dotenv_escaped(v)[i] != '\n' by {
            if i >= a.len() {
                assert(dotenv_escaped(v)[i] == e[i - a.len()]);
            } else {
                assert(dotenv_escaped(v)[i] == a[i]);
            }
        }
    }
}

/// Reading an escaped value in double quotes gives the value back.
proof fn lemma_dq_escaped(v: Seq<char>, t: Seq<char>)
    ensures
        dq_value(dotenv_escaped(v) + t, false) == (match dq_value(t, false) {
            Some(r) => Some(v + r),
            None => None,
        }),
    decreases v.len(),
{
    if v.len() == 0 {
        assert(dotenv_escaped(v) + t =~= t);
        if let Some(r) = dq_value(t, false) {
            assert(v + r =~= r);
        }
    } else {
        let w = v.drop_last();
        let c = v.last();
        let e = dotenv_escape_char(c);
        assert(dotenv_escaped(v) + t =~= dotenv_escaped(w) + (e + t));
        lemma_dq_escaped(w, e + t);
        let s = e + t;
        if e.len() == 2 {
            assert(s[0] == '\\');
            assert(s.drop_first() =~= seq![e[1]] + t);
            assert((seq![e[1]] + t).drop_first() =~= t);
            assert(unescape(e[1]) == c);
            assert(dq_value(s.drop_first(), true) == (match dq_value(t, false) {
                Some(r) => Some(seq![c] + r),
                None => None,
            }));
        } else {
            assert(e == seq![c]);
            assert(s.drop_first() =~= t);
        }
        assert(dq_value(s, false) == (match dq_value(t, false) {
            Some(r) => Some(seq![c] + r),
            None => None,
        }));
        if let Some(r) = dq_value(t, false) {
            assert(w + (seq![c] + r) =~= v + r);
        }
    }
}

/// A value with no `#` runs unquoted to its end.
proof fn lemma_uq_cut_whole(s: Seq<char>, prev_ws: bool)
    requires
        forall|i: int| 0 <= i < s.len() ==> s[i] != '#',
    ensures
        uq_cut(s, prev_ws) == s.len(),
    decreases s.len(),
{
    if s.len() > 0 {
        lemma_uq_cut_whole(s.drop_first(), is_ws(s[0]));
    }
}

/// A value written as `dotenv_quote` writes it, after a valid key and `=`,
/// reads back from a dotenv file as that key and value.
pub proof fn law_dotenv_quote_roundtrip(k: Seq<char>, v: Seq<char>)
    requires
        crate::domain::is_valid_key(k),
    ensures
        dotenv_entries(k + "="@ + dotenv_quoted(v) + "\n"@, 1) == Ok::<Seq<(Seq<char>, Seq<char>)>, EnvError>(
            seq![(k, v)],
        ),
{
    reveal_strlit("=");
    reveal_strlit("\n");
    reveal_strlit("export ");
    let q = dotenv_quoted(v);
    let plain = forall|i: int| 0 <= i < v.len() ==> dotenv_plain(#[trigger] v[i]);
    let line = k + seq!['='] + q;
    let s = k + "="@ + q + "\n"@;
    assert(s =~= line + seq!['\n']);
    crate::domain::lemma_key_no_slash(k);
    lemma_escaped_no_newline(v);
    // Facts on q: no line break, no `=`-free assumption needed past the key.
    assert forall|i: int| 0 <= i < q.len() implies q[i] != '\n' by {
        if !plain {
            if 0 < i < q.len() - 1 {
                assert(q[i] == dotenv_escaped(v)[i - 1]);
            }
        } else {
            assert(dotenv_plain(v[i]));
        }
    }
    assert forall|i: int| 0 <= i < k.len() implies k[i] != '\n' && k[i] != '=' && !is_ws(k[i]) by {
        if i > 0 {
            assert(k[i] == '_' || crate::text::is_ascii_alnum(k[i]));
        }
    }
    assert forall|j: int| 0 <= j < line.len() implies s[j] != '\n' by {
        if j < k.len() {
            assert(s[j] == k[j]);
        } else if j > k.len() {
            assert(s[j] == q[j - k.len() - 1]);
        }
    }
    crate::text::lemma_index_of_is(s, '\n', line.len() as int);
    assert(s.take(line.len() as int) =~= line);
    assert(s.skip(line.len() as int + 1) =~= Seq::<char>::empty());
    let empty = Seq::<char>::empty();
    assert(index_of(empty, '\n') == 0);
    assert(empty.take(0) =~= empty);
    assert(trim(empty) =~= empty);
    assert(line_outcome(empty, 2) == Ok::<Option<(Seq<char>, Seq<char>)>, EnvError>(None));
    assert(dotenv_entries(empty, 2) == Ok::<Seq<(Seq<char>, Seq<char>)>, EnvError>(Seq::empty()));
    // q is empty or has non-space ends.
    if q.len() > 0 {
        if plain {
            assert(dotenv_plain(v[0]));
            assert(dotenv_plain(v[v.len() - 1]));
            assert(!is_ws(q[0]) && !is_ws(q.last()));
        } else {
            assert(q[0] == '"' && q.last() == '"');
        }
    }
    // The line is already trimmed.
    assert(line[0] == k[0]);
    assert(!is_ws(line.last())) by {
        if q.len() == 0 {
            assert(line.last() == '=');
        } else {
            assert(line.last() == q.last());
        }
    }
    crate::text::lemma_trim_start_fixed(line);
    crate::text::lemma_trim_end_fixed(line);
    assert(trim(line) == line);
    // No `export ` prefix.
    if 7 <= line.len() && line.take(7) == "export "@ {
        if k.len() <= 6 {
            assert(line[k.len() as int] == '=');
            assert(line.take(7)[k.len() as int] == line[k.len() as int]);
        } else {
            assert(line[6] == k[6]);
            assert(line.take(7)[6] == ' ');
        }
    }
    assert(strip_export(line) == line);
    crate::text::lemma_index_of_is(line, '=', k.len() as int);
    assert(line.take(k.len() as int) =~= k);
    crate::text::lemma_trim_start_fixed(k);
    crate::text::lemma_trim_end_fixed(k);
    assert(line.skip(k.len() as int + 1) =~= q);
    crate::text::lemma_trim_start_fixed(q);
    crate::text::lemma_trim_end_fixed(q);
    if plain {
        assert(q == v);
        if v.len() > 0 {
            assert(dotenv_plain(v[0]));
        }
        assert forall|i: int| 0 <= i < v.len() implies v[i] != '#' by {
            assert(dotenv_plain(v[i]));
        }
        lemma_uq_cut_whole(v, false);
        assert(v.take(v.len() as int) =~= v);
        assert(value_of(q, 1) == Ok::<Seq<char>, EnvError>(v));
    } else {
        assert(q.drop_first() =~= dotenv_escaped(v) + seq!['"']);
        lemma_dq_escaped(v, seq!['"']);
        assert(dq_value(seq!['"'], false) == Some(Seq::<char>::empty()));
        assert(v + Seq::<char>::empty() =~= v);
        assert(value_of(q, 1) == Ok::<Seq<char>, EnvError>(v));
    }
    assert(line_outcome(line, 1) == Ok::<Option<(Seq<char>, Seq<char>)>, EnvError>(Some((k, v))));
    assert(seq![(k, v)] + Seq::<(Seq<char>, Seq<char>)>::empty() =~= seq![(k, v)]);
}

/// `s` with each `'` written as `'\''`.
pub open spec fn shell_escaped(s: Seq<char>) -> Seq<char>
    decreases s.len(),
{
    if s.len() == 0 {
        Seq::empty()
    } else if s.last() == '\'' {
        shell_escaped(s.drop_last()) + seq!['\'', '\\', '\'', '\'']
    } else {
        shell_escaped(s.drop_last()).push(s.last())
    }
}

/// A value in single quotes for a POSIX shell.
pub fn shell_quote(value: &str) -> (r: String)
    ensures
        r@ == seq!['\''] + shell_escaped(value@) + seq!['\''],
        posix_word(r@, false) == Some(value@),
{
    proof {
        law_shell_quote_roundtrip(value@);
    }
    let v = chars_of(value);
    let mut out = String::new();
    out.push('\'');
    let mut k: usize = 0;
    while k < v.len()
        invariant
            k <= v@.len(),
            v@ == value@,
            out@ == seq!['\''] + shell_escaped(v@.take(k as int)),
        decreases v@.len() - k,
    {
        let c = v[k];
        if c == '\'' {
            out.push('\'');
            out.push('\\');
            out.push('\'');
            out.push('\'');
        } else {
            out.push(c);
        }
        assert(v@.take(k + 1).drop_last() =~= v@.take(k as int));
        k += 1;
        assert(out@ =~= seq!['\''] + shell_escaped(v@.take(k as int)));
    }
    out.push('\'');
    assert(v@.take(v@.len() as int) =~= v@);
    out
}


/// The characters of each line.
pub open spec fn text_of(lines: Seq<String>) -> Seq<Seq<char>> {
    lines.map_values(|l: String| l@)
}

/// A value as shown: in full when revealed, else masked.
pub open spec fn shown(value: Seq<char>, reveal: bool) -> Seq<char> {
    if reveal {
        value
    } else {
        masked(value)
    }
}

fn render_value(value: &str, reveal: bool) -> (r: String)
    requires
        reveal || maskable(value@),
    ensures
        r@ == shown(value@, reveal),
{
    if reveal {
        crate::domain::owned(value)
    } else {
        mask_value(value)
    }
}

fn line2(a: &str, b: &str) -> (r: String)
    ensures
        r@ == a@ + b@,
{
    let mut s = crate::domain::owned(a);
    push_str(&mut s, b);
    s
}

fn line3(a: &str, b: &str, c: &str) -> (r: String)
    ensures
        r@ == a@ + b@ + c@,
{
    let mut s = line2(a, b);
    push_str(&mut s, c);
    s
}

fn line4(a: &str, b: &str, c: &str, d: &str) -> (r: String)
    ensures
        r@ == a@ + b@ + c@ + d@,
{
    let mut s = line3(a, b, c);
    push_str(&mut s, d);
    s
}

/// What `get` prints for a value in text form.
pub open spec fn get_text(rs: ResolvedSecret, reveal: bool, explain: bool) -> Seq<Seq<char>> {
    let last = seq![rs.key@ + "="@ + shown(rs.value@, reveal)];
    if explain {
        seq![
            match rs.project_root {
                Some(root) => "source: "@ + scope_name(rs.scope) + " ("@ + root@ + ")"@,
                None => "source: "@ + scope_name(rs.scope),
            },
        ] + last
    } else {
        last
    }
}

/// The lines `get` prints for a value in text form.
pub fn get_lines(secret: &ResolvedSecret, reveal: bool, explain: bool) -> (r: Vec<String>)
    requires
        reveal || maskable(secret.value@),
    ensures
        text_of(r@) == get_text(*secret, reveal, explain),
{
    let mut lines: Vec<String> = Vec::new();
    if explain {
        let scope = secret.scope.as_str();
        match &secret.project_root {
            Some(root) => {
                let mut l = line3("source: ", scope, " (");
                push_str(&mut l, root.as_str());
                push_str(&mut l, ")");
                lines.push(l);
            },
            None => lines.push(line2("source: ", scope)),
        }
    }
    let value = render_value(secret.value.as_str(), reveal);
    lines.push(line3(secret.key.as_str(), "=", value.as_str()));
    assert(text_of(lines@) =~= get_text(*secret, reveal, explain));
    lines
}

/// The text forms `list` can print in.
#[derive(Debug, Clone, Copy, PartialEq, Eq, Structural)]
pub enum ListStyle {
    Table,
    Dotenv,
    Shell,
}

/// The line `list` prints for one value.
pub open spec fn list_line(rs: ResolvedSecret, style: ListStyle, reveal: bool) -> Seq<char> {
    match style {
        ListStyle::Table => rs.key@ + "\t"@ + scope_name(rs.scope) + "\t"@ + rs.profile@ + "\t"@ + shown(
            rs.value@,
            reveal,
        ),
        ListStyle::Dotenv => rs.key@ + "="@ + dotenv_quoted(rs.value@),
        ListStyle::Shell => "export "@ + rs.key@ + "="@ + (seq!['\''] + shell_escaped(rs.value@) + seq!['\'']),
    }
}

/// What `list` prints in a text form: a header for the table, then one line per value.
pub open spec fn list_text(secrets: Seq<ResolvedSecret>, style: ListStyle, reveal: bool) -> Seq<Seq<char>> {
    let body = secrets.map_values(|rs: ResolvedSecret| list_line(rs, style, reveal));
    if style == ListStyle::Table {
        seq!["KEY\tSCOPE\tPROFILE\tVALUE"@] + body
    } else {
        body
    }
}

/// The lines `list` prints in a text form.
pub fn list_lines(secrets: &[ResolvedSecret], style: ListStyle, reveal: bool) -> (r: Vec<String>)
    requires
        style == ListStyle::Table && !reveal ==> forall|i: int|
            0 <= i < secrets@.len() ==> maskable((#[trigger] secrets@[i]).value@),
    ensures
        text_of(r@) == list_text(secrets@, style, reveal),
{
    let mut lines: Vec<String> = Vec::new();
    if style == ListStyle::Table {
        lines.push(crate::domain::owned("KEY\tSCOPE\tPROFILE\tVALUE"));
    }
    let ghost head = text_of(lines@);
    let mut i: usize = 0;
    while i < secrets.len()
        invariant
            i <= secrets@.len(),
            style == ListStyle::Table && !reveal ==> forall|j: int|
                0 <= j < secrets@.len() ==> maskable((#[trigger] secrets@[j]).value@),
            head == (if style == ListStyle::Table { seq!["KEY\tSCOPE\tPROFILE\tVALUE"@] } else { Seq::<Seq<char>>::empty() }),
            text_of(lines@) == head + secrets@.take(i as int).map_values(
                |rs: ResolvedSecret| list_line(rs, style, reveal),
            ),
        decreases secrets@.len() - i,
    {
        let rs = &secrets[i];
        let line = match style {
            ListStyle::Table => {
                let mut l = line4(rs.key.as_str(), "\t", rs.scope.as_str(), "\t");
                push_str(&mut l, rs.profile.as_str());
                push_str(&mut l, "\t");
                let v = render_value(rs.value.as_str(), reveal);
                push_str(&mut l, v.as_str());
                l
            },
            ListStyle::Dotenv => {
                let q = dotenv_quote(rs.value.as_str());
                line3(rs.key.as_str(), "=", q.as_str())
            },
            ListStyle::Shell => {
                let q = shell_quote(rs.value.as_str());
                line4("export ", rs.key.as_str(), "=", q.as_str())
            },
        };
        assert(line@ == list_line(secrets@[i as int], style, reveal));
        let ghost before = lines@;
        lines.push(line);
        proof {
            assert(secrets@.take(i + 1) =~= secrets@.take(i as int).push(secrets@[i as int]));
            assert(text_of(lines@) =~= text_of(before).push(line@));
            assert(text_of(lines@) =~= head + secrets@.take(i + 1).map_values(
                |rs: ResolvedSecret| list_line(rs, style, reveal),
            ));
        }
        i += 1;
    }
    assert(secrets@.take(secrets@.len() as int) =~= secrets@);
    assert(text_of(lines@) =~= list_text(secrets@, style, reveal));
    lines
}

/// What `workspace show` prints in text form.
pub open spec fn workspace_text(recipient: Seq<char>, active_root: Option<Seq<char>>) -> Seq<Seq<char>> {
    let first = seq!["recipient: "@ + recipient];
    let mid = match active_root {
        Some(root) => seq!["active project: "@ + root],
        None => Seq::empty(),
    };
    first + mid + seq!["share format: age x25519 armored bundle"@]
}

/// The lines `workspace show` prints in text form.
pub fn workspace_lines(recipient: &str, active_root: Option<&str>) -> (r: Vec<String>)
    ensures
        text_of(r@) == workspace_text(recipient@, match active_root {
            Some(s) => Some(s@),
            None => None,
        }),
{
    let mut lines: Vec<String> = Vec::new();
    lines.push(line2("recipient: ", recipient));
    match active_root {
        Some(root) => lines.push(line2("active project: ", root)),
        None => {},
    }
    lines.push(crate::domain::owned("share format: age x25519 armored bundle"));
    assert(text_of(lines@) =~= workspace_text(recipient@, match active_root {
        Some(s) => Some(s@),
        None => None,
    }));
    lines
}

/// How a check's status is printed.
pub open spec fn status_name(s: CheckStatus) -> Seq<char> {
    match s {
        CheckStatus::Pass => "Pass"@,
        CheckStatus::Warn => "Warn"@,
        CheckStatus::Fail => "Fail"@,
    }
}

fn status_str(s: CheckStatus) -> (r: &'static str)
    ensures
        r@ == status_name(s),
{
    match s {
        CheckStatus::Pass => "Pass",
        CheckStatus::Warn => "Warn",
        CheckStatus::Fail => "Fail",
    }
}

/// The line printed for one check.
pub open spec fn check_line(c: DoctorCheck) -> Seq<char> {
    "- "@ + status_name(c.status) + ": "@ + c.name@ + " \u{2014} "@ + c.message@
}

/// What `doctor` prints in text form, given the keychain settings found in
/// the environment.
pub open spec fn doctor_text(
    data_dir: Seq<char>,
    db_path: Seq<char>,
    active: Option<Seq<char>>,
    global_sync: Option<Seq<char>>,
    access_group: Option<Seq<char>>,
    checks: Seq<DoctorCheck>,
) -> Seq<Seq<char>> {
    seq!["data dir: "@ + data_dir, "db path:  "@ + db_path] + match active {
        Some(p) => seq!["project:  "@ + p],
        None => Seq::empty(),
    } + match global_sync {
        Some(v) => seq!["keychain global sync: "@ + v],
        None => Seq::empty(),
    } + match access_group {
        Some(v) => seq!["keychain access group: "@ + v],
        None => Seq::empty(),
    } + checks.map_values(|c: DoctorCheck| check_line(c))
}

pub open spec fn opt_str(o: Option<&str>) -> Option<Seq<char>> {
    match o {
        Some(s) => Some(s@),
        None => None,
    }
}

/// The lines `doctor` prints in text form.
pub fn doctor_lines(
    report: &crate::service::DoctorReport,
    global_sync: Option<&str>,
    access_group: Option<&str>,
) -> (r: Vec<String>)
    ensures
        text_of(r@) == doctor_text(
            report.data_dir@,
            report.db_path@,
            opt_view(report.active_project),
            opt_str(global_sync),
            opt_str(access_group),
            report.checks@,
        ),
{
    let mut lines: Vec<String> = Vec::new();
    lines.push(line2("data dir: ", report.data_dir.as_str()));
    lines.push(line2("db path:  ", report.db_path.as_str()));
    match &report.active_project {
        Some(p) => lines.push(line2("project:  ", p.as_str())),
        None => {},
    }
    match global_sync {
        Some(v) => lines.push(line2("keychain global sync: ", v)),
        None => {},
    }
    match access_group {
        Some(v) => lines.push(line2("keychain access group: ", v)),
        None => {},
    }
    let ghost head = text_of(lines@);
    let mut i: usize = 0;
    while i < report.checks.len()
        invariant
            i <= report.checks@.len(),
            text_of(lines@) == head + report.checks@.take(i as int).map_values(|c: DoctorCheck| check_line(c)),
        decreases report.checks@.len() - i,
    {
        let c = &report.checks[i];
        let mut l = line4("- ", status_str(c.status), ": ", c.name.as_str());
        push_str(&mut l, " \u{2014} ");
        push_str(&mut l, c.message.as_str());
        assert(l@ == check_line(report.checks@[i as int]));
        let ghost before = lines@;
        lines.push(l);
        proof {
            assert(text_of(lines@) =~= text_of(before).push(l@));
            assert(report.checks@.take(i + 1) =~= report.checks@.take(i as int).push(report.checks@[i as int]));
            assert(text_of(lines@) =~= head + report.checks@.take(i + 1).map_values(|c: DoctorCheck| check_line(c)));
        }
        i += 1;
    }
    assert(report.checks@.take(report.checks@.len() as int) =~= report.checks@);
    assert(text_of(lines@) =~= doctor_text(
        report.data_dir@,
        report.db_path@,
        opt_view(report.active_project),
        opt_str(global_sync),
        opt_str(access_group),
        report.checks@,
    ));
    lines
}


/// ` (root)` when there is a root, else nothing.
pub open spec fn root_suffix(root: Option<String>) -> Seq<char> {
    match root {
        Some(r) => " ("@ + r@ + ")"@,
        None => Seq::empty(),
    }
}

fn push_root_suffix(s: &mut String, root: &Option<String>)
    ensures
        final(s)@ == old(s)@ + root_suffix(*root),
{
    match root {
        Some(r) => {
            push_str(s, " (");
            push_str(s, r.as_str());
            push_str(s, ")");
        },
        None => {
            assert(old(s)@ + Seq::<char>::empty() =~= old(s)@);
        },
    }
}

/// What `set` prints after storing a value.
pub fn stored_message(rs: &ResolvedSecret) -> (r: String)
    ensures
        r@ == "stored "@ + rs.key@ + " in "@ + scope_name(rs.scope) + " scope"@ + root_suffix(rs.project_root),
{
    let mut m = line4("stored ", rs.key.as_str(), " in ", rs.scope.as_str());
    push_str(&mut m, " scope");
    push_root_suffix(&mut m, &rs.project_root);
    m
}

/// What `init` prints after registering a project.
pub fn init_message(project: &crate::domain::ProjectRecord) -> (r: String)
    ensures
        r@ == "initialized project "@ + project.root_path@ + " ("@ + project.id@ + ")"@,
{
    let mut m = line4("initialized project ", project.root_path.as_str(), " (", project.id.as_str());
    push_str(&mut m, ")");
    m
}

/// What `import` prints after importing a dotenv file.
pub fn imported_message(out: &crate::service::ImportOutcome) -> (r: String)
    ensures
        r@ == "imported "@ + decimal(out.imported as nat) + " variables into "@ + scope_name(out.scope)
            + " scope"@ + root_suffix(out.project_root) + (if out.deleted_source {
            "; source deleted"@
        } else {
            Seq::empty()
        }),
{
    let mut m = crate::domain::owned("imported ");
    push_decimal(&mut m, out.imported);
    push_str(&mut m, " variables into ");
    push_str(&mut m, out.scope.as_str());
    push_str(&mut m, " scope");
    push_root_suffix(&mut m, &out.project_root);
    if out.deleted_source {
        push_str(&mut m, "; source deleted");
    } else {
        assert(m@ + Seq::<char>::empty() =~= m@);
    }
    m
}

/// What `push` prints after writing a share bundle.
pub fn export_message(out: &crate::share::ShareExport) -> (r: String)
    ensures
        r@ == "wrote encrypted share bundle "@ + out.output_path@ + " for "@ + decimal(
            out.recipient_count as nat,
        ) + " recipient(s) with "@ + decimal(out.item_count as nat) + " secret(s)"@,
{
    let mut m = line3("wrote encrypted share bundle ", out.output_path.as_str(), " for ");
    push_decimal(&mut m, out.recipient_count);
    push_str(&mut m, " recipient(s) with ");
    push_decimal(&mut m, out.item_count);
    push_str(&mut m, " secret(s)");
    m
}

/// What `pull` prints after storing a share bundle.
pub fn pull_message(out: &crate::share::ShareImport) -> (r: String)
    ensures
        r@ == "imported "@ + decimal(out.item_count as nat) + " shared secret(s) from "@ + out.sender@
            + " into "@ + scope_name(out.scope) + " scope"@,
{
    let mut m = crate::domain::owned("imported ");
    push_decimal(&mut m, out.item_count);
    push_str(&mut m, " shared secret(s) from ");
    push_str(&mut m, out.sender.as_str());
    push_str(&mut m, " into ");
    push_str(&mut m, out.scope.as_str());
    push_str(&mut m, " scope");
    m
}

} // verus!
