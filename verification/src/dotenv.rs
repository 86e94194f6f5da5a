//! `.env` file parsing.

use vstd::prelude::*;

use crate::domain::{key_fault, owned, push_range, EnvKey};
use crate::error::EnvError;
use crate::text::{
    chars_of, find_char, index_of, is_ws, is_ws_char, lemma_index_of_bounds, lemma_index_of_is, rskip_ws, skip_ws,
    trim, trim_end, trim_range, trim_start,
};

verus! {

broadcast use vstd::string::group_string_axioms;

/// What a backslash escape inside double quotes stands for.
pub open spec fn unescape(c: char) -> char {
    if c == 'n' {
        '\n'
    } else if c == 'r' {
        '\r'
    } else if c == 't' {
        '\t'
    } else {
        c
    }
}

/// The value of a double-quoted string whose text after the opening quote
/// is `s`; `None` when the closing quote is missing.
pub open spec fn dq_value(s: Seq<char>, escaped: bool) -> Option<Seq<char>>
    decreases s.len(),
{
    if s.len() == 0 {
        None
    } else if escaped {
        match dq_value(s.drop_first(), false) {
            Some(r) => Some(seq![unescape(s[0])] + r),
            None => None,
        }
    } else if s[0] == '\\' {
        dq_value(s.drop_first(), true)
    } else if s[0] == '"' {
        Some(Seq::empty())
    } else {
        match dq_value(s.drop_first(), false) {
            Some(r) => Some(seq![s[0]] + r),
            None => None,
        }
    }
}

/// Where an unquoted value ends: at the first `#` that follows whitespace.
pub open spec fn uq_cut(s: Seq<char>, prev_ws: bool) -> nat
    decreases s.len(),
{
    if s.len() == 0 {
        0
    } else if s[0] == '#' && prev_ws {
        0
    } else {
        1 + uq_cut(s.drop_first(), is_ws(s[0]))
    }
}

/// The value written as `raw` (already trimmed) on dotenv line `line`.
pub open spec fn value_of(raw: Seq<char>, line: nat) -> Result<Seq<char>, EnvError> {
    if raw.len() > 0 && raw[0] == '"' {
        match dq_value(raw.drop_first(), false) {
            Some(v) => Ok(v),
            None => Err(EnvError::DotenvUnterminatedDouble(line as usize)),
        }
    } else if raw.len() > 0 && raw[0] == '\'' {
        let t = raw.drop_first();
        let e = index_of(t, '\'');
        if e < t.len() {
            Ok(t.take(e as int))
        } else {
            Err(EnvError::DotenvUnterminatedSingle(line as usize))
        }
    } else {
        Ok(trim_end(raw.take(uq_cut(raw, false) as int)))
    }
}

/// A line with a leading `export ` removed, if it has one.
pub open spec fn strip_export(t: Seq<char>) -> Seq<char> {
    if 7 <= t.len() && t.take(7) == "export "@ {
        trim_start(t.skip(7))
    } else {
        t
    }
}

/// What dotenv line number `line` holds: nothing (`Ok(None)`), an entry, or a fault.
pub open spec fn line_outcome(text: Seq<char>, line: nat) -> Result<Option<(Seq<char>, Seq<char>)>, EnvError> {
    let t = trim(text);
    if t.len() == 0 || t[0] == '#' {
        Ok(None)
    } else {
        let u = strip_export(t);
        let eq = index_of(u, '=');
        if eq == u.len() {
            Err(EnvError::DotenvMissingEquals(line as usize))
        } else {
            let key = trim(u.take(eq as int));
            match key_fault(key) {
                Some(e) => Err(e),
                None => match value_of(trim(u.skip(eq as int + 1)), line) {
                    Ok(v) => Ok(Some((key, v))),
                    Err(e) => Err(e),
                },
            }
        }
    }
}

/// The entries of the dotenv text `s` whose first line is number `line`,
/// or the first fault, line by line.
pub open spec fn dotenv_entries(s: Seq<char>, line: nat) -> Result<Seq<(Seq<char>, Seq<char>)>, EnvError>
    decreases s.len(),
{
    let e = index_of(s, '\n');
    let here = line_outcome(s.take(e as int), line);
    let rest = if e < s.len() {
        proof {
            lemma_index_of_bounds(s, '\n');
        }
        dotenv_entries(s.skip(e as int + 1), line + 1)
    } else {
        Ok(Seq::empty())
    };
    match here {
        Err(er) => Err(er),
        Ok(None) => rest,
        Ok(Some(p)) => match rest {
            Ok(r) => Ok(seq![p] + r),
            Err(er) => Err(er),
        },
    }
}

/// A line `k=q` with a valid key and a value text `q` that holds no line
/// break and has no whitespace at its ends reads as `k` and the value of `q`.
pub proof fn lemma_entry_line(k: Seq<char>, q: Seq<char>, v: Seq<char>)
    requires
        crate::domain::is_valid_key(k),
        forall|i: int| 0 <= i < q.len() ==> q[i] != '\n',
        q.len() > 0 ==> !is_ws(q[0]) && !is_ws(q.last()),
        value_of(q, 1) == Ok::<Seq<char>, EnvError>(v),
    ensures
        dotenv_entries(k + "="@ + q + "\n"@, 1) == Ok::<Seq<(Seq<char>, Seq<char>)>, EnvError>(seq![(k, v)]),
{
    reveal_strlit("=");
    reveal_strlit("\n");
    reveal_strlit("export ");
    let line = k + seq!['='] + q;
    let s = k + "="@ + q + "\n"@;
    assert(s =~= line + seq!['\n']);
    assert forall|i: int| 0 <= i < k.len() implies k[i] != '\n' && k[i] != '=' && !is_ws(k[i]) by {
        if i > 0 {
            assert(k[i] == '_' || crate::text::is_ascii_alnum(k[i]));
        }
    }
    assert forall|j: int| 0 <= j < line.len() implies s[j] != '\n' by {
        if j < k.len() {
            assert(s[j] == k[j]);
        } else if j > k.len() {
            assert(s[j] == q[j - k.len() - 1]);
        }
    }
    lemma_index_of_is(s, '\n', line.len() as int);
    assert(s.take(line.len() as int) =~= line);
    assert(s.skip(line.len() as int + 1) =~= Seq::<char>::empty());
    let empty = Seq::<char>::empty();
    assert(index_of(empty, '\n') == 0);
    assert(empty.take(0) =~= empty);
    assert(trim(empty) =~= empty);
    assert(line_outcome(empty, 2) == Ok::<Option<(Seq<char>, Seq<char>)>, EnvError>(None));
    assert(dotenv_entries(empty, 2) == Ok::<Seq<(Seq<char>, Seq<char>)>, EnvError>(Seq::empty()));
    assert(line[0] == k[0]);
    assert(!is_ws(line.last())) by {
        if q.len() == 0 {
            assert(line.last() == '=');
        } else {
            assert(line.last() == q.last());
        }
    }
    crate::text::lemma_trim_start_fixed(line);
    crate::text::lemma_trim_end_fixed(line);
    assert(trim(line) == line);
    if 7 <= line.len() && line.take(7) == "export "@ {
        if k.len() <= 6 {
            assert(line[k.len() as int] == '=');
            assert(line.take(7)[k.len() as int] == line[k.len() as int]);
        } else {
            assert(line[6] == k[6]);
            assert(line.take(7)[6] == ' ');
        }
    }
    assert(strip_export(line) == line);
    lemma_index_of_is(line, '=', k.len() as int);
    assert(line.take(k.len() as int) =~= k);
    crate::text::lemma_trim_start_fixed(k);
    crate::text::lemma_trim_end_fixed(k);
    assert(line.skip(k.len() as int + 1) =~= q);
    crate::text::lemma_trim_start_fixed(q);
    crate::text::lemma_trim_end_fixed(q);
    assert(line_outcome(line, 1) == Ok::<Option<(Seq<char>, Seq<char>)>, EnvError>(Some((k, v))));
    assert(seq![(k, v)] + Seq::<(Seq<char>, Seq<char>)>::empty() =~= seq![(k, v)]);
}

/// Single-quoted values are literal: for a valid key `k` and a value `v`
/// with no `'` and no line break, the line `k='v'` reads as `k` and exactly
/// `v`, surrounding spaces, `#`, `=`, `"` and backslashes in it included.
pub proof fn law_single_quoted_literal(k: Seq<char>, v: Seq<char>)
    requires
        crate::domain::is_valid_key(k),
        forall|i: int| 0 <= i < v.len() ==> v[i] != '\'' && v[i] != '\n',
    ensures
        dotenv_entries(k + "="@ + (seq!['\''] + v + seq!['\'']) + "\n"@, 1) == Ok::<
            Seq<(Seq<char>, Seq<char>)>,
            EnvError,
        >(seq![(k, v)]),
{
    let q = seq!['\''] + v + seq!['\''];
    assert forall|i: int| 0 <= i < q.len() implies q[i] != '\n' by {
        if 0 < i < q.len() - 1 {
            assert(q[i] == v[i - 1]);
        }
    }
    let t = q.drop_first();
    assert(t =~= v + seq!['\'']);
    assert forall|j: int| 0 <= j < v.len() implies t[j] != '\'' by {
        assert(t[j] == v[j]);
    }
    lemma_index_of_is(t, '\'', v.len() as int);
    assert(t.take(v.len() as int) =~= v);
    assert(value_of(q, 1) == Ok::<Seq<char>, EnvError>(v));
    lemma_entry_line(k, q, v);
}

pub open spec fn prepend(
    acc: Seq<(Seq<char>, Seq<char>)>,
    r: Result<Seq<(Seq<char>, Seq<char>)>, EnvError>,
) -> Result<Seq<(Seq<char>, Seq<char>)>, EnvError> {
    match r {
        Ok(x) => Ok(acc + x),
        Err(e) => Err(e),
    }
}

pub open spec fn entries_view(v: Seq<(EnvKey, String)>) -> Seq<(Seq<char>, Seq<char>)> {
    v.map_values(|p: (EnvKey, String)| (p.0@, p.1@))
}

fn unescape_char(c: char) -> (r: char)
    ensures
        r == unescape(c),
{
    if c == 'n' {
        '\n'
    } else if c == 'r' {
        '\r'
    } else if c == 't' {
        '\t'
    } else {
        c
    }
}

fn parse_double_quoted(v: &Vec<char>, lo: usize, hi: usize, line: usize) -> (r: Result<String, EnvError>)
    requires
        lo < hi <= v.len(),
        v@[lo as int] == '"',
    ensures
        r matches Ok(s) ==> dq_value(v@.subrange(lo + 1, hi as int), false) == Some(s@),
        r matches Err(e) ==> dq_value(v@.subrange(lo + 1, hi as int), false) is None
            && e == EnvError::DotenvUnterminatedDouble(line),
{
    let mut value = String::new();
    let mut escaped = false;
    let mut i: usize = lo + 1;
    while i < hi
        invariant
            lo < i <= hi <= v.len(),
            dq_value(v@.subrange(lo + 1, hi as int), false) == (match dq_value(
                v@.subrange(i as int, hi as int),
                escaped,
            ) {
                Some(r) => Some(value@ + r),
                None => None::<Seq<char>>,
            }),
        decreases hi - i,
    {
        let ch = v[i];
        let ghost rest = v@.subrange(i as int, hi as int);
        assert(rest.drop_first() =~= v@.subrange(i + 1, hi as int));
        assert(rest[0] == ch);
        if escaped {
            let ghost before = value@;
            value.push(unescape_char(ch));
            escaped = false;
            i += 1;
            assert forall|r: Seq<char>| before + (seq![unescape(ch)] + r) =~= value@ + r by {}
        } else if ch == '\\' {
            escaped = true;
            i += 1;
        } else if ch == '"' {
            assert(value@ + Seq::<char>::empty() =~= value@);
            return Ok(value);
        } else {
            let ghost before = value@;
            value.push(ch);
            i += 1;
            assert forall|r: Seq<char>| before + (seq![ch] + r) =~= value@ + r by {}
        }
    }
    Err(EnvError::DotenvUnterminatedDouble(line))
}

fn parse_value(v: &Vec<char>, lo: usize, hi: usize, line: usize) -> (r: Result<String, EnvError>)
    requires
        lo <= hi <= v.len(),
    ensures
        r matches Ok(s) ==> value_of(v@.subrange(lo as int, hi as int), line as nat) == Ok::<
            Seq<char>,
            EnvError,
        >(s@),
        r matches Err(e) ==> value_of(v@.subrange(lo as int, hi as int), line as nat) == Err::<
            Seq<char>,
            EnvError,
        >(e),
{
    let ghost raw = v@.subrange(lo as int, hi as int);
    if lo < hi && v[lo] == '"' {
        assert(raw.drop_first() =~= v@.subrange(lo + 1, hi as int));
        return parse_double_quoted(v, lo, hi, line);
    }
    if lo < hi && v[lo] == '\'' {
        assert(raw.drop_first() =~= v@.subrange(lo + 1, hi as int));
        let e = find_char(v, lo + 1, hi, '\'');
        if e == hi {
            return Err(EnvError::DotenvUnterminatedSingle(line));
        }
        let mut s = String::new();
        push_range(&mut s, v, lo + 1, e);
        assert(raw.drop_first().take(e - (lo + 1)) =~= v@.subrange(lo + 1, e as int));
        return Ok(s);
    }
    let mut prev_ws = false;
    let mut i: usize = lo;
    while i < hi && !(v[i] == '#' && prev_ws)
        invariant
            lo <= i <= hi <= v.len(),
            raw == v@.subrange(lo as int, hi as int),
            uq_cut(raw, false) == (i - lo) + uq_cut(v@.subrange(i as int, hi as int), prev_ws),
        decreases hi - i,
    {
        assert(v@.subrange(i as int, hi as int).drop_first() =~= v@.subrange(i + 1, hi as int));
        prev_ws = is_ws_char(v[i]);
        i += 1;
    }
    let end = rskip_ws(v, lo, i);
    let mut s = String::new();
    push_range(&mut s, v, lo, end);
    assert(raw.take(i - lo) =~= v@.subrange(lo as int, i as int));
    assert(s@ =~= v@.subrange(lo as int, end as int));
    Ok(s)
}

/// Parses the lines of a `.env` file: blank lines and `#` comments are
/// skipped, a leading `export ` is dropped, and each remaining line must be
/// `KEY=value` with a valid key. Values may be double-quoted (with `\n`,
/// `\r`, `\t`, `\"`, `\\` escapes), single-quoted (taken literally), or bare
/// (cut at a `#` that follows whitespace, trailing whitespace removed).
pub fn parse_dotenv(contents: &str) -> (r: Result<Vec<(EnvKey, String)>, EnvError>)
    requires
        contents@.len() < usize::MAX,
    ensures
        r matches Ok(entries) ==> dotenv_entries(contents@, 1) == Ok::<
            Seq<(Seq<char>, Seq<char>)>,
            EnvError,
        >(entries_view(entries@)),
        r matches Err(e) ==> dotenv_entries(contents@, 1) == Err::<
            Seq<(Seq<char>, Seq<char>)>,
            EnvError,
        >(e),
{
    let v = chars_of(contents);
    let mut entries: Vec<(EnvKey, String)> = Vec::new();
    let mut p: usize = 0;
    let mut line: usize = 1;
    assert(v@.skip(0) =~= v@);
    loop
        invariant
            p <= v.len() < usize::MAX,
            1 <= line <= p + 1,
            v@ == contents@,
            dotenv_entries(v@, 1) == prepend(
                entries_view(entries@),
                dotenv_entries(v@.skip(p as int), line as nat),
            ),
        decreases v.len() - p,
    {
        let ghost s = v@.skip(p as int);
        let e = find_char(&v, p, v.len(), '\n');
        proof {
            assert(v@.subrange(p as int, v.len() as int) =~= s);
            assert(s.take(e - p) =~= v@.subrange(p as int, e as int));
            if e < v.len() {
                assert(s.skip(e - p + 1) =~= v@.skip(e + 1));
            }
        }
        let outcome = parse_line(&v, p, e, line);
        match outcome {
            Err(er) => {
                return Err(er);
            },
            Ok(Some(entry)) => {
                let ghost before = entries_view(entries@);
                entries.push(entry);
                proof {
                    assert(entries_view(entries@) =~= before + seq![(entry.0@, entry.1@)]);
                    assert forall|x: Seq<(Seq<char>, Seq<char>)>|
                        before + (seq![(entry.0@, entry.1@)] + x) =~= entries_view(entries@)
                            + x by {}
                }
            },
            Ok(None) => {},
        }
        if e == v.len() {
            proof {
                assert(entries_view(entries@) + Seq::<(Seq<char>, Seq<char>)>::empty()
                    =~= entries_view(entries@));
            }
            return Ok(entries);
        }
        p = e + 1;
        line = line + 1;
    }
}

fn parse_line(v: &Vec<char>, lo: usize, hi: usize, line: usize) -> (r: Result<
    Option<(EnvKey, String)>,
    EnvError,
>)
    requires
        lo <= hi <= v.len(),
    ensures
        r matches Ok(Some(p)) ==> line_outcome(v@.subrange(lo as int, hi as int), line as nat)
            == Ok::<_, EnvError>(Some((p.0@, p.1@))),
        r matches Ok(None) ==> line_outcome(v@.subrange(lo as int, hi as int), line as nat)
            == Ok::<Option<(Seq<char>, Seq<char>)>, EnvError>(None),
        r matches Err(e) ==> line_outcome(v@.subrange(lo as int, hi as int), line as nat) == Err::<
            Option<(Seq<char>, Seq<char>)>,
            EnvError,
        >(e),
{
    let ghost text = v@.subrange(lo as int, hi as int);
    let (a, b) = trim_range(v, lo, hi);
    let ghost t = v@.subrange(a as int, b as int);
    if a == b || v[a] == '#' {
        return Ok(None);
    }
    let mut a2 = a;
    proof {
        reveal_strlit("export ");
    }
    if b - a >= 7 && v[a] == 'e' && v[a + 1] == 'x' && v[a + 2] == 'p' && v[a + 3] == 'o' && v[a
        + 4] == 'r' && v[a + 5] == 't' && v[a + 6] == ' ' {
        assert(t.take(7) =~= "export "@);
        a2 = skip_ws(v, a + 7, b);
        assert(t.skip(7) =~= v@.subrange(a + 7, b as int));
    } else {
        proof {
            if 7 <= t.len() && t.take(7) == "export "@ {
                assert(t.take(7)[0] == t[0]);
                assert(t.take(7)[1] == t[1]);
                assert(t.take(7)[2] == t[2]);
                assert(t.take(7)[3] == t[3]);
                assert(t.take(7)[4] == t[4]);
                assert(t.take(7)[5] == t[5]);
                assert(t.take(7)[6] == t[6]);
            }
        }
    }
    let ghost u = v@.subrange(a2 as int, b as int);
    assert(u == crate::dotenv::strip_export(t));
    let eq = find_char(v, a2, b, '=');
    if eq == b {
        return Err(EnvError::DotenvMissingEquals(line));
    }
    assert(u.take(eq - a2) =~= v@.subrange(a2 as int, eq as int));
    assert(u.skip(eq - a2 + 1) =~= v@.subrange(eq + 1, b as int));
    let (ka, kb) = trim_range(v, a2, eq);
    let key = EnvKey::from_range(v, ka, kb)?;
    let (va, vb) = trim_range(v, eq + 1, b);
    let value = parse_value(v, va, vb, line)?;
    Ok(Some((key, value)))
}

} // verus!
