//! Ordering of strings by their characters, and sequences kept sorted by key.

use vstd::prelude::*;

use crate::text::chars_of;

verus! {

broadcast use vstd::string::group_string_axioms;

/// Lexicographic order of character sequences, as `Ord for str` orders them.
pub open spec fn lex_lt(a: Seq<char>, b: Seq<char>) -> bool
    decreases a.len(),
{
    if a.len() == 0 {
        b.len() > 0
    } else if b.len() == 0 {
        false
    } else if a[0] != b[0] {
        a[0] < b[0]
    } else {
        lex_lt(a.drop_first(), b.drop_first())
    }
}

pub proof fn lemma_lex_irreflexive(a: Seq<char>)
    ensures
        !lex_lt(a, a),
    decreases a.len(),
{
    if a.len() > 0 {
        lemma_lex_irreflexive(a.drop_first());
    }
}

pub proof fn lemma_lex_asymmetric(a: Seq<char>, b: Seq<char>)
    ensures
        !(lex_lt(a, b) && lex_lt(b, a)),
    decreases a.len(),
{
    if a.len() > 0 && b.len() > 0 && a[0] == b[0] {
        lemma_lex_asymmetric(a.drop_first(), b.drop_first());
    }
}

pub proof fn lemma_lex_transitive(a: Seq<char>, b: Seq<char>, c: Seq<char>)
    requires
        lex_lt(a, b),
        lex_lt(b, c),
    ensures
        lex_lt(a, c),
    decreases a.len(),
{
    if a.len() > 0 && b.len() > 0 && c.len() > 0 && a[0] == b[0] && b[0] == c[0] {
        lemma_lex_transitive(a.drop_first(), b.drop_first(), c.drop_first());
    }
}

pub proof fn lemma_lex_total(a: Seq<char>, b: Seq<char>)
    ensures
        a == b || lex_lt(a, b) || lex_lt(b, a),
    decreases a.len(),
{
    if a.len() > 0 && b.len() > 0 && a[0] == b[0] {
        lemma_lex_total(a.drop_first(), b.drop_first());
        if a.drop_first() == b.drop_first() {
            assert(a =~= seq![a[0]] + a.drop_first());
            assert(b =~= seq![b[0]] + b.drop_first());
        }
    } else if a.len() == 0 && b.len() == 0 {
        assert(a =~= b);
    }
}

/// Compares `a` with `b`: negative, zero or positive as `a` sorts before,
/// equal to, or after `b`.
pub fn compare_str(a: &str, b: &str) -> (r: i8)
    ensures
        r < 0 <==> lex_lt(a@, b@),
        r == 0 <==> a@ == b@,
        r > 0 <==> lex_lt(b@, a@),
{
    let x = chars_of(a);
    let y = chars_of(b);
    let mut i: usize = 0;
    assert(x@.skip(0) =~= x@);
    assert(y@.skip(0) =~= y@);
    while i < x.len() && i < y.len() && x[i] == y[i]
        invariant
            i <= x.len(),
            i <= y.len(),
            x@.take(i as int) == y@.take(i as int),
            lex_lt(x@, y@) == lex_lt(x@.skip(i as int), y@.skip(i as int)),
            lex_lt(y@, x@) == lex_lt(y@.skip(i as int), x@.skip(i as int)),
        decreases x.len() - i,
    {
        assert(x@.skip(i as int).drop_first() =~= x@.skip(i + 1));
        assert(y@.skip(i as int).drop_first() =~= y@.skip(i + 1));
        assert(x@.take(i + 1) =~= x@.take(i as int).push(x@[i as int]));
        assert(y@.take(i + 1) =~= y@.take(i as int).push(y@[i as int]));
        i += 1;
    }
    proof {
        lemma_lex_irreflexive(x@);
        lemma_lex_asymmetric(x@, y@);
        lemma_lex_total(x@, y@);
    }
    if i == x.len() && i == y.len() {
        assert(x@ =~= x@.take(i as int));
        assert(y@ =~= y@.take(i as int));
        0
    } else if i == x.len() {
        1 - 2
    } else if i == y.len() {
        1
    } else if x[i] < y[i] {
        1 - 2
    } else {
        1
    }
}

/// Things that carry a string key.
pub trait Keyed {
    spec fn key_view(&self) -> Seq<char>;

    fn key_str(&self) -> (r: &str)
        ensures
            r@ == self.key_view(),
    ;
}

/// Keys strictly increase along `s`.
pub open spec fn strictly_sorted<T: Keyed>(s: Seq<T>) -> bool {
    forall|i: int, j: int|
        0 <= i < j < s.len() ==> lex_lt(#[trigger] s[i].key_view(), #[trigger] s[j].key_view())
}

/// Some element of `s` has key `k`.
pub open spec fn has_key<T: Keyed>(s: Seq<T>, k: Seq<char>) -> bool {
    exists|i: int| 0 <= i < s.len() && #[trigger] s[i].key_view() == k
}


/// After an upsert of `x`, the keys present are those present before and
/// the key of `x`.
pub proof fn lemma_upsert_keys<T: Keyed>(old_v: Seq<T>, new_v: Seq<T>, x: T, k: Seq<char>)
    requires
        forall|e: T|
            #![trigger new_v.contains(e)]
            #![trigger old_v.contains(e)]
            new_v.contains(e) <==> (e == x || (old_v.contains(e) && e.key_view() != x.key_view())),
    ensures
        has_key(new_v, k) <==> (k == x.key_view() || has_key(old_v, k)),
{
    if has_key(new_v, k) {
        let i = choose|i: int| 0 <= i < new_v.len() && #[trigger] new_v[i].key_view() == k;
        assert(new_v.contains(new_v[i]));
        if new_v[i] != x {
            assert(old_v.contains(new_v[i]));
            let j = choose|j: int| 0 <= j < old_v.len() && old_v[j] == new_v[i];
            assert(old_v[j].key_view() == k);
        }
    }
    if k == x.key_view() {
        assert(new_v.contains(x));
        let i = choose|i: int| 0 <= i < new_v.len() && new_v[i] == x;
        assert(new_v[i].key_view() == k);
    } else if has_key(old_v, k) {
        let i = choose|i: int| 0 <= i < old_v.len() && #[trigger] old_v[i].key_view() == k;
        assert(old_v.contains(old_v[i]));
        assert(new_v.contains(old_v[i]));
        let j = choose|j: int| 0 <= j < new_v.len() && new_v[j] == old_v[i];
        assert(new_v[j].key_view() == k);
    }
}

/// Puts `x` into the sorted `v`, replacing the element with the same key if
/// there is one.
pub fn upsert_sorted<T: Keyed>(v: &mut Vec<T>, x: T)
    requires
        strictly_sorted(old(v)@),
    ensures
        strictly_sorted(final(v)@),
        forall|e: T|
            #![trigger final(v)@.contains(e)]
            #![trigger old(v)@.contains(e)]
            final(v)@.contains(e) <==> (e == x || (old(v)@.contains(e) && e.key_view()
                != x.key_view())),
{
    let ghost old_v = v@;
    let mut i: usize = 0;
    while i < v.len() && compare_str(v[i].key_str(), x.key_str()) < 0
        invariant
            v@ == old_v,
            strictly_sorted(old_v),
            i <= v.len(),
            forall|j: int| 0 <= j < i ==> lex_lt(#[trigger] v@[j].key_view(), x.key_view()),
        decreases v.len() - i,
    {
        i += 1;
    }
    proof {
        if i < old_v.len() {
            lemma_lex_total(x.key_view(), old_v[i as int].key_view());
        }
        assert forall|j: int| i < j < old_v.len() implies lex_lt(
            x.key_view(),
            #[trigger] old_v[j].key_view(),
        ) by {
            if i < old_v.len() {
                assert(lex_lt(old_v[i as int].key_view(), old_v[j].key_view()));
                if old_v[i as int].key_view() != x.key_view() {
                    lemma_lex_transitive(x.key_view(), old_v[i as int].key_view(), old_v[j].key_view());
                }
            }
        }
    }
    if i < v.len() && compare_str(v[i].key_str(), x.key_str()) == 0 {
        v.set(i, x);
        proof {
            assert(x.key_view() == old_v[i as int].key_view());
            assert forall|a: int, b: int| 0 <= a < b < v@.len() implies lex_lt(
                #[trigger] v@[a].key_view(),
                #[trigger] v@[b].key_view(),
            ) by {
                assert(v@[a].key_view() == old_v[a].key_view());
                assert(v@[b].key_view() == old_v[b].key_view());
                assert(lex_lt(old_v[a].key_view(), old_v[b].key_view()));
            }
            assert forall|e: T|
                v@.contains(e) <==> (e == x || (old_v.contains(e) && e.key_view()
                    != x.key_view())) by {
                if v@.contains(e) {
                    let k = choose|k: int| 0 <= k < v@.len() && v@[k] == e;
                    if k != i {
                        assert(old_v[k] == e);
                        if k < i {
                            lemma_lex_irreflexive(x.key_view());
                        } else {
                            lemma_lex_irreflexive(x.key_view());
                        }
                    }
                }
                if e == x {
                    assert(v@[i as int] == x);
                }
                if old_v.contains(e) && e.key_view() != x.key_view() {
                    let k = choose|k: int| 0 <= k < old_v.len() && old_v[k] == e;
                    assert(k != i);
                    assert(v@[k] == e);
                }
            }
        }
    } else {
        v.insert(i, x);
        proof {
            assert forall|a: int, b: int| 0 <= a < b < v@.len() implies lex_lt(
                #[trigger] v@[a].key_view(),
                #[trigger] v@[b].key_view(),
            ) by {
                if a < i && b > i {
                    assert(v@[a] == old_v[a]);
                    assert(v@[b] == old_v[b - 1]);
                } else if a < i && b == i {
                } else if a == i {
                    assert(v@[b] == old_v[b - 1]);
                } else if a > i {
                    assert(v@[a] == old_v[a - 1]);
                    assert(v@[b] == old_v[b - 1]);
                } else {
                    assert(v@[a] == old_v[a]);
                    assert(v@[b] == old_v[b]);
                }
            }
            assert forall|e: T|
                v@.contains(e) <==> (e == x || (old_v.contains(e) && e.key_view()
                    != x.key_view())) by {
                if v@.contains(e) {
                    let k = choose|k: int| 0 <= k < v@.len() && v@[k] == e;
                    if k < i {
                        assert(old_v[k] == e);
                        lemma_lex_irreflexive(x.key_view());
                    } else if k > i {
                        assert(old_v[k - 1] == e);
                        lemma_lex_irreflexive(x.key_view());
                    }
                }
                if e == x {
                    assert(v@[i as int] == x);
                }
                if old_v.contains(e) && e.key_view() != x.key_view() {
                    let k = choose|k: int| 0 <= k < old_v.len() && old_v[k] == e;
                    if k < i {
                        assert(v@[k] == e);
                    } else {
                        assert(v@[k + 1] == e);
                    }
                }
            }
        }
    }
}

} // verus!
