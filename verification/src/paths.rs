//! Where the tool keeps its data, derived from one data directory.

use vstd::prelude::*;

use crate::domain::owned;
use crate::text::{chars_of, push_str};

verus! {

broadcast use vstd::string::group_string_axioms;

/// `base` joined with the relative or absolute path `name`, as `Path::join` does.
pub open spec fn join_path(base: Seq<char>, name: Seq<char>) -> Seq<char> {
    if name.len() > 0 && name[0] == '/' {
        name
    } else if base.len() == 0 || base.last() == '/' {
        base + name
    } else {
        base + "/"@ + name
    }
}

/// `p` without its final component, as `Path::parent` computes it.
pub uninterp spec fn path_parent_of(p: Seq<char>) -> Option<Seq<char>>;

/// Position `i` of `d` starts a `.` or `..` component.
pub open spec fn dot_component_at(d: Seq<char>, i: int) -> bool {
    d[i] == '.' && (i + 1 == d.len() || d[i + 1] == '/' || (d[i + 1] == '.' && (i + 2 == d.len() || d[i + 2]
        == '/')))
}

/// `d` is a directory path of plain components: not empty, not ending in
/// `/`, with no two `/` in a row and no `.` or `..` component.
pub open spec fn plain_dir(d: Seq<char>) -> bool {
    &&& d.len() > 0
    &&& d.last() != '/'
    &&& forall|i: int| 0 <= i < d.len() - 1 && #[trigger] d[i] == '/' ==> d[i + 1] != '/'
    &&& forall|i: int| 0 <= i < d.len() && (i == 0 || d[i - 1] == '/') ==> !dot_component_at(d, i)
}

/// `n` is one plain path component: not empty, no `/`, not `.` or `..`.
pub open spec fn plain_name(n: Seq<char>) -> bool {
    &&& n.len() > 0
    &&& forall|i: int| 0 <= i < n.len() ==> n[i] != '/'
    &&& n != "."@ && n != ".."@
}

/// `p` up to its last `/`.
pub open spec fn before_last_slash(p: Seq<char>) -> Seq<char> {
    p.take(crate::domain::last_index_of(p, '/'))
}

/// `p` is a directory of plain components, a `/` and one plain component.
pub open spec fn plain_split(p: Seq<char>) -> bool {
    let k = crate::domain::last_index_of(p, '/');
    k >= 0 && plain_dir(p.take(k)) && plain_name(p.skip(k + 1))
}

/// Calls `std::path::Path::parent` on `p`. Trusted: the result is
/// `path_parent_of(p)`, and a parent is shorter than the path it comes
/// from. Where `p` is a directory of plain components, a `/` and one plain
/// component, the parent is that directory: the path without its final
/// component, as the documentation of `Path::parent` says.
#[verifier::external_body]
pub(crate) fn path_parent(p: &str) -> (r: Option<&str>)
    ensures
        r matches Some(q) ==> path_parent_of(p@) == Some(q@) && q@.len() < p@.len() && (plain_split(p@)
            ==> q@ == before_last_slash(p@)),
        r is None ==> path_parent_of(p@) is None && !plain_split(p@),
{
    std::path::Path::new(p).parent().and_then(|q| q.to_str())
}

/// `base` joined with `name`.
pub fn join(base: &str, name: &str) -> (r: String)
    ensures
        r@ == join_path(base@, name@),
{
    let n = chars_of(name);
    let b = chars_of(base);
    let mut out = String::new();
    if n.len() > 0 && n[0] == '/' {
        push_str(&mut out, name);
        return out;
    }
    push_str(&mut out, base);
    if b.len() > 0 && b[b.len() - 1] != '/' {
        push_str(&mut out, "/");
    }
    push_str(&mut out, name);
    proof {
        reveal_strlit("/");
    }
    out
}

/// The data directory and the files derived from it.
#[derive(Debug, PartialEq, Eq)]
pub struct AppPaths {
    pub data_dir: String,
    pub db_path: String,
    pub test_secrets_dir: String,
}

impl Clone for AppPaths {
    fn clone(&self) -> (r: AppPaths)
        ensures
            r == *self,
    {
        AppPaths {
            data_dir: self.data_dir.clone(),
            db_path: self.db_path.clone(),
            test_secrets_dir: self.test_secrets_dir.clone(),
        }
    }
}

impl AppPaths {
    /// The paths for data directory `data_dir`: the metadata database is
    /// `easyenv.sqlite` in it and the file secret store `test-secrets`.
    pub fn from_data_dir(data_dir: &str) -> (r: AppPaths)
        ensures
            r.data_dir@ == data_dir@,
            r.db_path@ == join_path(data_dir@, "easyenv.sqlite"@),
            r.test_secrets_dir@ == join_path(data_dir@, "test-secrets"@),
    {
        AppPaths {
            db_path: join(data_dir, "easyenv.sqlite"),
            test_secrets_dir: join(data_dir, "test-secrets"),
            data_dir: owned(data_dir),
        }
    }

    /// The directory that holds the database: the parent of `db_path`, or
    /// the data directory when it has none.
    pub fn db_dir(&self) -> (r: &str)
        ensures
            r@ == (match path_parent_of(self.db_path@) {
                Some(q) => q,
                None => self.data_dir@,
            }),
            plain_dir(self.data_dir@) && self.db_path@ == join_path(self.data_dir@, "easyenv.sqlite"@) ==> r@
                == self.data_dir@,
    {
        proof {
            let d = self.data_dir@;
            let name = "easyenv.sqlite"@;
            if plain_dir(d) && self.db_path@ == join_path(d, name) {
                reveal_strlit("easyenv.sqlite");
                reveal_strlit("/");
                reveal_strlit(".");
                reveal_strlit("..");
                let p = self.db_path@;
                assert(p =~= d + seq!['/'] + name);
                crate::domain::lemma_last_index_of_is(p, '/', d.len() as int);
                assert(p.take(d.len() as int) =~= d);
                assert(p.skip(d.len() as int + 1) =~= name);
                assert(name.len() != "."@.len());
                assert(name.len() != ".."@.len());
            }
        }
        match path_parent(self.db_path.as_str()) {
            Some(q) => q,
            None => self.data_dir.as_str(),
        }
    }
}

} // verus!
