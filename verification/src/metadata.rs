//! The metadata tables: registered projects and the variables stored per
//! scope, project and profile. This is the model that the command-line tool
//! loads from and saves to its SQLite database.

use vstd::prelude::*;

use crate::clock::current_timestamp;
use crate::domain::{
    clone_opt_string, default_project_name, owned, project_id_for_path, project_id_of,
    project_name_of, EnvKey, ProjectRecord, Scope, VarMetadata,
};
use crate::error::EnvError;
use crate::order::{compare_str, has_key, strictly_sorted, upsert_sorted, Keyed};
use crate::paths::{path_parent, path_parent_of};

verus! {

broadcast use vstd::string::group_string_axioms;

impl Keyed for VarMetadata {
    open spec fn key_view(&self) -> Seq<char> {
        self.key@
    }

    fn key_str(&self) -> (r: &str) {
        self.key.as_str()
    }
}

/// Equality of two strings by their characters.
pub fn str_eq(a: &str, b: &str) -> (r: bool)
    ensures
        r == (a@ == b@),
{
    compare_str(a, b) == 0
}

/// The project id column as stored: an absent id is the empty string.
pub open spec fn norm_pid(p: Option<String>) -> Seq<char> {
    match p {
        Some(s) => s@,
        None => Seq::empty(),
    }
}

/// A project id filter as compared against the column.
pub open spec fn opt_view(p: Option<&str>) -> Seq<char> {
    match p {
        Some(s) => s@,
        None => Seq::empty(),
    }
}

/// The project id column for an optional id: the empty string for none.
pub fn normalize_project_id(project_id: Option<&str>) -> (r: String)
    ensures
        r@ == opt_view(project_id),
{
    match project_id {
        Some(id) => owned(id),
        None => String::new(),
    }
}

/// The primary key of a variable row.
pub open spec fn row_key(m: VarMetadata) -> (Scope, Seq<char>, Seq<char>, Seq<char>) {
    (m.scope, m.key@, norm_pid(m.project_id), m.profile@)
}

/// A row as the database holds it: never shell scope, and an empty project
/// id is stored as no project id.
pub open spec fn row_normal(m: VarMetadata) -> bool {
    &&& m.scope != Scope::Shell
    &&& (m.project_id matches Some(s) ==> s@.len() > 0)
}

/// The row selected by scope, key, project id and profile.
pub open spec fn var_matches(
    m: VarMetadata,
    scope: Scope,
    key: Seq<char>,
    pid: Seq<char>,
    profile: Seq<char>,
) -> bool {
    m.scope == scope && m.key@ == key && norm_pid(m.project_id) == pid && m.profile@ == profile
}

/// The rows of one scope, project id and profile.
pub open spec fn in_listing(m: VarMetadata, scope: Scope, pid: Seq<char>, profile: Seq<char>) -> bool {
    m.scope == scope && norm_pid(m.project_id) == pid && m.profile@ == profile
}

/// The row with that primary key, if there is one.
pub open spec fn find_row(
    rows: Seq<VarMetadata>,
    scope: Scope,
    key: Seq<char>,
    pid: Seq<char>,
    profile: Seq<char>,
) -> Option<VarMetadata> {
    if exists|i: int| 0 <= i < rows.len() && var_matches(#[trigger] rows[i], scope, key, pid, profile) {
        let i = choose|i: int| 0 <= i < rows.len() && var_matches(#[trigger] rows[i], scope, key, pid, profile);
        Some(rows[i])
    } else {
        None
    }
}

/// The row a lookup sees: the active project's row if there is one, else the global row.
pub open spec fn visible_row(
    rows: Seq<VarMetadata>,
    key: Seq<char>,
    active: Option<Seq<char>>,
    profile: Seq<char>,
) -> Option<VarMetadata> {
    match active {
        Some(pid) => match find_row(rows, Scope::Project, key, pid, profile) {
            Some(r) => Some(r),
            None => find_row(rows, Scope::Global, key, Seq::empty(), profile),
        },
        None => find_row(rows, Scope::Global, key, Seq::empty(), profile),
    }
}

pub open spec fn opt_seq(p: Option<&str>) -> Option<Seq<char>> {
    match p {
        Some(s) => Some(s@),
        None => None,
    }
}

/// The project registered at `root`, if there is one.
pub open spec fn project_at(projects: Seq<ProjectRecord>, root: Seq<char>) -> Option<ProjectRecord> {
    if exists|i: int| 0 <= i < projects.len() && (#[trigger] projects[i]).root_path@ == root {
        let i = choose|i: int| 0 <= i < projects.len() && (#[trigger] projects[i]).root_path@ == root;
        Some(projects[i])
    } else {
        None
    }
}

/// The project registered at `p` or, failing that, at its nearest ancestor,
/// looking at no more than `fuel` paths.
pub open spec fn project_in_ancestors(projects: Seq<ProjectRecord>, p: Seq<char>, fuel: nat) -> Option<
    ProjectRecord,
>
    decreases fuel,
{
    if fuel == 0 {
        None
    } else {
        match project_at(projects, p) {
            Some(r) => Some(r),
            None => match path_parent_of(p) {
                Some(q) => project_in_ancestors(projects, q, (fuel - 1) as nat),
                None => None,
            },
        }
    }
}

/// The `n`th ancestor of `p` by `Path::parent`; `p` itself for 0.
pub open spec fn ancestor(p: Seq<char>, n: nat) -> Option<Seq<char>>
    decreases n,
{
    if n == 0 {
        Some(p)
    } else {
        match path_parent_of(p) {
            Some(q) => ancestor(q, (n - 1) as nat),
            None => None,
        }
    }
}

/// Subdirectories inherit their project: where the `n`th ancestor of `d` is
/// the root of project `p` and no nearer ancestor (nor `d`) is registered,
/// the search from `d` finds `p`, given more than `n` steps (every parent is
/// shorter than its path, so `d.len() + 1` steps, what the search for the
/// active project takes, are enough).
pub proof fn law_subdirectory_inherits(
    projects: Seq<ProjectRecord>,
    d: Seq<char>,
    n: nat,
    fuel: nat,
    p: ProjectRecord,
)
    requires
        ancestor(d, n) matches Some(root) && project_at(projects, root) == Some(p),
        forall|k: nat| k < n ==> ((#[trigger] ancestor(d, k)) matches Some(q) && project_at(projects, q) is None),
        n < fuel,
    ensures
        project_in_ancestors(projects, d, fuel) == Some(p),
    decreases n,
{
    if n > 0 {
        assert(ancestor(d, 0) == Some(d));
        let q = path_parent_of(d)->Some_0;
        assert forall|k: nat| k < (n - 1) as nat implies ((#[trigger] ancestor(q, k)) matches Some(x)
            && project_at(projects, x) is None) by {
            assert(ancestor(d, k + 1) == ancestor(q, k));
        }
        law_subdirectory_inherits(projects, q, (n - 1) as nat, (fuel - 1) as nat, p);
    }
}

/// Each of the first `n` steps up from `d` reaches a shorter path.
pub open spec fn shortening_chain(d: Seq<char>, n: nat) -> bool {
    forall|k: nat|
        k < n ==> ((#[trigger] ancestor(d, k)) matches Some(a) && (path_parent_of(a) matches Some(b)
            ==> b.len() < a.len()))
}

proof fn lemma_chain_depth(d: Seq<char>, n: nat)
    requires
        ancestor(d, n) is Some,
        shortening_chain(d, n),
    ensures
        ancestor(d, n)->Some_0.len() + n <= d.len(),
    decreases n,
{
    if n > 0 {
        assert(ancestor(d, 0) == Some(d));
        let q = path_parent_of(d)->Some_0;
        assert forall|k: nat| k < (n - 1) as nat implies ((#[trigger] ancestor(q, k)) matches Some(a) && (
            path_parent_of(a) matches Some(b) ==> b.len() < a.len())) by {
            assert(ancestor(d, k + 1) == ancestor(q, k));
        }
        lemma_chain_depth(q, (n - 1) as nat);
    }
}

/// A subdirectory inherits its project from the search for the active
/// project: where the `n`th ancestor of `d` is the root of project `p`, no
/// nearer ancestor (nor `d`) is registered, and each step up reaches a
/// shorter path (as every `Path::parent` result is), the search from `d`
/// with the `d.len() + 1` steps it takes finds `p`.
pub proof fn law_active_project_inherited(projects: Seq<ProjectRecord>, d: Seq<char>, n: nat, p: ProjectRecord)
    requires
        ancestor(d, n) matches Some(root) && project_at(projects, root) == Some(p),
        forall|k: nat| k < n ==> ((#[trigger] ancestor(d, k)) matches Some(q) && project_at(projects, q) is None),
        shortening_chain(d, n),
    ensures
        project_in_ancestors(projects, d, d.len() + 1) == Some(p),
{
    lemma_chain_depth(d, n);
    law_subdirectory_inherits(projects, d, n, d.len() + 1, p);
}

/// What registering `root` does: the projects go from `before` to `after`,
/// and `r` is the project now at `root`, or why there is none.
pub open spec fn register_outcome(
    before: Seq<ProjectRecord>,
    root: Seq<char>,
    after: Seq<ProjectRecord>,
    r: Result<ProjectRecord, EnvError>,
) -> bool {
    &&& match r {
        Ok(p) => p.root_path@ == root && project_at(after, root) == Some(p) && match project_at(before, root) {
            Some(existing) => p == existing && after == before,
            None => !id_taken(before, project_id_of(root)) && p.id@ == project_id_of(root) && p.name@
                == project_name_of(root) && after == before.push(p),
        },
        Err(e) => after == before && (e == EnvError::ClockBeforeEpoch || (e == EnvError::ProjectIdTaken
            && project_at(before, root) is None && id_taken(before, project_id_of(root)))),
    }
    &&& project_at(before, root) is Some || !id_taken(before, project_id_of(root)) ==> r is Ok || r
        == Err::<ProjectRecord, EnvError>(EnvError::ClockBeforeEpoch)
}

/// Registering a root twice gives the same project and leaves the
/// projects as the first registration left them; the second registration
/// fails only where the clock does.
pub proof fn law_register_idempotent(
    p0: Seq<ProjectRecord>,
    p1: Seq<ProjectRecord>,
    p2: Seq<ProjectRecord>,
    root: Seq<char>,
    r1: Result<ProjectRecord, EnvError>,
    r2: Result<ProjectRecord, EnvError>,
)
    requires
        register_outcome(p0, root, p1, r1),
        register_outcome(p1, root, p2, r2),
        r1 is Ok,
    ensures
        r2 is Ok || r2 == Err::<ProjectRecord, EnvError>(EnvError::ClockBeforeEpoch),
        r2 matches Ok(b) ==> b == r1->Ok_0 && p2 == p1,
{
}

/// The registered projects and stored variables.
#[derive(Debug)]
pub struct MetadataStore {
    db_path: String,
    projects: Vec<ProjectRecord>,
    vars: Vec<VarMetadata>,
}

/// Distinct projects have distinct ids and distinct roots; distinct rows
/// have distinct primary keys, and every row is normal.
pub open spec fn tables_wf(projects: Seq<ProjectRecord>, vars: Seq<VarMetadata>) -> bool {
    &&& forall|i: int, j: int|
        0 <= i < j < projects.len() ==> (#[trigger] projects[i]).id@ != (#[trigger] projects[j]).id@
            && projects[i].root_path@ != projects[j].root_path@
    &&& forall|i: int| 0 <= i < vars.len() ==> row_normal(#[trigger] vars[i])
    &&& forall|i: int, j: int|
        0 <= i < j < vars.len() ==> row_key(#[trigger] vars[i]) != row_key(#[trigger] vars[j])
}

/// `m` with an empty project id replaced by none.
pub open spec fn normalized(m: VarMetadata) -> VarMetadata {
    match m.project_id {
        Some(s) => if s@.len() == 0 {
            VarMetadata { project_id: None, ..m }
        } else {
            m
        },
        None => m,
    }
}

pub proof fn lemma_find_row_at(
    projects: Seq<ProjectRecord>,
    rows: Seq<VarMetadata>,
    scope: Scope,
    key: Seq<char>,
    pid: Seq<char>,
    profile: Seq<char>,
    i: int,
)
    requires
        tables_wf(projects, rows),
        0 <= i < rows.len(),
        var_matches(rows[i], scope, key, pid, profile),
    ensures
        find_row(rows, scope, key, pid, profile) == Some(rows[i]),
{
    let j = choose|j: int| 0 <= j < rows.len() && var_matches(#[trigger] rows[j], scope, key, pid, profile);
    if j != i {
        if j < i {
            assert(row_key(rows[j]) != row_key(rows[i]));
        } else {
            assert(row_key(rows[i]) != row_key(rows[j]));
        }
    }
}

pub proof fn lemma_project_at(projects: Seq<ProjectRecord>, rows: Seq<VarMetadata>, root: Seq<char>, i: int)
    requires
        tables_wf(projects, rows),
        0 <= i < projects.len(),
        projects[i].root_path@ == root,
    ensures
        project_at(projects, root) == Some(projects[i]),
{
    let j = choose|j: int| 0 <= j < projects.len() && (#[trigger] projects[j]).root_path@ == root;
    if j != i {
        if j < i {
            assert(projects[j].root_path@ != projects[i].root_path@);
        } else {
            assert(projects[i].root_path@ != projects[j].root_path@);
        }
    }
}

/// The project id column of `p`: the empty string when there is none.
pub fn pid_str(p: &Option<String>) -> (r: &str)
    ensures
        r@ == norm_pid(*p),
{
    match p {
        Some(s) => s.as_str(),
        None => {
            proof {
                reveal_strlit("");
            }
            ""
        },
    }
}

pub fn opt_str(p: Option<&str>) -> (r: &str)
    ensures
        r@ == opt_view(p),
{
    match p {
        Some(s) => s,
        None => {
            proof {
                reveal_strlit("");
            }
            ""
        },
    }
}

fn matches_row(m: &VarMetadata, scope: Scope, key: &str, pid: &str, profile: &str) -> (r: bool)
    ensures
        r == var_matches(*m, scope, key@, pid@, profile@),
{
    m.scope == scope && str_eq(m.key.as_str(), key) && str_eq(pid_str(&m.project_id), pid) && str_eq(
        m.profile.as_str(),
        profile,
    )
}

fn same_row_key(a: &VarMetadata, b: &VarMetadata) -> (r: bool)
    ensures
        r == (row_key(*a) == row_key(*b)),
{
    a.scope == b.scope && str_eq(a.key.as_str(), b.key.as_str()) && str_eq(
        pid_str(&a.project_id),
        pid_str(&b.project_id),
    ) && str_eq(a.profile.as_str(), b.profile.as_str())
}

/// A row read from the database, or why it cannot be one: the scope column
/// must name a scope and the key column must be a valid key; an empty
/// project id column means no project id.
pub fn map_var(
    scope: &str,
    key: &str,
    project_id: &str,
    profile: &str,
    updated_at: i64,
    expires_at: Option<i64>,
) -> (r: Result<VarMetadata, EnvError>)
    ensures
        r matches Ok(m) ==> crate::domain::scope_from_name(scope@) == Ok::<Scope, EnvError>(m.scope)
            && m.key@ == key@ && norm_pid(m.project_id) == project_id@ && (m.project_id
            matches Some(p) ==> p@.len() > 0) && m.profile@ == profile@ && m.updated_at
            == updated_at && m.expires_at == expires_at,
        r matches Err(e) ==> (crate::domain::scope_from_name(scope@) is Err
            && e is InvalidScope) || (crate::domain::scope_from_name(scope@) is Ok
            && crate::domain::key_fault(key@) == Some(e)),
{
    let scope = Scope::parse_name(scope)?;
    let key = EnvKey::parse(key)?;
    let project_id = if project_id.is_empty() {
        None
    } else {
        Some(owned(project_id))
    };
    Ok(VarMetadata { key, scope, project_id, profile: owned(profile), updated_at, expires_at })
}

impl MetadataStore {
    #[verifier::type_invariant]
    spec fn inv(self) -> bool {
        tables_wf(self.projects@, self.vars@)
    }

    pub closed spec fn db_path_view(&self) -> Seq<char> {
        self.db_path@
    }

    pub closed spec fn projects_view(&self) -> Seq<ProjectRecord> {
        self.projects@
    }

    pub closed spec fn vars_view(&self) -> Seq<VarMetadata> {
        self.vars@
    }

    /// The tables of every store are well formed.
    pub fn check_wf(&self)
        ensures
            tables_wf(self.projects_view(), self.vars_view()),
    {
        proof {
            use_type_invariant(self);
        }
    }

    /// An empty store for the database at `db_path`.
    pub fn new(db_path: &str) -> (r: MetadataStore)
        ensures
            r.db_path_view() == db_path@,
            r.projects_view() == Seq::<ProjectRecord>::empty(),
            r.vars_view() == Seq::<VarMetadata>::empty(),
    {
        MetadataStore { db_path: owned(db_path), projects: Vec::new(), vars: Vec::new() }
    }

    pub fn db_path(&self) -> (r: &str)
        ensures
            r@ == self.db_path_view(),
    {
        self.db_path.as_str()
    }

    pub fn projects(&self) -> (r: &Vec<ProjectRecord>)
        ensures
            r@ == self.projects_view(),
    {
        &self.projects
    }

    pub fn vars(&self) -> (r: &Vec<VarMetadata>)
        ensures
            r@ == self.vars_view(),
    {
        &self.vars
    }

    /// A store holding the given tables, or `CorruptMetadata` when they are
    /// not well formed.
    pub fn from_rows(db_path: &str, projects: Vec<ProjectRecord>, vars: Vec<VarMetadata>) -> (r:
        Result<MetadataStore, EnvError>)
        ensures
            r matches Ok(s) ==> s.db_path_view() == db_path@ && s.projects_view() == projects@
                && s.vars_view() == vars@,
            r is Ok <==> tables_wf(projects@, vars@),
            r matches Err(e) ==> e == EnvError::CorruptMetadata,
    {
        let mut i: usize = 0;
        while i < projects.len()
            invariant
                i <= projects.len(),
                forall|a: int, b: int|
                    0 <= a < b < projects@.len() && a < i ==> (#[trigger] projects@[a]).id@
                        != (#[trigger] projects@[b]).id@ && projects@[a].root_path@
                        != projects@[b].root_path@,
            decreases projects.len() - i,
        {
            let mut j: usize = i + 1;
            while j < projects.len()
                invariant
                    i < projects.len(),
                    i + 1 <= j <= projects.len(),
                    forall|a: int, b: int|
                        0 <= a < b < projects@.len() && a < i ==> (#[trigger] projects@[a]).id@
                            != (#[trigger] projects@[b]).id@ && projects@[a].root_path@
                            != projects@[b].root_path@,
                    forall|b: int|
                        i < b < j ==> projects@[i as int].id@ != (#[trigger] projects@[b]).id@
                            && projects@[i as int].root_path@ != projects@[b].root_path@,
                decreases projects.len() - j,
            {
                if str_eq(projects[i].id.as_str(), projects[j].id.as_str()) || str_eq(
                    projects[i].root_path.as_str(),
                    projects[j].root_path.as_str(),
                ) {
                    return Err(EnvError::CorruptMetadata);
                }
                j += 1;
            }
            i += 1;
        }
        let mut k: usize = 0;
        while k < vars.len()
            invariant
                k <= vars.len(),
                forall|a: int| 0 <= a < k ==> row_normal(#[trigger] vars@[a]),
                forall|a: int, b: int|
                    0 <= a < b < vars@.len() && a < k ==> row_key(#[trigger] vars@[a]) != row_key(
                        #[trigger] vars@[b],
                    ),
            decreases vars.len() - k,
        {
            let empty_pid = match &vars[k].project_id {
                Some(p) => p.as_str().is_empty(),
                None => false,
            };
            if vars[k].scope == Scope::Shell || empty_pid {
                return Err(EnvError::CorruptMetadata);
            }
            let mut m: usize = k + 1;
            while m < vars.len()
                invariant
                    k < vars.len(),
                    k + 1 <= m <= vars.len(),
                    forall|a: int, b: int|
                        0 <= a < b < vars@.len() && a < k ==> row_key(#[trigger] vars@[a])
                            != row_key(#[trigger] vars@[b]),
                    forall|b: int| k < b < m ==> row_key(vars@[k as int]) != row_key(#[trigger] vars@[b]),
                decreases vars.len() - m,
            {
                if same_row_key(&vars[k], &vars[m]) {
                    return Err(EnvError::CorruptMetadata);
                }
                m += 1;
            }
            k += 1;
        }
        Ok(MetadataStore { db_path: owned(db_path), projects, vars })
    }
}

impl MetadataStore {
    /// The row with primary key (`scope`, `key`, `project_id`, `profile`);
    /// no project id and the empty id select the same rows.
    pub fn find_var(&self, key: &EnvKey, scope: Scope, project_id: Option<&str>, profile: &str) -> (r:
        Option<VarMetadata>)
        ensures
            r == find_row(self.vars_view(), scope, key@, opt_view(project_id), profile@),
    {
        proof {
            use_type_invariant(self);
        }
        let pid = opt_str(project_id);
        let mut i: usize = 0;
        while i < self.vars.len()
            invariant
                i <= self.vars@.len(),
                pid@ == opt_view(project_id),
                tables_wf(self.projects@, self.vars@),
                forall|j: int|
                    0 <= j < i ==> !var_matches(
                        #[trigger] self.vars@[j],
                        scope,
                        key@,
                        pid@,
                        profile@,
                    ),
            decreases self.vars@.len() - i,
        {
            if matches_row(&self.vars[i], scope, key.as_str(), pid, profile) {
                proof {
                    lemma_find_row_at(
                        self.projects@,
                        self.vars@,
                        scope,
                        key@,
                        pid@,
                        profile@,
                        i as int,
                    );
                }
                return Some(self.vars[i].clone());
            }
            i += 1;
        }
        None
    }

    /// The row a lookup of `key` sees from the active project: the project's
    /// row when there is one, otherwise the global row.
    pub fn find_visible_var(&self, key: &EnvKey, active_project_id: Option<&str>, profile: &str) -> (r:
        Option<VarMetadata>)
        ensures
            r == visible_row(self.vars_view(), key@, opt_seq(active_project_id), profile@),
    {
        proof {
            reveal_strlit("");
        }
        if let Some(project_id) = active_project_id {
            if let Some(metadata) = self.find_var(key, Scope::Project, Some(project_id), profile) {
                return Some(metadata);
            }
        }
        self.find_var(key, Scope::Global, None, profile)
    }

    /// The project registered exactly at `root_path`.
    pub fn get_project_by_root(&self, root_path: &str) -> (r: Option<ProjectRecord>)
        ensures
            r == project_at(self.projects_view(), root_path@),
    {
        proof {
            use_type_invariant(self);
        }
        let mut i: usize = 0;
        while i < self.projects.len()
            invariant
                i <= self.projects@.len(),
                tables_wf(self.projects@, self.vars@),
                forall|j: int| 0 <= j < i ==> (#[trigger] self.projects@[j]).root_path@ != root_path@,
            decreases self.projects@.len() - i,
        {
            if str_eq(self.projects[i].root_path.as_str(), root_path) {
                proof {
                    lemma_project_at(self.projects@, self.vars@, root_path@, i as int);
                }
                return Some(self.projects[i].clone());
            }
            i += 1;
        }
        None
    }

    /// The project registered at `cwd` or at its nearest ancestor; `cwd` is
    /// a canonical path.
    pub fn find_project_for_dir(&self, cwd: &str) -> (r: Option<ProjectRecord>)
        ensures
            r == project_in_ancestors(self.projects_view(), cwd@, cwd@.len() + 1),
    {
        let mut current: &str = cwd;
        let ghost mut fuel: nat = cwd@.len() + 1;
        loop
            invariant
                current@.len() < fuel,
                project_in_ancestors(self.projects_view(), cwd@, cwd@.len() + 1)
                    == project_in_ancestors(self.projects_view(), current@, fuel),
            decreases fuel,
        {
            if let Some(project) = self.get_project_by_root(current) {
                return Some(project);
            }
            match path_parent(current) {
                Some(parent) => {
                    current = parent;
                    proof {
                        fuel = (fuel - 1) as nat;
                    }
                },
                None => {
                    return None;
                },
            }
        }
    }
}

/// `rows` after writing `n`: the row with the same primary key is replaced,
/// or `n` is added.
pub open spec fn upserted(rows: Seq<VarMetadata>, n: VarMetadata) -> Seq<VarMetadata> {
    if exists|i: int| 0 <= i < rows.len() && row_key(#[trigger] rows[i]) == row_key(n) {
        let i = choose|i: int| 0 <= i < rows.len() && row_key(#[trigger] rows[i]) == row_key(n);
        rows.update(i, n)
    } else {
        rows.push(n)
    }
}

/// Looking up the primary key of a row just upserted into well-formed tables
/// finds that row.
pub proof fn law_upsert_then_find(projects: Seq<ProjectRecord>, rows: Seq<VarMetadata>, n: VarMetadata)
    requires
        tables_wf(projects, upserted(rows, n)),
    ensures
        find_row(upserted(rows, n), n.scope, n.key@, norm_pid(n.project_id), n.profile@) == Some(n),
{
    let after = upserted(rows, n);
    let w = if exists|i: int| 0 <= i < rows.len() && row_key(#[trigger] rows[i]) == row_key(n) {
        choose|i: int| 0 <= i < rows.len() && row_key(#[trigger] rows[i]) == row_key(n)
    } else {
        rows.len() as int
    };
    assert(0 <= w < after.len() && after[w] == n);
    assert(var_matches(after[w], n.scope, n.key@, norm_pid(n.project_id), n.profile@));
    let c = choose|i: int|
        0 <= i < after.len() && var_matches(#[trigger] after[i], n.scope, n.key@, norm_pid(n.project_id), n.profile@);
    assert(row_key(after[c]) == row_key(after[w]));
    if c < w {
        assert(row_key(after[c]) != row_key(after[w]));
    } else if w < c {
        assert(row_key(after[w]) != row_key(after[c]));
    }
}

/// The row a lookup sees is one that a listing from the same place sees, and
/// it has the key looked up.
pub proof fn lemma_visible_row_listed(
    rows: Seq<VarMetadata>,
    key: Seq<char>,
    active: Option<Seq<char>>,
    profile: Seq<char>,
)
    ensures
        visible_row(rows, key, active, profile) matches Some(m) ==> visible_listed(rows, m, active, profile)
            && m.key@ == key,
{
    if let Some(m) = visible_row(rows, key, active, profile) {
        match active {
            Some(pid) => {
                if let Some(r) = find_row(rows, Scope::Project, key, pid, profile) {
                    let i = choose|i: int|
                        0 <= i < rows.len() && var_matches(#[trigger] rows[i], Scope::Project, key, pid, profile);
                    assert(rows.contains(rows[i]));
                } else {
                    let i = choose|i: int|
                        0 <= i < rows.len() && var_matches(#[trigger] rows[i], Scope::Global, key, Seq::empty(), profile);
                    assert(rows.contains(rows[i]));
                    assert forall|f: VarMetadata|
                        listed(rows, f, Scope::Project, pid, profile) implies #[trigger] f.key@ != m.key@ by {
                        if f.key@ == m.key@ {
                            let k = choose|k: int| 0 <= k < rows.len() && rows[k] == f;
                            assert(var_matches(rows[k], Scope::Project, key, pid, profile));
                        }
                    }
                }
            },
            None => {
                let i = choose|i: int|
                    0 <= i < rows.len() && var_matches(#[trigger] rows[i], Scope::Global, key, Seq::empty(), profile);
                assert(rows.contains(rows[i]));
            },
        }
    }
}

/// Some project has id `id`.
pub open spec fn id_taken(projects: Seq<ProjectRecord>, id: Seq<char>) -> bool {
    exists|i: int| 0 <= i < projects.len() && (#[trigger] projects[i]).id@ == id
}

fn normalize_var(m: &VarMetadata) -> (r: VarMetadata)
    ensures
        r == normalized(*m),
{
    let empty = match &m.project_id {
        Some(p) => p.as_str().is_empty(),
        None => false,
    };
    if empty {
        VarMetadata {
            key: m.key.clone(),
            scope: m.scope,
            project_id: None,
            profile: m.profile.clone(),
            updated_at: m.updated_at,
            expires_at: m.expires_at,
        }
    } else {
        m.clone()
    }
}

impl MetadataStore {
    /// Writes a variable row, replacing the row with the same primary key.
    /// Shell-scope rows are refused.
    pub fn upsert_var(&mut self, metadata: &VarMetadata) -> (r: Result<(), EnvError>)
        ensures
            r is Err <==> metadata.scope == Scope::Shell,
            r matches Err(e) ==> e == EnvError::ShellNotStored,
            r is Err ==> final(self).vars_view() == old(self).vars_view(),
            r is Ok ==> final(self).vars_view() == upserted(old(self).vars_view(), normalized(*metadata)),
            final(self).projects_view() == old(self).projects_view(),
            final(self).db_path_view() == old(self).db_path_view(),
    {
        proof {
            use_type_invariant(&*self);
        }
        if metadata.scope == Scope::Shell {
            return Err(EnvError::ShellNotStored);
        }
        let n = normalize_var(metadata);
        let ghost rows = self.vars@;
        let mut i: usize = 0;
        while i < self.vars.len() && !same_row_key(&self.vars[i], &n)
            invariant
                i <= self.vars@.len(),
                self.vars@ == rows,
                tables_wf(self.projects@, rows),
                forall|j: int| 0 <= j < i ==> row_key(#[trigger] rows[j]) != row_key(n),
            decreases self.vars@.len() - i,
        {
            i += 1;
        }
        let mut vars = Vec::new();
        std::mem::swap(&mut vars, &mut self.vars);
        if i < vars.len() {
            proof {
                let c = choose|c: int| 0 <= c < rows.len() && row_key(#[trigger] rows[c]) == row_key(n);
                if c != i {
                    if c < i {
                        assert(row_key(rows[c]) != row_key(rows[i as int]));
                    } else {
                        assert(row_key(rows[i as int]) != row_key(rows[c]));
                    }
                }
            }
            vars.set(i, n);
        } else {
            vars.push(n);
        }
        proof {
            let nv = vars@;
            assert forall|a: int, b: int| 0 <= a < b < nv.len() implies row_key(#[trigger] nv[a])
                != row_key(#[trigger] nv[b]) by {
                if i < rows.len() {
                    if a != i && b != i {
                        assert(row_key(rows[a]) != row_key(rows[b]));
                    } else if a == i {
                        assert(row_key(rows[a]) != row_key(rows[b]));
                    } else {
                        assert(row_key(rows[a]) != row_key(rows[b]));
                    }
                } else {
                    if b == rows.len() {
                        assert(row_key(rows[a]) != row_key(n));
                    } else {
                        assert(row_key(rows[a]) != row_key(rows[b]));
                    }
                }
            }
            assert forall|a: int| 0 <= a < nv.len() implies row_normal(#[trigger] nv[a]) by {
                if a < rows.len() && a != i {
                    assert(nv[a] == rows[a]);
                }
            }
        }
        self.vars = vars;
        Ok(())
    }

    /// Registers the project rooted at the canonical path `root_path` unless
    /// a project with its root or its id is registered already, then returns
    /// the project registered at that root.
    pub fn register_project(&mut self, root_path: &str) -> (r: Result<ProjectRecord, EnvError>)
        ensures
            final(self).vars_view() == old(self).vars_view(),
            final(self).db_path_view() == old(self).db_path_view(),
            r matches Err(e) ==> final(self).projects_view() == old(self).projects_view() && (e
                == EnvError::ClockBeforeEpoch || (e == EnvError::ProjectIdTaken && project_at(
                old(self).projects_view(),
                root_path@,
            ) is None && id_taken(old(self).projects_view(), project_id_of(root_path@)))),
            r matches Ok(p) ==> (match project_at(old(self).projects_view(), root_path@) {
                Some(existing) => p == existing && final(self).projects_view() == old(
                    self,
                ).projects_view(),
                None => !id_taken(old(self).projects_view(), project_id_of(root_path@))
                    && p.root_path@ == root_path@ && p.id@ == project_id_of(root_path@)
                    && p.name@ == project_name_of(root_path@) && final(self).projects_view()
                    == old(self).projects_view().push(p),
            }),
            project_at(old(self).projects_view(), root_path@) is Some ==> r is Ok || r
                == Err::<ProjectRecord, EnvError>(EnvError::ClockBeforeEpoch),
            project_at(old(self).projects_view(), root_path@) is None && !id_taken(
                old(self).projects_view(),
                project_id_of(root_path@),
            ) ==> r is Ok || r == Err::<ProjectRecord, EnvError>(EnvError::ClockBeforeEpoch),
    {
        proof {
            use_type_invariant(&*self);
        }
        let created_at = current_timestamp()?;
        let project = ProjectRecord {
            id: project_id_for_path(root_path),
            name: default_project_name(root_path),
            root_path: owned(root_path),
            created_at,
        };
        let ghost ps = self.projects@;
        let mut i: usize = 0;
        while i < self.projects.len() && !(str_eq(self.projects[i].id.as_str(), project.id.as_str())
            || str_eq(self.projects[i].root_path.as_str(), root_path))
            invariant
                i <= self.projects@.len(),
                self.projects@ == ps,
                tables_wf(ps, self.vars@),
                forall|j: int|
                    0 <= j < i ==> (#[trigger] ps[j]).id@ != project.id@ && ps[j].root_path@
                        != root_path@,
            decreases self.projects@.len() - i,
        {
            i += 1;
        }
        if i == self.projects.len() {
            let mut projects = Vec::new();
            std::mem::swap(&mut projects, &mut self.projects);
            projects.push(project);
            proof {
                let np = projects@;
                assert forall|a: int, b: int| 0 <= a < b < np.len() implies (#[trigger] np[a]).id@
                    != (#[trigger] np[b]).id@ && np[a].root_path@ != np[b].root_path@ by {
                    if b == ps.len() {
                        assert(ps[a].id@ != project.id@);
                    } else {
                        assert(ps[a].id@ != ps[b].id@);
                    }
                }
                assert(!(exists|j: int| 0 <= j < ps.len() && (#[trigger] ps[j]).root_path@ == root_path@));
                assert(!id_taken(ps, project_id_of(root_path@)));
                lemma_project_at(projects@, self.vars@, root_path@, ps.len() as int);
            }
            self.projects = projects;
            Ok(self.projects[i].clone())
        } else {
            match self.get_project_by_root(root_path) {
                Some(p) => Ok(p),
                None => {
                    proof {
                        if ps[i as int].root_path@ == root_path@ {
                            lemma_project_at(ps, self.vars@, root_path@, i as int);
                        }
                        assert(ps[i as int].id@ == project_id_of(root_path@));
                    }
                    Err(EnvError::ProjectIdTaken)
                },
            }
        }
    }
}

/// `e` is one of the rows of `rows` listed for (`scope`, `pid`, `profile`).
pub open spec fn listed(rows: Seq<VarMetadata>, e: VarMetadata, scope: Scope, pid: Seq<char>, profile: Seq<char>) -> bool {
    rows.contains(e) && in_listing(e, scope, pid, profile)
}

/// `e` is a row a listing from the active project sees: one of the project's
/// rows, or a global row whose key no project row has.
pub open spec fn visible_listed(rows: Seq<VarMetadata>, e: VarMetadata, active: Option<Seq<char>>, profile: Seq<char>) -> bool {
    match active {
        Some(pid) => listed(rows, e, Scope::Project, pid, profile) || (listed(
            rows,
            e,
            Scope::Global,
            Seq::empty(),
            profile,
        ) && !(exists|f: VarMetadata|
            listed(rows, f, Scope::Project, pid, profile) && #[trigger] f.key@ == e.key@)),
        None => listed(rows, e, Scope::Global, Seq::empty(), profile),
    }
}

impl MetadataStore {
    /// The rows of one scope, project id and profile, in increasing key order.
    pub fn list_scope(&self, scope: Scope, project_id: Option<&str>, profile: &str) -> (r: Vec<
        VarMetadata,
    >)
        ensures
            strictly_sorted(r@),
            forall|e: VarMetadata|
                r@.contains(e) <==> listed(self.vars_view(), e, scope, opt_view(project_id), profile@),
    {
        proof {
            use_type_invariant(self);
        }
        let pid = opt_str(project_id);
        let ghost rows = self.vars@;
        let mut out: Vec<VarMetadata> = Vec::new();
        let mut i: usize = 0;
        while i < self.vars.len()
            invariant
                i <= rows.len(),
                rows == self.vars@,
                pid@ == opt_view(project_id),
                tables_wf(self.projects@, rows),
                strictly_sorted(out@),
                forall|e: VarMetadata|
                    out@.contains(e) <==> ((exists|j: int| 0 <= j < i && #[trigger] rows[j] == e)
                        && in_listing(e, scope, pid@, profile@)),
            decreases rows.len() - i,
        {
            let row = &self.vars[i];
            if row.scope == scope && str_eq(pid_str(&row.project_id), pid) && str_eq(
                row.profile.as_str(),
                profile,
            ) {
                let x = row.clone();
                let ghost before = out@;
                assert(x == rows[i as int]);
                assert(in_listing(x, scope, pid@, profile@));
                let ghost xg = x;
                upsert_sorted(&mut out, x);
                proof {
                    assert forall|e: VarMetadata|
                        out@.contains(e) <==> ((exists|j: int| 0 <= j < i + 1 && #[trigger] rows[j]
                            == e) && in_listing(e, scope, pid@, profile@)) by {
                        if out@.contains(e) {
                            if e == x {
                                assert(rows[i as int] == e);
                            } else {
                                assert(before.contains(e));
                                let j = choose|j: int| 0 <= j < i && #[trigger] rows[j] == e;
                                assert(0 <= j < i + 1 && rows[j] == e);
                            }
                        }
                        if (exists|j: int| 0 <= j < i + 1 && #[trigger] rows[j] == e) && in_listing(
                            e,
                            scope,
                            pid@,
                            profile@,
                        ) {
                            let j = choose|j: int| 0 <= j < i + 1 && #[trigger] rows[j] == e;
                            if j == i {
                                assert(e == x);
                            } else {
                                assert(0 <= j < i && rows[j] == e);
                                assert(before.contains(e));
                                assert(row_key(rows[j]) != row_key(rows[i as int]));
                                assert(e.key@ != x.key@);
                            }
                        }
                    }
                }
            } else {
                proof {
                    assert forall|e: VarMetadata|
                        out@.contains(e) <==> ((exists|j: int| 0 <= j < i + 1 && #[trigger] rows[j]
                            == e) && in_listing(e, scope, pid@, profile@)) by {
                        if (exists|j: int| 0 <= j < i + 1 && #[trigger] rows[j] == e) && in_listing(
                            e,
                            scope,
                            pid@,
                            profile@,
                        ) {
                            let j = choose|j: int| 0 <= j < i + 1 && #[trigger] rows[j] == e;
                            if j == i {
                                assert(false);
                            }
                        }
                    }
                }
            }
            i += 1;
        }
        proof {
            assert forall|e: VarMetadata|
                out@.contains(e) <==> listed(rows, e, scope, opt_view(project_id), profile@) by {
                if rows.contains(e) {
                    let j = choose|j: int| 0 <= j < rows.len() && rows[j] == e;
                    assert(rows[j] == e);
                }
            }
        }
        out
    }

    /// The rows a listing from the active project sees, in increasing key
    /// order: the global rows, with the project's rows taking the place of
    /// global rows that have the same key.
    pub fn list_visible_vars(&self, active_project_id: Option<&str>, profile: &str) -> (r: Vec<
        VarMetadata,
    >)
        ensures
            strictly_sorted(r@),
            forall|e: VarMetadata|
                r@.contains(e) <==> visible_listed(
                    self.vars_view(),
                    e,
                    opt_seq(active_project_id),
                    profile@,
                ),
    {
        let mut merged = self.list_scope(Scope::Global, None, profile);
        proof {
            reveal_strlit("");
        }
        let ghost globals = merged@;
        let ghost rows = self.vars_view();
        if let Some(project_id) = active_project_id {
            let project_rows = self.list_scope(Scope::Project, Some(project_id), profile);
            let mut k: usize = 0;
            while k < project_rows.len()
                invariant
                    k <= project_rows@.len(),
                    strictly_sorted(project_rows@),
                    strictly_sorted(merged@),
                    forall|e: VarMetadata|
                        #![trigger merged@.contains(e)]
                        merged@.contains(e) <==> ((exists|j: int| 0 <= j < k && #[trigger] project_rows@[j] == e)
                            || (globals.contains(e) && !(exists|j: int|
                            0 <= j < k && #[trigger] project_rows@[j].key@ == e.key@))),
                decreases project_rows@.len() - k,
            {
                let x = project_rows[k].clone();
                let ghost before = merged@;
                let ghost xg = x;
                let ghost kk = k as int;
                assert(xg == project_rows@[kk]);
                upsert_sorted(&mut merged, x);
                k += 1;
                proof {
                    assert forall|e: VarMetadata|
                        #![trigger merged@.contains(e)]
                        merged@.contains(e) <==> ((exists|j: int| 0 <= j < k && #[trigger] project_rows@[j] == e)
                            || (globals.contains(e) && !(exists|j: int|
                            0 <= j < k && #[trigger] project_rows@[j].key@ == e.key@))) by {
                        if merged@.contains(e) {
                            if e == xg {
                                assert(project_rows@[kk] == e);
                            } else {
                                assert(before.contains(e) && e.key@ != xg.key@);
                                if exists|j: int| 0 <= j < kk && #[trigger] project_rows@[j] == e {
                                    let j = choose|j: int| 0 <= j < kk && #[trigger] project_rows@[j] == e;
                                    assert(project_rows@[j] == e);
                                } else {
                                    assert(globals.contains(e));
                                    assert forall|j: int| 0 <= j < k implies #[trigger] project_rows@[j].key@ != e.key@ by {
                                        if j == kk {
                                            assert(project_rows@[j] == xg);
                                        }
                                    }
                                }
                            }
                        }
                        if exists|j: int| 0 <= j < k && #[trigger] project_rows@[j] == e {
                            let j = choose|j: int| 0 <= j < k && #[trigger] project_rows@[j] == e;
                            if j < kk {
                                assert(crate::order::lex_lt(project_rows@[j].key_view(), project_rows@[kk].key_view()));
                                crate::order::lemma_lex_irreflexive(e.key@);
                                assert(before.contains(e));
                                assert(e.key@ != xg.key@);
                            } else {
                                assert(e == xg);
                            }
                        }
                        if globals.contains(e) && !(exists|j: int| 0 <= j < k && #[trigger] project_rows@[j].key@ == e.key@) {
                            assert(project_rows@[kk].key@ != e.key@);
                            assert(!(exists|j: int| 0 <= j < kk && #[trigger] project_rows@[j].key@ == e.key@));
                            assert(before.contains(e));
                        }
                    }
                }
            }
            proof {
                assert forall|e: VarMetadata|
                    merged@.contains(e) <==> visible_listed(rows, e, opt_seq(active_project_id), profile@) by {
                    if exists|j: int| 0 <= j < project_rows@.len() && #[trigger] project_rows@[j] == e {
                        let j = choose|j: int| 0 <= j < project_rows@.len() && #[trigger] project_rows@[j] == e;
                        assert(project_rows@.contains(e));
                    }
                    if project_rows@.contains(e) {
                        let j = choose|j: int| 0 <= j < project_rows@.len() && project_rows@[j] == e;
                        assert(project_rows@[j] == e);
                    }
                    if exists|j: int| 0 <= j < project_rows@.len() && #[trigger] project_rows@[j].key@ == e.key@ {
                        let j = choose|j: int| 0 <= j < project_rows@.len() && #[trigger] project_rows@[j].key@ == e.key@;
                        assert(project_rows@.contains(project_rows@[j]));
                    }
                    if exists|f: VarMetadata| listed(rows, f, Scope::Project, project_id@, profile@) && #[trigger] f.key@ == e.key@ {
                        let f = choose|f: VarMetadata| listed(rows, f, Scope::Project, project_id@, profile@) && #[trigger] f.key@ == e.key@;
                        assert(project_rows@.contains(f));
                        let j = choose|j: int| 0 <= j < project_rows@.len() && project_rows@[j] == f;
                        assert(project_rows@[j].key@ == e.key@);
                    }
                }
            }
        }
        merged
    }
}

} // verus!
