//! The operations of the tool: projects, setting and reading secrets,
//! listing, resolving the environment of a child process, importing `.env`
//! files and the health report.

use vstd::prelude::*;

use crate::clock::current_timestamp;
use crate::crypto;
use crate::crypto::decrypt_outcome;
use crate::domain::{
    clone_opt_string, owned, push_range, var_locator, EnvKey, ProjectRecord, Scope, SecretLocator,
    VarMetadata,
};
use crate::error::EnvError;
use crate::metadata::{
    find_row, listed, normalized, opt_seq, project_in_ancestors, tables_wf, upserted, visible_listed,
    visible_row,
    MetadataStore,
};
use crate::order::{has_key, strictly_sorted, upsert_sorted, Keyed};
use crate::paths::AppPaths;
use crate::store::{item_key, SecretStore, StoreError};
use crate::dotenv::{dotenv_entries, entries_view};
use crate::text::{chars_of, push_str, string_from_utf8, trim, trim_range};

verus! {

broadcast use vstd::string::group_string_axioms;

/// How the user asked for a scope.
#[derive(Debug, Clone, Copy, PartialEq, Eq, Structural)]
pub enum DesiredScope {
    Auto,
    Global,
    Project,
}

/// A value together with where it was found.
#[derive(Debug)]
pub struct ResolvedSecret {
    pub key: EnvKey,
    pub value: String,
    pub scope: Scope,
    pub project_root: Option<String>,
    pub profile: String,
}

/// What an import did.
#[derive(Debug)]
pub struct ImportOutcome {
    pub imported: usize,
    pub deleted_source: bool,
    pub scope: Scope,
    pub project_root: Option<String>,
}

#[derive(Debug, Clone, Copy, PartialEq, Eq, Structural)]
pub enum CheckStatus {
    Pass,
    Warn,
    Fail,
}

/// One line of the health report.
#[derive(Debug)]
pub struct DoctorCheck {
    pub name: String,
    pub status: CheckStatus,
    pub message: String,
}

/// The health report.
#[derive(Debug)]
pub struct DoctorReport {
    pub data_dir: String,
    pub db_path: String,
    pub active_project: Option<String>,
    pub checks: Vec<DoctorCheck>,
}

/// A profile name as used: trimmed, and never empty.
pub open spec fn profile_of(p: Seq<char>) -> Result<Seq<char>, EnvError> {
    if trim(p).len() == 0 {
        Err(EnvError::EmptyProfile)
    } else {
        Ok(trim(p))
    }
}

pub fn normalize_profile(profile: &str) -> (r: Result<String, EnvError>)
    ensures
        r matches Ok(s) ==> profile_of(profile@) == Ok::<Seq<char>, EnvError>(s@),
        r matches Err(e) ==> profile_of(profile@) == Err::<Seq<char>, EnvError>(e),
{
    let v = chars_of(profile);
    let (a, b) = trim_range(&v, 0, v.len());
    assert(v@.subrange(0, v@.len() as int) =~= v@);
    if a == b {
        return Err(EnvError::EmptyProfile);
    }
    let mut s = String::new();
    push_range(&mut s, &v, a, b);
    assert(s@ =~= v@.subrange(a as int, b as int));
    Ok(s)
}

/// The scope a write goes to, and its project.
pub open spec fn scope_choice(desired: DesiredScope, project: Option<ProjectRecord>, cwd: Seq<char>) -> Result<
    (Scope, Option<ProjectRecord>),
    EnvError,
> {
    match desired {
        DesiredScope::Auto => match project {
            Some(p) => Ok((Scope::Project, Some(p))),
            None => Ok((Scope::Global, None)),
        },
        DesiredScope::Global => Ok((Scope::Global, None)),
        DesiredScope::Project => match project {
            Some(p) => Ok((Scope::Project, Some(p))),
            None => Err(EnvError::NoProject(crate::domain::arbitrary_string_of(cwd))),
        },
    }
}

pub open spec fn master_key_item() -> (Seq<char>, Seq<char>) {
    ("dev.easyenv.master"@, "master/aes256gcm/default"@)
}

/// The plaintext of the item at `item`, decrypted with the stored master key.
pub open spec fn stored_plaintext(secrets: Map<(Seq<char>, Seq<char>), Seq<u8>>, item: (Seq<char>, Seq<char>)) -> Option<Seq<u8>> {
    if secrets.contains_key(master_key_item()) && secrets[master_key_item()].len() == 32
        && secrets.contains_key(item) {
        match decrypt_outcome(secrets[master_key_item()], secrets[item]) {
            Ok(p) => Some(p),
            Err(_) => None,
        }
    } else {
        None
    }
}

/// The item key of the value of variable `m`, when it has one.
pub open spec fn var_item(m: VarMetadata) -> Option<(Seq<char>, Seq<char>)> {
    match var_locator(m) {
        Ok(l) => Some((l.0, l.1)),
        Err(_) => None,
    }
}

pub open spec fn root_of(p: Option<ProjectRecord>) -> Option<Seq<char>> {
    match p {
        Some(r) => Some(r.root_path@),
        None => None,
    }
}

pub open spec fn opt_string_view(p: Option<String>) -> Option<Seq<char>> {
    match p {
        Some(s) => Some(s@),
        None => None,
    }
}

pub open spec fn id_of(p: Option<ProjectRecord>) -> Option<String> {
    match p {
        Some(r) => Some(r.id),
        None => None,
    }
}

/// `value` can be masked: its UTF-8 length fits in memory, and beyond four
/// bytes its second byte and its last two bytes start characters.
pub open spec fn maskable(value: Seq<char>) -> bool {
    let b = vstd::utf8::encode_utf8(value);
    &&& b.len() <= usize::MAX
    &&& (b.len() <= 4 || (vstd::utf8::is_char_boundary(b, 2) && vstd::utf8::is_char_boundary(b, b.len() - 2)))
}

/// `****` for values of at most four bytes, otherwise the first two bytes,
/// `***` and the last two bytes.
pub open spec fn masked(value: Seq<char>) -> Seq<char> {
    let b = vstd::utf8::encode_utf8(value);
    if b.len() <= 4 {
        "****"@
    } else {
        vstd::utf8::decode_utf8(b.take(2)) + "***"@ + vstd::utf8::decode_utf8(b.skip(b.len() - 2))
    }
}

/// A masked value shows no more than the first two and last two bytes and
/// does not show the length: two values of at most four bytes, or two
/// longer values that agree on those bytes, mask alike.
pub proof fn law_mask_shows_only_ends(a: Seq<char>, b: Seq<char>)
    requires
        ({
            let x = vstd::utf8::encode_utf8(a);
            let y = vstd::utf8::encode_utf8(b);
            ||| (x.len() <= 4 && y.len() <= 4)
            ||| (x.len() > 4 && y.len() > 4 && x.take(2) == y.take(2) && x.skip(x.len() - 2) == y.skip(
                y.len() - 2,
            ))
        }),
    ensures
        masked(a) == masked(b),
{
}

/// Masks a value for display: `****` for values of at most four bytes,
/// otherwise the first two bytes, `***` and the last two bytes.
pub fn mask_value(value: &str) -> (r: String)
    requires
        maskable(value@),
    ensures
        r@ == masked(value@),
{
    let n = value.len();
    if n <= 4 {
        return owned("****");
    }
    let (prefix, _) = value.split_at(2);
    let (_, suffix) = value.split_at(n - 2);
    let mut r = String::new();
    push_str(&mut r, prefix);
    push_str(&mut r, "***");
    push_str(&mut r, suffix);
    proof {
        vstd::utf8::encode_utf8_decode_utf8(prefix@);
        vstd::utf8::encode_utf8_decode_utf8(suffix@);
        assert(vstd::utf8::encode_utf8(value@).subrange(0, 2) =~= vstd::utf8::encode_utf8(value@).take(2));
        assert(vstd::utf8::encode_utf8(value@).subrange(n - 2, vstd::utf8::encode_utf8(value@).len() as int) =~= vstd::utf8::encode_utf8(value@).skip(n - 2));
    }
    r
}

/// The tool's state: its paths, the metadata tables and the secret store.
pub struct EasyEnv<S> {
    pub paths: AppPaths,
    metadata: MetadataStore,
    store: S,
}

impl<S: SecretStore> EasyEnv<S> {
    pub closed spec fn metadata_view(&self) -> MetadataStore {
        self.metadata
    }

    pub closed spec fn paths_view(&self) -> AppPaths {
        self.paths
    }

    pub closed spec fn store_view(&self) -> S {
        self.store
    }

    pub open spec fn rows(&self) -> Seq<VarMetadata> {
        self.metadata_view().vars_view()
    }

    pub open spec fn projects(&self) -> Seq<ProjectRecord> {
        self.metadata_view().projects_view()
    }

    pub open spec fn secrets(&self) -> Map<(Seq<char>, Seq<char>), Seq<u8>> {
        self.store_view().secrets()
    }

    /// The project that contains the canonical directory `cwd`.
    pub open spec fn active_spec(&self, cwd: Seq<char>) -> Option<ProjectRecord> {
        project_in_ancestors(self.projects(), cwd, cwd.len() + 1)
    }

    /// A tool with the given paths and store, and metadata loaded from its database.
    pub fn new(paths: AppPaths, store: S, metadata: MetadataStore) -> (r: EasyEnv<S>)
        ensures
            r.paths_view() == paths,
            r.metadata_view() == metadata,
            r.store_view() == store,
    {
        EasyEnv { paths, metadata, store }
    }

    /// The metadata tables, to be saved.
    pub fn metadata(&self) -> (r: &MetadataStore)
        ensures
            *r == self.metadata_view(),
    {
        &self.metadata
    }

    /// The secret store.
    pub fn store(&self) -> (r: &S)
        ensures
            *r == self.store_view(),
    {
        &self.store
    }

    /// Registers the project rooted at the canonical path `cwd`.
    pub fn init_project(&mut self, cwd: &str) -> (r: Result<ProjectRecord, EnvError>)
        ensures
            final(self).paths_view() == old(self).paths_view(),
            final(self).store_view() == old(self).store_view(),
            final(self).rows() == old(self).rows(),
            r matches Ok(p) ==> p.root_path@ == cwd@,
            r is Ok ==> crate::metadata::project_at(final(self).projects(), cwd@) == Some(r->Ok_0),
            r matches Err(e) ==> final(self).projects() == old(self).projects() && (e
                == EnvError::ClockBeforeEpoch || (e == EnvError::ProjectIdTaken
                && crate::metadata::project_at(old(self).projects(), cwd@) is None
                && crate::metadata::id_taken(old(self).projects(), crate::domain::project_id_of(cwd@)))),
            r matches Ok(p) ==> (match crate::metadata::project_at(old(self).projects(), cwd@) {
                Some(existing) => p == existing && final(self).projects() == old(self).projects(),
                None => !crate::metadata::id_taken(old(self).projects(), crate::domain::project_id_of(cwd@))
                    && p.id@ == crate::domain::project_id_of(cwd@) && p.name@ == crate::domain::project_name_of(cwd@)
                    && final(self).projects() == old(self).projects().push(p),
            }),
            crate::metadata::project_at(old(self).projects(), cwd@) is Some
                || !crate::metadata::id_taken(old(self).projects(), crate::domain::project_id_of(cwd@))
                ==> r is Ok || r == Err::<ProjectRecord, EnvError>(EnvError::ClockBeforeEpoch),
            crate::metadata::register_outcome(old(self).projects(), cwd@, final(self).projects(), r),
    {
        let ghost old_projects = self.metadata.projects_view();
        let r = self.metadata.register_project(cwd);
        self.metadata.check_wf();
        proof {
            if r is Ok {
                if crate::metadata::project_at(old_projects, cwd@) is None {
                    crate::metadata::lemma_project_at(
                        self.metadata.projects_view(),
                        self.metadata.vars_view(),
                        cwd@,
                        old_projects.len() as int,
                    );
                }
            }
        }
        r
    }
}

/// `m` is the row a write of `key` with these settings makes.
pub open spec fn written_row(
    m: VarMetadata,
    key: Seq<char>,
    scope: Scope,
    project: Option<ProjectRecord>,
    profile: Seq<char>,
    expires_at: Option<i64>,
) -> bool {
    m.key@ == key && m.scope == scope && m.project_id == id_of(project) && m.profile@ == profile
        && m.expires_at == expires_at
}

/// The errors a write of `value` into a store holding `secrets` can end in
/// after its scope and profile are settled: the clock, the random source
/// and the store; a stored master key that is not 32 bytes; a value too
/// long to encrypt (over 2^36 bytes).
pub open spec fn write_fault(e: EnvError, secrets: Map<(Seq<char>, Seq<char>), Seq<u8>>, value: Seq<char>) -> bool {
    ||| e is ClockBeforeEpoch
    ||| e is KeyGenerationFailed
    ||| e is NonceGenerationFailed
    ||| e is Store
    ||| (e is StoredKeyLength && secrets.contains_key(master_key_item()) && secrets[master_key_item()].len()
        != 32)
    ||| (e is EncryptFailed && vstd::utf8::encode_utf8(value).len() > 0x1_0000_0000_0)
}

/// The errors a series of writes of the entries `es` into a store first
/// holding `secrets` can end in after scope and profile are settled: as for
/// one write, with a value too long to encrypt being one of the entries'.
pub open spec fn writes_fault(
    e: EnvError,
    secrets: Map<(Seq<char>, Seq<char>), Seq<u8>>,
    es: Seq<(Seq<char>, Seq<char>)>,
) -> bool {
    ||| e is ClockBeforeEpoch
    ||| e is KeyGenerationFailed
    ||| e is NonceGenerationFailed
    ||| e is Store
    ||| (e is StoredKeyLength && secrets.contains_key(master_key_item()) && secrets[master_key_item()].len()
        != 32)
    ||| (e is EncryptFailed && exists|k: int|
        0 <= k < es.len() && vstd::utf8::encode_utf8((#[trigger] es[k]).1).len() > 0x1_0000_0000_0)
}

/// The master key of `after` is that of `before` where there was one, and
/// a 32-byte one where there was none.
pub open spec fn master_kept(
    before: Map<(Seq<char>, Seq<char>), Seq<u8>>,
    after: Map<(Seq<char>, Seq<char>), Seq<u8>>,
) -> bool {
    &&& before.contains_key(master_key_item()) ==> after.contains_key(master_key_item())
        && after[master_key_item()] == before[master_key_item()]
    &&& !before.contains_key(master_key_item()) && after.contains_key(master_key_item())
        ==> after[master_key_item()].len() == 32
}

/// Writing an item other than the master key keeps the master key as
/// `master_kept` says.
pub proof fn lemma_master_kept_step(
    old_s: Map<(Seq<char>, Seq<char>), Seq<u8>>,
    before: Map<(Seq<char>, Seq<char>), Seq<u8>>,
    after: Map<(Seq<char>, Seq<char>), Seq<u8>>,
    item: (Seq<char>, Seq<char>),
)
    requires
        master_kept(old_s, before),
        item_written(before, after, item),
        item != master_key_item(),
    ensures
        master_kept(old_s, after),
{
    let (mid, blob) = choose|mid: Map<(Seq<char>, Seq<char>), Seq<u8>>, blob: Seq<u8>|
        #![trigger master_added_at_most(before, mid), mid.insert(item, blob)]
        master_added_at_most(before, mid) && after == mid.insert(item, blob);
    assert(after.contains_key(master_key_item()) == mid.contains_key(master_key_item()));
    if mid.contains_key(master_key_item()) {
        assert(after[master_key_item()] == mid[master_key_item()]);
    }
}

/// A failed write in a series is one of the series' faults.
pub proof fn lemma_write_fault_in_series(
    e: EnvError,
    old_s: Map<(Seq<char>, Seq<char>), Seq<u8>>,
    before: Map<(Seq<char>, Seq<char>), Seq<u8>>,
    es: Seq<(Seq<char>, Seq<char>)>,
    k: int,
)
    requires
        master_kept(old_s, before),
        0 <= k < es.len(),
        write_fault(e, before, es[k].1),
    ensures
        writes_fault(e, old_s, es),
{
}

fn store_fault(e: StoreError) -> (r: EnvError)
    ensures
        r == EnvError::Store(e),
{
    EnvError::Store(e)
}

impl<S: SecretStore> EasyEnv<S> {
    /// The project that contains the canonical directory `cwd`, if any.
    pub fn active_project(&self, cwd: &str) -> (r: Option<ProjectRecord>)
        ensures
            r == self.active_spec(cwd@),
    {
        self.metadata.find_project_for_dir(cwd)
    }

    fn resolve_scope(&self, cwd: &str, desired_scope: DesiredScope) -> (r: Result<
        (Scope, Option<ProjectRecord>),
        EnvError,
    >)
        ensures
            r matches Ok(c) ==> scope_choice(desired_scope, self.active_spec(cwd@), cwd@) == Ok::<_, EnvError>(c),
            r matches Err(e) ==> scope_choice(desired_scope, self.active_spec(cwd@), cwd@) is Err && e is NoProject && e->NoProject_0@ == cwd@,
    {
        let project = self.active_project(cwd);
        match desired_scope {
            DesiredScope::Auto => {
                if project.is_some() {
                    Ok((Scope::Project, project))
                } else {
                    Ok((Scope::Global, None))
                }
            },
            DesiredScope::Global => Ok((Scope::Global, None)),
            DesiredScope::Project => match project {
                Some(p) => Ok((Scope::Project, Some(p))),
                None => Err(EnvError::NoProject(owned(cwd))),
            },
        }
    }

    /// The master key: the stored one, or a new one that is stored first.
    fn ensure_master_key(&mut self) -> (r: Result<Vec<u8>, EnvError>)
        requires
            S::obeys_store_model(),
        ensures
            final(self).metadata_view() == old(self).metadata_view(),
            final(self).paths_view() == old(self).paths_view(),
            r matches Ok(k) ==> k@.len() == 32 && final(self).secrets().contains_key(master_key_item())
                && final(self).secrets()[master_key_item()] == k@,
            r is Ok ==> (old(self).secrets().contains_key(master_key_item()) && final(self).secrets()
                == old(self).secrets()) || (!old(self).secrets().contains_key(master_key_item())
                && final(self).secrets() == old(self).secrets().insert(master_key_item(), r->Ok_0@)),
            old(self).secrets().contains_key(master_key_item()) ==> final(self).secrets() == old(
                self,
            ).secrets(),
            old(self).secrets().contains_key(master_key_item()) && old(self).secrets()[master_key_item()].len() == 32
                ==> r is Ok || r->Err_0 is Store,
            r matches Err(e) ==> e is Store || e is KeyGenerationFailed || (e is StoredKeyLength && old(self).secrets().contains_key(master_key_item()) && old(self).secrets()[master_key_item()].len() != 32),
    {
        let locator = SecretLocator::master_key();
        proof {
            reveal_strlit("dev.easyenv.master");
            reveal_strlit("master/aes256gcm/default");
        }
        assert(item_key(locator) == master_key_item());
        match self.store.get(&locator) {
            Err(e) => {
                return Err(store_fault(e));
            },
            Ok(Some(existing)) => {
                if existing.len() != 32 {
                    return Err(EnvError::StoredKeyLength);
                }
                return Ok(existing);
            },
            Ok(None) => {},
        }
        let master_key = crypto::generate_key()?;
        match self.store.put(&locator, master_key.as_slice()) {
            Ok(()) => {},
            Err(e) => {
                return Err(store_fault(e));
            },
        }
        Ok(master_key)
    }
}

/// The store after writing the item `item`, with the master key added first
/// where it was missing.
pub open spec fn item_written(
    before: Map<(Seq<char>, Seq<char>), Seq<u8>>,
    after: Map<(Seq<char>, Seq<char>), Seq<u8>>,
    item: (Seq<char>, Seq<char>),
) -> bool {
    exists|mid: Map<(Seq<char>, Seq<char>), Seq<u8>>, blob: Seq<u8>|
        #![trigger master_added_at_most(before, mid), mid.insert(item, blob)]
        master_added_at_most(before, mid) && after == mid.insert(item, blob)
}

/// A write of one item leaves the plaintext of every other readable item as it was.
pub proof fn lemma_item_written_keeps(
    before: Map<(Seq<char>, Seq<char>), Seq<u8>>,
    after: Map<(Seq<char>, Seq<char>), Seq<u8>>,
    item: (Seq<char>, Seq<char>),
    other: (Seq<char>, Seq<char>),
)
    requires
        item_written(before, after, item),
        item != master_key_item(),
        other != item,
        stored_plaintext(before, other) is Some,
    ensures
        stored_plaintext(after, other) == stored_plaintext(before, other),
{
    let (mid, blob) = choose|mid: Map<(Seq<char>, Seq<char>), Seq<u8>>, blob: Seq<u8>|
        #![trigger master_added_at_most(before, mid), mid.insert(item, blob)]
        master_added_at_most(before, mid) && after == mid.insert(item, blob);
    assert(mid == before);
    assert(after[master_key_item()] == before[master_key_item()]);
    assert(after[other] == before[other]);
}

/// What a successful write of `value` under `key` did: the row `m` it made
/// is in the tables and its item decrypts to the value's bytes.
pub open spec fn write_took_effect(
    old_rows: Seq<VarMetadata>,
    new_rows: Seq<VarMetadata>,
    secrets: Map<(Seq<char>, Seq<char>), Seq<u8>>,
    m: VarMetadata,
    value: Seq<char>,
) -> bool {
    &&& new_rows == upserted(old_rows, normalized(m))
    &&& var_item(m) is Some
    &&& stored_plaintext(secrets, var_item(m)->Some_0) == Some(vstd::utf8::encode_utf8(value))
}

impl<S: SecretStore> EasyEnv<S> {
    /// Encrypts and stores `value` under `key` in the scope chosen from
    /// `desired_scope` and the project containing `cwd`, and records it.
    pub fn set_secret(
        &mut self,
        cwd: &str,
        desired_scope: DesiredScope,
        profile: &str,
        key: EnvKey,
        value: &str,
        expires_at: Option<i64>,
    ) -> (r: Result<ResolvedSecret, EnvError>)
        requires
            S::obeys_store_model(),
        ensures
            final(self).paths_view() == old(self).paths_view(),
            final(self).projects() == old(self).projects(),
            r is Err ==> final(self).rows() == old(self).rows(),
            r is Ok ==> tables_wf(final(self).projects(), final(self).rows()),
            r matches Ok(rs) ==> ({
                let choice = scope_choice(desired_scope, old(self).active_spec(cwd@), cwd@);
                &&& choice is Ok
                &&& profile_of(profile@) == Ok::<Seq<char>, EnvError>(rs.profile@)
                &&& rs.key@ == key@
                &&& rs.value@ == value@
                &&& rs.scope == choice->Ok_0.0
                &&& opt_string_view(rs.project_root) == root_of(choice->Ok_0.1)
                &&& exists|m: VarMetadata|
                    written_row(m, key@, rs.scope, choice->Ok_0.1, rs.profile@, expires_at)
                        && write_took_effect(old(self).rows(), final(self).rows(), final(self).secrets(), m, value@)
                        && item_written(old(self).secrets(), final(self).secrets(), var_item(m)->Some_0)
            }),
            r matches Err(e) ==> ({
                let choice = scope_choice(desired_scope, old(self).active_spec(cwd@), cwd@);
                ||| (choice is Err && e is NoProject && e->NoProject_0@ == cwd@
                    && final(self).secrets() == old(self).secrets())
                ||| (choice is Ok && profile_of(profile@) == Err::<Seq<char>, EnvError>(e)
                    && final(self).secrets() == old(self).secrets())
                ||| (choice is Ok && profile_of(profile@) is Ok && write_fault(e, old(self).secrets(), value@)
                    && (e is ClockBeforeEpoch ==> final(self).secrets() == old(self).secrets()))
            }),
    {
        let (scope, project) = self.resolve_scope(cwd, desired_scope)?;
        let profile_name = normalize_profile(profile)?;
        let updated_at = current_timestamp()?;
        let project_id = match &project {
            Some(p) => Some(p.id.clone()),
            None => None,
        };
        let metadata = VarMetadata {
            key: key.clone(),
            scope,
            project_id,
            profile: profile_name.clone(),
            updated_at,
            expires_at,
        };
        assert(scope != Scope::Shell);
        let locator = match SecretLocator::for_var(&metadata) {
            Ok(l) => l,
            Err(e) => {
                proof {
                    crate::text::lemma_trim_idempotent(profile@);
                    assert(trim(metadata.profile@).len() > 0);
                    if scope == Scope::Project {
                        assert(project is Some);
                        assert(metadata.project_id is Some);
                    }
                    assert(var_locator(metadata) is Ok);
                }
                return Err(e);
            },
        };
        let ghost item = item_key(locator);
        proof {
            crate::text::lemma_trim_idempotent(profile@);
            reveal_strlit("dev.easyenv.master");
            reveal_strlit("dev.easyenv.global");
            reveal_strlit("dev.easyenv.project");
            if scope == Scope::Global {
                assert(item.0 == "dev.easyenv.global"@);
                assert(item.0[12] != master_key_item().0[12]);
            } else {
                assert(item.0 == "dev.easyenv.project"@);
                assert(item.0[12] != master_key_item().0[12]);
            }
            assert(item.0 != master_key_item().0);
        }
        let ghost before_write = self.store.secrets();
        let master_key = self.ensure_master_key()?;
        let ghost mid = self.store.secrets();
        proof {
            if mid != before_write {
                assert(mid == before_write.insert(master_key_item(), master_key@));
            }
            assert(master_added_at_most(before_write, mid));
        }
        let encrypted = crypto::encrypt(master_key.as_slice(), value.as_bytes())?;
        match self.store.put(&locator, encrypted.as_slice()) {
            Ok(()) => {},
            Err(e) => {
                return Err(store_fault(e));
            },
        }
        let ghost old_rows = self.metadata.vars_view();
        match self.metadata.upsert_var(&metadata) {
            Ok(()) => {},
            Err(e) => {
                return Err(e);
            },
        }
        proof {
            assert(var_item(metadata) == Some(item));
            assert(self.store.secrets()[master_key_item()] == master_key@);
            assert(self.store.secrets()[item] == encrypted@);
            assert(written_row(metadata, key@, scope, project, profile_name@, expires_at));
            assert(write_took_effect(old_rows, self.metadata.vars_view(), self.store.secrets(), metadata, value@));
            assert(self.store.secrets() == mid.insert(item, encrypted@));
            assert(item_written(before_write, self.store.secrets(), item));
        }
        let project_root = match project {
            Some(p) => Some(p.root_path),
            None => None,
        };
        self.metadata.check_wf();
        let rs = ResolvedSecret { key, value: owned(value), scope, project_root, profile: profile_name };
        assert(profile_of(profile@) == Ok::<Seq<char>, EnvError>(rs.profile@));
        assert(rs.key@ == key@);
        assert(opt_string_view(rs.project_root) == root_of(project));
        assert(written_row(metadata, key@, rs.scope, project, rs.profile@, expires_at));
        Ok(rs)
    }
}

/// The secret store after reading with the master key in place: unchanged,
/// or with a new master key added where there was none.
pub open spec fn master_added_at_most(
    before: Map<(Seq<char>, Seq<char>), Seq<u8>>,
    after: Map<(Seq<char>, Seq<char>), Seq<u8>>,
) -> bool {
    after == before || (!before.contains_key(master_key_item()) && exists|k: Seq<u8>|
        k.len() == 32 && after == before.insert(master_key_item(), k))
}

/// What a successful read of the item for row `m` returned.
pub open spec fn read_value(
    secrets: Map<(Seq<char>, Seq<char>), Seq<u8>>,
    m: VarMetadata,
    value: Seq<char>,
) -> bool {
    &&& var_item(m) is Some
    &&& stored_plaintext(secrets, var_item(m)->Some_0) is Some
    &&& vstd::utf8::valid_utf8(stored_plaintext(secrets, var_item(m)->Some_0)->Some_0)
    &&& value == vstd::utf8::decode_utf8(stored_plaintext(secrets, var_item(m)->Some_0)->Some_0)
}

/// The value the item for row `m` holds, if it decrypts to valid UTF-8.
pub open spec fn readable(secrets: Map<(Seq<char>, Seq<char>), Seq<u8>>, m: VarMetadata) -> Option<Seq<char>> {
    match var_item(m) {
        Some(it) => match stored_plaintext(secrets, it) {
            Some(p) => if vstd::utf8::valid_utf8(p) {
                Some(vstd::utf8::decode_utf8(p))
            } else {
                None
            },
            None => None,
        },
        None => None,
    }
}

pub open spec fn pid_view(p: Option<ProjectRecord>) -> Option<Seq<char>> {
    match p {
        Some(r) => Some(r.id@),
        None => None,
    }
}

/// The root shown for a row: the active project's root when the row belongs to it.
pub open spec fn shown_root(m: VarMetadata, active: Option<ProjectRecord>) -> Option<Seq<char>> {
    match (m.project_id, active) {
        (Some(id), Some(p)) => if p.id@ == id@ {
            Some(p.root_path@)
        } else {
            None
        },
        _ => None,
    }
}

/// The errors a read can end in: an unusable profile or row, the store, the
/// master key, or a payload that does not open to text.
pub open spec fn read_fault(e: EnvError) -> bool {
    ||| e is EmptyProfile
    ||| e is MissingProjectId
    ||| e is ShellNotStored
    ||| e is Store
    ||| e is KeyGenerationFailed
    ||| e is StoredKeyLength
    ||| e is BadKeyLength
    ||| e is PayloadTruncated
    ||| e is PayloadBadHeader
    ||| e is PayloadBadVersion
    ||| e is DecryptFailed
    ||| e is NotUtf8
}

impl<S: SecretStore> EasyEnv<S> {
    fn load_secret_from_metadata(&mut self, metadata: VarMetadata, project_root: Option<String>) -> (r:
        Result<Option<ResolvedSecret>, EnvError>)
        requires
            S::obeys_store_model(),
        ensures
            final(self).metadata_view() == old(self).metadata_view(),
            final(self).paths_view() == old(self).paths_view(),
            r is Ok ==> master_added_at_most(old(self).secrets(), final(self).secrets()),
            r matches Err(e) ==> read_fault(e),
            r matches Ok(Some(rs)) ==> rs.key == metadata.key && rs.scope == metadata.scope
                && rs.profile == metadata.profile && rs.project_root == project_root
                && read_value(final(self).secrets(), metadata, rs.value@)
                && old(self).secrets().contains_key(var_item(metadata)->Some_0),
            r is Ok && r->Ok_0 is None ==> var_item(metadata) is Some && !old(self).secrets().contains_key(
                var_item(metadata)->Some_0,
            ),
            var_item(metadata) is Some && readable(old(self).secrets(), metadata) is Some ==> (r
                matches Ok(Some(rs)) && rs.value@ == readable(old(self).secrets(), metadata)->Some_0)
                || r->Err_0 is Store,
            var_item(metadata) is Some && !old(self).secrets().contains_key(var_item(metadata)->Some_0)
                ==> r matches Ok(None) || r->Err_0 is Store,
    {
        let ghost old_secrets = self.store.secrets();
        let locator = SecretLocator::for_var(&metadata)?;
        let ghost item = item_key(locator);
        proof {
            reveal_strlit("dev.easyenv.master");
            reveal_strlit("dev.easyenv.global");
            reveal_strlit("dev.easyenv.project");
            if metadata.scope == Scope::Global {
                assert(item.0[12] != master_key_item().0[12]);
            } else {
                assert(item.0[12] != master_key_item().0[12]);
            }
        }
        let encrypted = match self.store.get(&locator) {
            Ok(Some(e)) => e,
            Ok(None) => {
                return Ok(None);
            },
            Err(e) => {
                return Err(store_fault(e));
            },
        };
        let master_key = self.ensure_master_key()?;
        proof {
            if !old_secrets.contains_key(master_key_item()) {
                assert(self.store.secrets() == old_secrets.insert(master_key_item(), master_key@));
            }
        }
        let decrypted = crypto::decrypt(master_key.as_slice(), encrypted.as_slice())?;
        let value = match string_from_utf8(decrypted) {
            Some(v) => v,
            None => {
                return Err(EnvError::NotUtf8);
            },
        };
        Ok(Some(ResolvedSecret {
            key: metadata.key,
            value,
            scope: metadata.scope,
            project_root,
            profile: metadata.profile,
        }))
    }
}

fn root_for(metadata: &VarMetadata, active_project: &Option<ProjectRecord>) -> (r: Option<String>)
    ensures
        opt_string_view(r) == shown_root(*metadata, *active_project),
{
    match (&metadata.project_id, active_project) {
        (Some(id), Some(p)) => {
            if crate::metadata::str_eq(p.id.as_str(), id.as_str()) {
                Some(p.root_path.clone())
            } else {
                None
            }
        },
        _ => None,
    }
}

fn project_id_of_record(p: &Option<ProjectRecord>) -> (r: Option<&str>)
    ensures
        opt_seq(r) == pid_view(*p),
{
    match p {
        Some(p) => Some(p.id.as_str()),
        None => None,
    }
}

impl<S: SecretStore> EasyEnv<S> {
    /// Reads `key` as seen from the canonical directory `cwd`: the active
    /// project's value if it has one, otherwise the global value.
    pub fn get_secret(&mut self, cwd: &str, key: &EnvKey, profile: &str) -> (r: Result<
        Option<ResolvedSecret>,
        EnvError,
    >)
        requires
            S::obeys_store_model(),
        ensures
            final(self).metadata_view() == old(self).metadata_view(),
            final(self).paths_view() == old(self).paths_view(),
            r is Ok ==> master_added_at_most(old(self).secrets(), final(self).secrets()),
            r matches Err(e) ==> read_fault(e),
            profile_of(profile@) is Err ==> r == Err::<Option<ResolvedSecret>, EnvError>(
                profile_of(profile@)->Err_0,
            ),
            profile_of(profile@) matches Ok(p) ==> ({
                let active = old(self).active_spec(cwd@);
                let row = visible_row(old(self).rows(), key@, pid_view(active), p);
                &&& (row is None ==> r matches Ok(None))
                &&& (r matches Ok(Some(rs)) ==> (row matches Some(m) && rs.key == m.key
                    && rs.scope == m.scope && rs.profile == m.profile && opt_string_view(
                    rs.project_root,
                ) == shown_root(m, active) && read_value(final(self).secrets(), m, rs.value@)))
                &&& (r matches Ok(None) ==> (row is None || (var_item(row->Some_0) is Some
                    && !old(self).secrets().contains_key(var_item(row->Some_0)->Some_0))))
                &&& ((row is Some && readable(old(self).secrets(), row->Some_0) is Some) ==> ((r
                    matches Ok(Some(rs)) && rs.value@ == readable(old(self).secrets(), row->Some_0)->Some_0)
                    || r->Err_0 is Store))
                &&& ((row is Some && var_item(row->Some_0) is Some && !old(self).secrets().contains_key(
                    var_item(row->Some_0)->Some_0,
                )) ==> (r matches Ok(None) || r->Err_0 is Store))
                &&& read_back(old(self).rows(), active, p, old(self).secrets(), key@, r)
            }),
    {
        let profile_name = normalize_profile(profile)?;
        let project = self.active_project(cwd);
        let metadata = self.metadata.find_visible_var(
            key,
            project_id_of_record(&project),
            profile_name.as_str(),
        );
        match metadata {
            Some(metadata) => {
                let project_root = root_for(&metadata, &project);
                self.load_secret_from_metadata(metadata, project_root)
            },
            None => Ok(None),
        }
    }
}

impl Keyed for ResolvedSecret {
    open spec fn key_view(&self) -> Seq<char> {
        self.key@
    }

    fn key_str(&self) -> (r: &str) {
        self.key.as_str()
    }
}

/// `m` is one of the rows a listing with `filter` sees from the active project.
pub open spec fn listed_for(
    rows: Seq<VarMetadata>,
    m: VarMetadata,
    active: Option<Seq<char>>,
    filter: Option<Scope>,
    profile: Seq<char>,
) -> bool {
    match filter {
        Some(Scope::Global) => listed(rows, m, Scope::Global, Seq::empty(), profile),
        Some(Scope::Project) => match active {
            Some(pid) => listed(rows, m, Scope::Project, pid, profile),
            None => false,
        },
        Some(Scope::Shell) => false,
        None => visible_listed(rows, m, active, profile),
    }
}

/// `rs` is what reading row `m` gave.
pub open spec fn read_from(
    rs: ResolvedSecret,
    m: VarMetadata,
    active: Option<ProjectRecord>,
    secrets: Map<(Seq<char>, Seq<char>), Seq<u8>>,
) -> bool {
    rs.key == m.key && rs.scope == m.scope && rs.profile == m.profile && opt_string_view(
        rs.project_root,
    ) == shown_root(m, active) && read_value(secrets, m, rs.value@)
}

/// Each of `v` is what reading one of the listed rows gave.
pub open spec fn each_read_from_listed(
    v: Seq<ResolvedSecret>,
    rows: Seq<VarMetadata>,
    active: Option<ProjectRecord>,
    filter: Option<Scope>,
    profile: Seq<char>,
    secrets: Map<(Seq<char>, Seq<char>), Seq<u8>>,
) -> bool {
    forall|i: int|
        0 <= i < v.len() ==> read_from_listed(#[trigger] v[i], rows, active, filter, profile, secrets)
}

/// Every listed row whose item the store holds has an entry in `v`.
pub open spec fn lists_every_stored(
    v: Seq<ResolvedSecret>,
    rows: Seq<VarMetadata>,
    active: Option<ProjectRecord>,
    filter: Option<Scope>,
    profile: Seq<char>,
    secrets: Map<(Seq<char>, Seq<char>), Seq<u8>>,
) -> bool {
    forall|m: VarMetadata|
        #[trigger] listed_for(rows, m, pid_view(active), filter, profile) && var_item(m) is Some
            && secrets.contains_key(var_item(m)->Some_0) ==> has_key(v, m.key@)
}

/// `rs` is what reading one of the listed rows gave.
pub open spec fn read_from_listed(
    rs: ResolvedSecret,
    rows: Seq<VarMetadata>,
    active: Option<ProjectRecord>,
    filter: Option<Scope>,
    profile: Seq<char>,
    secrets: Map<(Seq<char>, Seq<char>), Seq<u8>>,
) -> bool {
    exists|m: VarMetadata|
        listed_for(rows, m, pid_view(active), filter, profile) && read_from(rs, m, active, secrets)
}

/// The store either lacks the item of row `m` or holds it readable: the
/// master key decrypts it to text.
pub open spec fn item_ok(m: VarMetadata, secrets: Map<(Seq<char>, Seq<char>), Seq<u8>>) -> bool {
    var_item(m) is Some && (secrets.contains_key(var_item(m)->Some_0) ==> readable(secrets, m) is Some)
}

/// Every row listed with `filter` has an item the store lacks or holds readable.
pub open spec fn all_listed_ok(
    rows: Seq<VarMetadata>,
    active: Option<Seq<char>>,
    filter: Option<Scope>,
    profile: Seq<char>,
    secrets: Map<(Seq<char>, Seq<char>), Seq<u8>>,
) -> bool {
    forall|m: VarMetadata| #[trigger] listed_for(rows, m, active, filter, profile) ==> item_ok(m, secrets)
}

/// Adding a master key where there was none keeps an item fine.
pub proof fn lemma_item_ok_kept(
    before: Map<(Seq<char>, Seq<char>), Seq<u8>>,
    after: Map<(Seq<char>, Seq<char>), Seq<u8>>,
    m: VarMetadata,
)
    requires
        master_added_at_most(before, after),
        item_ok(m, before),
    ensures
        item_ok(m, after),
        after.contains_key(var_item(m)->Some_0) ==> readable(after, m) == readable(before, m),
{
    lemma_var_item_not_master(m);
    let it = var_item(m)->Some_0;
    lemma_master_added_keeps_items(before, after, it);
    if after != before && before.contains_key(it) {
        assert(stored_plaintext(before, it) is None);
    }
}

/// No row is listed with `filter` from the active project: a `Shell`
/// filter, a `Project` filter outside any project, or no matching row.
pub open spec fn nothing_listed(
    rows: Seq<VarMetadata>,
    active: Option<Seq<char>>,
    filter: Option<Scope>,
    profile: Seq<char>,
) -> bool {
    forall|m: VarMetadata| !#[trigger] listed_for(rows, m, active, filter, profile)
}

impl<S: SecretStore> EasyEnv<S> {
    /// The values of the listed rows, in increasing key order; rows whose
    /// item is missing from the store are left out.
    pub fn list_secrets(&mut self, cwd: &str, scope_filter: Option<Scope>, profile: &str) -> (r:
        Result<Vec<ResolvedSecret>, EnvError>)
        requires
            S::obeys_store_model(),
        ensures
            final(self).metadata_view() == old(self).metadata_view(),
            final(self).paths_view() == old(self).paths_view(),
            r is Ok ==> master_added_at_most(old(self).secrets(), final(self).secrets()),
            r matches Err(e) ==> read_fault(e),
            profile_of(profile@) is Err ==> r == Err::<Vec<ResolvedSecret>, EnvError>(
                profile_of(profile@)->Err_0,
            ),
            r matches Ok(v) ==> ({
                let active = old(self).active_spec(cwd@);
                let p = profile_of(profile@)->Ok_0;
                &&& profile_of(profile@) is Ok
                &&& strictly_sorted(v@)
                &&& each_read_from_listed(v@, old(self).rows(), active, scope_filter, p, final(self).secrets())
                &&& lists_every_stored(v@, old(self).rows(), active, scope_filter, p, old(self).secrets())
            }),
            profile_of(profile@) is Ok && nothing_listed(
                old(self).rows(),
                pid_view(old(self).active_spec(cwd@)),
                scope_filter,
                profile_of(profile@)->Ok_0,
            ) ==> (r matches Ok(v) && v@.len() == 0 && final(self).secrets() == old(self).secrets()),
            profile_of(profile@) is Ok && all_listed_ok(
                old(self).rows(),
                pid_view(old(self).active_spec(cwd@)),
                scope_filter,
                profile_of(profile@)->Ok_0,
                old(self).secrets(),
            ) ==> (r is Ok || r->Err_0 is Store),
    {
        let profile_name = normalize_profile(profile)?;
        let project = self.active_project(cwd);
        let ghost active = project;
        let ghost rows = self.metadata.vars_view();
        let ghost old_secrets = self.store.secrets();
        let ghost p = profile_name@;
        proof {
            reveal_strlit("");
        }
        let items: Vec<VarMetadata> = match scope_filter {
            Some(Scope::Global) => self.metadata.list_scope(Scope::Global, None, profile_name.as_str()),
            Some(Scope::Project) => match &project {
                Some(pr) => self.metadata.list_scope(
                    Scope::Project,
                    Some(pr.id.as_str()),
                    profile_name.as_str(),
                ),
                None => Vec::new(),
            },
            Some(Scope::Shell) => Vec::new(),
            None => self.metadata.list_visible_vars(
                project_id_of_record(&project),
                profile_name.as_str(),
            ),
        };
        assert(strictly_sorted(items@));
        assert(forall|m: VarMetadata|
            items@.contains(m) <==> listed_for(rows, m, pid_view(active), scope_filter, p));
        proof {
            if all_listed_ok(rows, pid_view(active), scope_filter, p, old_secrets) {
                assert forall|j: int| 0 <= j < items@.len() implies item_ok(#[trigger] items@[j], old_secrets) by {
                    assert(items@.contains(items@[j]));
                    assert(listed_for(rows, items@[j], pid_view(active), scope_filter, p));
                }
            }
            if nothing_listed(rows, pid_view(active), scope_filter, p) && items@.len() > 0 {
                assert(items@.contains(items@[0]));
                assert(listed_for(rows, items@[0], pid_view(active), scope_filter, p));
            }
        }
        let mut resolved: Vec<ResolvedSecret> = Vec::new();
        let ghost mut idx: Seq<int> = Seq::empty();
        let mut i: usize = 0;
        while i < items.len()
            invariant
                S::obeys_store_model(),
                i <= items@.len(),
                rows == self.metadata.vars_view(),
                rows == old(self).rows(),
                profile_of(profile@) == Ok::<Seq<char>, EnvError>(p),
                self.metadata_view() == old(self).metadata_view(),
                self.paths_view() == old(self).paths_view(),
                strictly_sorted(items@),
                master_added_at_most(old_secrets, self.store.secrets()),
                old_secrets == old(self).secrets(),
                active == old(self).active_spec(cwd@),
                project == active,
                nothing_listed(rows, pid_view(active), scope_filter, p) ==> items@.len() == 0,
                all_listed_ok(rows, pid_view(active), scope_filter, p, old_secrets) ==> forall|j: int|
                    0 <= j < items@.len() ==> item_ok(#[trigger] items@[j], old_secrets),
                items@.len() == 0 ==> self.store.secrets() == old_secrets,
                idx.len() == resolved@.len(),
                forall|a: int, b: int| 0 <= a < b < idx.len() ==> idx[a] < idx[b],
                forall|k: int| 0 <= k < idx.len() ==> 0 <= #[trigger] idx[k] < i,
                forall|k: int|
                    0 <= k < resolved@.len() ==> read_from(
                        #[trigger] resolved@[k],
                        items@[idx[k]],
                        active,
                        self.store.secrets(),
                    ),
                forall|j: int|
                    0 <= j < i && var_item(#[trigger] items@[j]) is Some && old_secrets.contains_key(
                        var_item(items@[j])->Some_0,
                    ) ==> exists|k: int| 0 <= k < idx.len() && idx[k] == j,
            decreases items@.len() - i,
        {
            let metadata = items[i].clone();
            let project_root = root_for(&metadata, &project);
            let ghost before = resolved@;
            let ghost secrets_before = self.store.secrets();
            let ghost m = items@[i as int];
            proof {
                if all_listed_ok(rows, pid_view(active), scope_filter, p, old_secrets) {
                    assert(item_ok(items@[i as int], old_secrets));
                    lemma_item_ok_kept(old_secrets, secrets_before, m);
                }
            }
            let loaded = match self.load_secret_from_metadata(metadata, project_root) {
                Ok(l) => l,
                Err(e) => {
                    return Err(e);
                },
            };
            proof {
                lemma_master_added_trans(old_secrets, secrets_before, self.store.secrets());
                if before.len() > 0 {
                    assert(read_from(before[0], items@[idx[0]], active, secrets_before));
                    assert(secrets_before.contains_key(master_key_item()));
                    assert(self.store.secrets() == secrets_before);
                }
                lemma_var_item_not_master(m);
                if var_item(m) is Some {
                    lemma_master_added_keeps_items(old_secrets, secrets_before, var_item(m)->Some_0);
                }
            }
            match loaded {
                Some(secret) => {
                    resolved.push(secret);
                    proof {
                        let prev_idx = idx;
                        idx = idx.push(i as int);
                        assert forall|k: int| 0 <= k < resolved@.len() implies read_from(
                            #[trigger] resolved@[k],
                            items@[idx[k]],
                            active,
                            self.store.secrets(),
                        ) by {
                            if k < before.len() {
                                assert(resolved@[k] == before[k]);
                            }
                        }
                        assert forall|j: int|
                            0 <= j < i + 1 && var_item(#[trigger] items@[j]) is Some && old_secrets.contains_key(
                                var_item(items@[j])->Some_0,
                            ) implies exists|k: int| 0 <= k < idx.len() && idx[k] == j by {
                            if j == i {
                                assert(idx[idx.len() - 1] == j);
                            } else {
                                let k = choose|k: int| 0 <= k < prev_idx.len() && prev_idx[k] == j;
                                assert(idx[k] == prev_idx[k]);
                            }
                        }
                    }
                },
                None => {
                    proof {
                        assert forall|j: int|
                            0 <= j < i + 1 && var_item(#[trigger] items@[j]) is Some && old_secrets.contains_key(
                                var_item(items@[j])->Some_0,
                            ) implies exists|k: int| 0 <= k < idx.len() && idx[k] == j by {
                            if j == i {
                                assert(false);
                            }
                        }
                    }
                },
            }
            i += 1;
        }
        proof {
            lemma_listing_read(
                items@,
                idx,
                resolved@,
                rows,
                active,
                scope_filter,
                p,
                self.secrets(),
                old_secrets,
            );
            if items@.len() == 0 && resolved@.len() > 0 {
                assert(0 <= idx[0] < i);
            }
        }
        Ok(resolved)
    }
}

/// The value the last override for key `k` gives, if any override names it.
pub open spec fn last_override(ov: Seq<(EnvKey, String)>, k: Seq<char>) -> Option<Seq<char>>
    decreases ov.len(),
{
    if ov.len() == 0 {
        None
    } else if ov.last().0@ == k {
        Some(ov.last().1@)
    } else {
        last_override(ov.drop_last(), k)
    }
}

/// An entry of the resolved environment: a shell entry carrying the last
/// override for its key, or a stored value that no override names.
pub open spec fn env_entry(
    e: ResolvedSecret,
    ov: Seq<(EnvKey, String)>,
    raw_profile: Seq<char>,
    rows: Seq<VarMetadata>,
    active: Option<ProjectRecord>,
    profile: Seq<char>,
    secrets: Map<(Seq<char>, Seq<char>), Seq<u8>>,
) -> bool {
    match last_override(ov, e.key@) {
        Some(val) => e.scope == Scope::Shell && e.value@ == val && e.project_root is None
            && e.profile@ == raw_profile,
        None => read_from_listed(e, rows, active, None, profile, secrets),
    }
}

/// An upsert keeps every key that was there.
pub proof fn lemma_has_key_kept(old_v: Seq<ResolvedSecret>, new_v: Seq<ResolvedSecret>, x: ResolvedSecret, k: Seq<char>)
    requires
        has_key(old_v, k),
        new_v.contains(x),
        forall|e: ResolvedSecret|
            #![trigger new_v.contains(e)]
            #![trigger old_v.contains(e)]
            new_v.contains(e) <==> (e == x || (old_v.contains(e) && e.key_view() != x.key_view())),
    ensures
        has_key(new_v, k),
{
    let i = choose|i: int| 0 <= i < old_v.len() && #[trigger] old_v[i].key_view() == k;
    let e = old_v[i];
    assert(old_v.contains(e));
    if e.key_view() != x.key_view() {
        assert(new_v.contains(e));
        let j = choose|j: int| 0 <= j < new_v.len() && new_v[j] == e;
        assert(new_v[j].key_view() == k);
    } else {
        let j = choose|j: int| 0 <= j < new_v.len() && new_v[j] == x;
        assert(new_v[j].key_view() == k);
    }
}

impl<S: SecretStore> EasyEnv<S> {
    /// The environment for the canonical directory `cwd`: the listed values,
    /// with each shell override taking the place of a stored value of its key
    /// (a later override of a key over an earlier one), in increasing key order.
    pub fn resolve_environment(
        &mut self,
        cwd: &str,
        profile: &str,
        shell_overrides: &[(EnvKey, String)],
    ) -> (r: Result<Vec<ResolvedSecret>, EnvError>)
        requires
            S::obeys_store_model(),
        ensures
            final(self).metadata_view() == old(self).metadata_view(),
            final(self).paths_view() == old(self).paths_view(),
            r is Ok ==> master_added_at_most(old(self).secrets(), final(self).secrets()),
            r matches Err(e) ==> read_fault(e),
            profile_of(profile@) is Err ==> r == Err::<Vec<ResolvedSecret>, EnvError>(
                profile_of(profile@)->Err_0,
            ),
            r matches Ok(v) ==> ({
                let active = old(self).active_spec(cwd@);
                let p = profile_of(profile@)->Ok_0;
                &&& profile_of(profile@) is Ok
                &&& strictly_sorted(v@)
                &&& forall|i: int|
                    0 <= i < v@.len() ==> env_entry(
                        #[trigger] v@[i],
                        shell_overrides@,
                        profile@,
                        old(self).rows(),
                        active,
                        p,
                        final(self).secrets(),
                    )
                &&& forall|j: int|
                    0 <= j < shell_overrides@.len() ==> has_key(v@, (#[trigger] shell_overrides@[j]).0@)
                &&& lists_every_stored(v@, old(self).rows(), active, None, p, old(self).secrets())
            }),
            profile_of(profile@) is Ok && nothing_listed(
                old(self).rows(),
                pid_view(old(self).active_spec(cwd@)),
                None,
                profile_of(profile@)->Ok_0,
            ) ==> (r is Ok && final(self).secrets() == old(self).secrets()),
            profile_of(profile@) is Ok && all_listed_ok(
                old(self).rows(),
                pid_view(old(self).active_spec(cwd@)),
                None,
                profile_of(profile@)->Ok_0,
                old(self).secrets(),
            ) ==> (r is Ok || r->Err_0 is Store),
    {
        let mut merged = self.list_secrets(cwd, None, profile)?;
        let ghost active = old(self).active_spec(cwd@);
        let ghost p = profile_of(profile@)->Ok_0;
        let ghost rows = old(self).rows();
        let ghost secrets = self.secrets();
        let ghost ov = shell_overrides@;
        proof {
            assert forall|e: ResolvedSecret| merged@.contains(e) implies env_entry(
                e,
                ov.take(0),
                profile@,
                rows,
                active,
                p,
                secrets,
            ) by {
                let i = choose|i: int| 0 <= i < merged@.len() && merged@[i] == e;
                assert(read_from_listed(merged@[i], rows, active, None, p, secrets));
            }
        }
        let mut j: usize = 0;
        while j < shell_overrides.len()
            invariant
                j <= ov.len(),
                ov == shell_overrides@,
                self.metadata_view() == old(self).metadata_view(),
                self.paths_view() == old(self).paths_view(),
                self.secrets() == secrets,
                strictly_sorted(merged@),
                forall|e: ResolvedSecret|
                    merged@.contains(e) ==> env_entry(e, ov.take(j as int), profile@, rows, active, p, secrets),
                forall|k: int| 0 <= k < j ==> has_key(merged@, (#[trigger] ov[k]).0@),
                lists_every_stored(merged@, rows, active, None, p, old(self).secrets()),
            decreases ov.len() - j,
        {
            let entry = ResolvedSecret {
                key: shell_overrides[j].0.clone(),
                value: shell_overrides[j].1.clone(),
                scope: Scope::Shell,
                project_root: None,
                profile: owned(profile),
            };
            let ghost before = merged@;
            upsert_sorted(&mut merged, entry);
            proof {
                let x = entry;
                assert(ov.take(j + 1) =~= ov.take(j as int).push(ov[j as int]));
                assert(merged@.contains(x));
                assert forall|e: ResolvedSecret| merged@.contains(e) implies env_entry(
                    e,
                    ov.take(j + 1),
                    profile@,
                    rows,
                    active,
                    p,
                    secrets,
                ) by {
                    assert(ov.take(j + 1).drop_last() =~= ov.take(j as int));
                    if e != x {
                        assert(before.contains(e));
                    }
                }
                assert forall|k: int| 0 <= k < j + 1 implies has_key(merged@, (#[trigger] ov[k]).0@) by {
                    if k < j {
                        lemma_has_key_kept(before, merged@, x, ov[k].0@);
                    } else {
                        let t = choose|t: int| 0 <= t < merged@.len() && merged@[t] == x;
                        assert(merged@[t].key_view() == ov[k].0@);
                    }
                }
                assert forall|m: VarMetadata|
                    #[trigger] listed_for(rows, m, pid_view(active), None, p) && var_item(m) is Some
                        && old(self).secrets().contains_key(var_item(m)->Some_0) implies has_key(
                    merged@,
                    m.key@,
                ) by {
                    lemma_has_key_kept(before, merged@, x, m.key@);
                }
            }
            j += 1;
        }
        proof {
            assert(ov.take(ov.len() as int) =~= ov);
            assert forall|i: int| 0 <= i < merged@.len() implies env_entry(
                #[trigger] merged@[i],
                ov,
                profile@,
                rows,
                active,
                p,
                secrets,
            ) by {
                assert(merged@.contains(merged@[i]));
            }
        }
        Ok(merged)
    }
}

/// The rows after writing each of `ms` in turn.
pub open spec fn upserted_all(rows: Seq<VarMetadata>, ms: Seq<VarMetadata>) -> Seq<VarMetadata>
    decreases ms.len(),
{
    if ms.len() == 0 {
        rows
    } else {
        upserted(upserted_all(rows, ms.drop_last()), normalized(ms.last()))
    }
}

/// No entry of `es` after position `k` has the key of entry `k`.
pub open spec fn last_of_key(es: Seq<(Seq<char>, Seq<char>)>, k: int) -> bool {
    forall|l: int| k < l < es.len() ==> (#[trigger] es[l]).0 != es[k].0
}

/// What importing the entries `es` wrote: row `ms[k]` for entry `k`, the rows
/// upserted in order, and the item of each key's last entry holding its value.
pub open spec fn import_took_effect(
    es: Seq<(Seq<char>, Seq<char>)>,
    ms: Seq<VarMetadata>,
    scope: Scope,
    project: Option<ProjectRecord>,
    profile: Seq<char>,
    old_rows: Seq<VarMetadata>,
    new_rows: Seq<VarMetadata>,
    secrets: Map<(Seq<char>, Seq<char>), Seq<u8>>,
) -> bool {
    &&& ms.len() == es.len()
    &&& new_rows == upserted_all(old_rows, ms)
    &&& forall|k: int|
        0 <= k < ms.len() ==> written_row(#[trigger] ms[k], es[k].0, scope, project, profile, None)
            && var_item(ms[k]) is Some
    &&& forall|k: int|
        0 <= k < ms.len() && last_of_key(es, k) ==> stored_plaintext(
            secrets,
            var_item(#[trigger] ms[k])->Some_0,
        ) == Some(vstd::utf8::encode_utf8(es[k].1))
}

/// Importing the entries `es` wrote one row per entry, as `import_took_effect` says.
pub open spec fn import_wrote(
    es: Seq<(Seq<char>, Seq<char>)>,
    scope: Scope,
    project: Option<ProjectRecord>,
    profile: Seq<char>,
    old_rows: Seq<VarMetadata>,
    new_rows: Seq<VarMetadata>,
    secrets: Map<(Seq<char>, Seq<char>), Seq<u8>>,
) -> bool {
    exists|ms: Seq<VarMetadata>|
        import_took_effect(es, ms, scope, project, profile, old_rows, new_rows, secrets)
}

/// Rows written in the same scope, project and profile share an item only
/// when they share the key.
pub proof fn lemma_var_item_key(m1: VarMetadata, m2: VarMetadata)
    requires
        var_item(m1) is Some,
        var_item(m2) is Some,
        m1.scope == m2.scope,
        m1.project_id == m2.project_id,
        m1.profile@ == m2.profile@,
        var_item(m1) == var_item(m2),
    ensures
        m1.key@ == m2.key@,
{
    let p = trim(m1.profile@);
    let a1 = var_item(m1)->Some_0.1;
    if m1.scope == Scope::Global {
        let pre = "global/"@ + p + "/"@;
        assert(a1 == pre + m1.key@);
        assert(a1 == pre + m2.key@);
        assert((pre + m1.key@).skip(pre.len() as int) =~= m1.key@);
        assert((pre + m2.key@).skip(pre.len() as int) =~= m2.key@);
    } else {
        let id = m1.project_id->Some_0;
        let pre = "project/"@ + id@ + "/"@ + p + "/"@;
        assert(a1 == pre + m1.key@);
        assert(a1 == pre + m2.key@);
        assert((pre + m1.key@).skip(pre.len() as int) =~= m1.key@);
        assert((pre + m2.key@).skip(pre.len() as int) =~= m2.key@);
    }
}

/// One more write extends what importing the first `j` entries did to the
/// first `j + 1`.
pub proof fn lemma_import_step(
    es: Seq<(Seq<char>, Seq<char>)>,
    j: int,
    prev: Seq<VarMetadata>,
    m: VarMetadata,
    scope: Scope,
    project: Option<ProjectRecord>,
    profile: Seq<char>,
    old_rows: Seq<VarMetadata>,
    before_rows: Seq<VarMetadata>,
    rows: Seq<VarMetadata>,
    before_secrets: Map<(Seq<char>, Seq<char>), Seq<u8>>,
    secrets: Map<(Seq<char>, Seq<char>), Seq<u8>>,
)
    requires
        0 <= j < es.len(),
        import_took_effect(es.take(j), prev, scope, project, profile, old_rows, before_rows, before_secrets),
        written_row(m, es[j].0, scope, project, profile, None),
        write_took_effect(before_rows, rows, secrets, m, es[j].1),
        item_written(before_secrets, secrets, var_item(m)->Some_0),
    ensures
        import_took_effect(es.take(j + 1), prev.push(m), scope, project, profile, old_rows, rows, secrets),
{
    let ms = prev.push(m);
    lemma_var_item_not_master(m);
    let ej = es.take(j + 1);
    assert(ej.drop_last() =~= es.take(j));
    assert(ms.drop_last() =~= prev);
    assert forall|k: int| 0 <= k < ms.len() && last_of_key(ej, k) implies stored_plaintext(
        secrets,
        var_item(#[trigger] ms[k])->Some_0,
    ) == Some(vstd::utf8::encode_utf8(ej[k].1)) by {
        if k < prev.len() {
            assert(ms[k] == prev[k]);
            assert(last_of_key(es.take(j), k)) by {
                assert forall|l: int| k < l < es.take(j).len() implies (#[trigger] es.take(j)[l]).0 != es.take(
                    j,
                )[k].0 by {
                    assert(ej[l] == es.take(j)[l]);
                }
            }
            assert(ej[j].0 != ej[k].0);
            if var_item(prev[k]) == var_item(m) {
                lemma_var_item_key(prev[k], m);
            }
            lemma_item_written_keeps(before_secrets, secrets, var_item(m)->Some_0, var_item(prev[k])->Some_0);
        }
    }
}

impl<S: SecretStore> EasyEnv<S> {
    /// Stores every entry of the dotenv text `contents` in the scope chosen
    /// from `desired_scope` and the project containing `cwd`. The caller
    /// removes the source file where `delete_source` asks for it.
    pub fn import_dotenv(
        &mut self,
        cwd: &str,
        contents: &str,
        desired_scope: DesiredScope,
        profile: &str,
        delete_source: bool,
    ) -> (r: Result<ImportOutcome, EnvError>)
        requires
            S::obeys_store_model(),
            contents@.len() < usize::MAX,
        ensures
            final(self).paths_view() == old(self).paths_view(),
            final(self).projects() == old(self).projects(),
            dotenv_entries(contents@, 1) matches Err(e) ==> r == Err::<ImportOutcome, EnvError>(e),
            dotenv_entries(contents@, 1) is Ok && scope_choice(
                desired_scope,
                old(self).active_spec(cwd@),
                cwd@,
            ) is Err ==> (r matches Err(e) && e is NoProject && e->NoProject_0@ == cwd@),
            r matches Ok(out) ==> ({
                let es = dotenv_entries(contents@, 1)->Ok_0;
                let c = scope_choice(desired_scope, old(self).active_spec(cwd@), cwd@)->Ok_0;
                &&& dotenv_entries(contents@, 1) is Ok
                &&& scope_choice(desired_scope, old(self).active_spec(cwd@), cwd@) is Ok
                &&& out.imported == es.len()
                &&& out.deleted_source == delete_source
                &&& out.scope == c.0
                &&& opt_string_view(out.project_root) == root_of(c.1)
                &&& (es.len() > 0 ==> profile_of(profile@) is Ok)
                &&& import_wrote(
                    es,
                    c.0,
                    c.1,
                    profile_of(profile@)->Ok_0,
                    old(self).rows(),
                    final(self).rows(),
                    final(self).secrets(),
                )
            }),
            r matches Err(e) ==> ({
                ||| dotenv_entries(contents@, 1) == Err::<Seq<(Seq<char>, Seq<char>)>, EnvError>(e)
                ||| (e is NoProject && e->NoProject_0@ == cwd@)
                ||| profile_of(profile@) == Err::<Seq<char>, EnvError>(e)
                ||| writes_fault(e, old(self).secrets(), dotenv_entries(contents@, 1)->Ok_0)
            }),
    {
        let entries = match crate::dotenv::parse_dotenv(contents) {
            Ok(v) => v,
            Err(e) => {
                return Err(e);
            },
        };
        let (scope, project) = self.resolve_scope(cwd, desired_scope)?;
        let project_root = match &project {
            Some(p) => Some(p.root_path.clone()),
            None => None,
        };
        let ghost es = entries_view(entries@);
        let ghost c = (scope, project);
        let ghost active = old(self).active_spec(cwd@);
        let ghost p = profile_of(profile@)->Ok_0;
        let ghost mut ms: Seq<VarMetadata> = Seq::empty();
        let mut j: usize = 0;
        while j < entries.len()
            invariant
                S::obeys_store_model(),
                j <= entries@.len(),
                es == entries_view(entries@),
                es.len() == entries@.len(),
                dotenv_entries(contents@, 1) == Ok::<Seq<(Seq<char>, Seq<char>)>, EnvError>(es),
                p == profile_of(profile@)->Ok_0,
                c == (scope, project),
                scope_choice(desired_scope, active, cwd@) == Ok::<_, EnvError>(c),
                active == old(self).active_spec(cwd@),
                self.paths_view() == old(self).paths_view(),
                self.projects() == old(self).projects(),
                j > 0 ==> profile_of(profile@) == Ok::<Seq<char>, EnvError>(p),
                import_took_effect(
                    es.take(j as int),
                    ms,
                    scope,
                    project,
                    p,
                    old(self).rows(),
                    self.rows(),
                    self.secrets(),
                ),
                master_kept(old(self).secrets(), self.secrets()),
            decreases entries@.len() - j,
        {
            let ghost before_rows = self.rows();
            let ghost before_secrets = self.secrets();
            let ghost prev = ms;
            let key = entries[j].0.clone();
            let rs = match self.set_secret(cwd, desired_scope, profile, key, entries[j].1.as_str(), None) {
                Ok(rs) => rs,
                Err(e) => {
                    proof {
                        assert(es[j as int] == (entries@[j as int].0@, entries@[j as int].1@));
                        if write_fault(e, before_secrets, entries@[j as int].1@) {
                            lemma_write_fault_in_series(e, old(self).secrets(), before_secrets, es, j as int);
                        }
                    }
                    return Err(e);
                },
            };
            proof {
                let m = choose|m: VarMetadata|
                    written_row(m, es[j as int].0, rs.scope, project, rs.profile@, None)
                        && write_took_effect(before_rows, self.rows(), self.secrets(), m, entries@[j as int].1@)
                        && item_written(before_secrets, self.secrets(), var_item(m)->Some_0);
                assert(es[j as int] == (entries@[j as int].0@, entries@[j as int].1@));
                lemma_import_step(
                    es,
                    j as int,
                    prev,
                    m,
                    scope,
                    project,
                    p,
                    old(self).rows(),
                    before_rows,
                    self.rows(),
                    before_secrets,
                    self.secrets(),
                );
                lemma_var_item_not_master(m);
                lemma_master_kept_step(old(self).secrets(), before_secrets, self.secrets(), var_item(m)->Some_0);
                ms = prev.push(m);
            }
            j += 1;
        }
        proof {
            assert(es.take(es.len() as int) =~= es);
            assert(import_took_effect(es, ms, scope, project, p, old(self).rows(), self.rows(), self.secrets()));
            assert(import_wrote(es, scope, project, p, old(self).rows(), self.rows(), self.secrets()));
        }
        Ok(ImportOutcome { imported: entries.len(), deleted_source: delete_source, scope, project_root })
    }
}

/// `after` is `before` less one item of the doctor's probe service.
pub open spec fn probe_item_removed(
    before: Map<(Seq<char>, Seq<char>), Seq<u8>>,
    after: Map<(Seq<char>, Seq<char>), Seq<u8>>,
) -> bool {
    exists|account: Seq<char>|
        after == before.remove(("dev.easyenv.doctor"@, #[trigger] crate::store::probe_account(account)))
}

/// A check as name, status and message.
pub open spec fn check_view(c: DoctorCheck) -> (Seq<char>, CheckStatus, Seq<char>) {
    (c.name@, c.status, c.message@)
}

/// The note on synchronised keychain items that every report carries.
pub open spec fn icloud_note() -> Seq<char> {
    "MVP stores secrets in the OS keychain; synchronizable iCloud attributes are not yet verified by doctor"@
}

/// The checks of a report, given the data directory, the database path, the
/// active project and how the store's round trip went.
pub open spec fn doctor_checks(
    data_dir: Seq<char>,
    db_path: Seq<char>,
    active: Option<ProjectRecord>,
    probe: Result<(), StoreError>,
) -> Seq<(Seq<char>, CheckStatus, Seq<char>)> {
    seq![
        ("paths"@, CheckStatus::Pass, "using "@ + data_dir),
        ("sqlite"@, CheckStatus::Pass, "metadata database ready at "@ + db_path),
        match probe {
            Ok(_) => ("secret_store"@, CheckStatus::Pass, "secret store roundtrip succeeded"@),
            Err(e) => ("secret_store"@, CheckStatus::Fail, e.message@),
        },
        match active {
            Some(p) => ("project"@, CheckStatus::Pass, "active project: "@ + p.root_path@),
            None => ("project"@, CheckStatus::Warn, "no registered project for current directory"@),
        },
        ("icloud"@, CheckStatus::Warn, icloud_note()),
    ]
}

fn make_check(name: &str, status: CheckStatus, prefix: &str, rest: &str) -> (c: DoctorCheck)
    ensures
        check_view(c) == (name@, status, prefix@ + rest@),
{
    let mut message = owned(prefix);
    push_str(&mut message, rest);
    DoctorCheck { name: owned(name), status, message }
}

/// The health report for the given paths, database, active project and
/// outcome of the store's round trip.
pub fn doctor_report(
    paths: &AppPaths,
    db_path: &str,
    active: Option<ProjectRecord>,
    probe: Result<(), StoreError>,
) -> (r: DoctorReport)
    ensures
        r.data_dir@ == paths.data_dir@,
        r.db_path@ == paths.db_path@,
        opt_string_view(r.active_project) == root_of(active),
        r.checks@.map_values(|c: DoctorCheck| check_view(c)) == doctor_checks(
            paths.data_dir@,
            db_path@,
            active,
            probe,
        ),
{
    let ghost active_g = active;
    let ghost probe_g = probe;
    let mut checks: Vec<DoctorCheck> = Vec::new();
    checks.push(make_check("paths", CheckStatus::Pass, "using ", paths.data_dir.as_str()));
    checks.push(make_check("sqlite", CheckStatus::Pass, "metadata database ready at ", db_path));
    match probe {
        Ok(()) => checks.push(make_check("secret_store", CheckStatus::Pass, "secret store roundtrip succeeded", "")),
        Err(e) => checks.push(make_check("secret_store", CheckStatus::Fail, "", e.message.as_str())),
    }
    let active_project = match active {
        Some(p) => {
            checks.push(make_check("project", CheckStatus::Pass, "active project: ", p.root_path.as_str()));
            Some(p.root_path)
        },
        None => {
            checks.push(make_check("project", CheckStatus::Warn, "no registered project for current directory", ""));
            None
        },
    };
    checks.push(
        make_check(
            "icloud",
            CheckStatus::Warn,
            "MVP stores secrets in the OS keychain; synchronizable iCloud attributes are not yet verified by doctor",
            "",
        ),
    );
    proof {
        reveal_strlit("");
        assert(checks@.map_values(|c: DoctorCheck| check_view(c)) =~= doctor_checks(
            paths.data_dir@,
            db_path@,
            active_g,
            probe_g,
        ));
    }
    DoctorReport {
        data_dir: paths.data_dir.clone(),
        db_path: paths.db_path.clone(),
        active_project,
        checks,
    }
}

impl<S: SecretStore> EasyEnv<S> {
    /// The health report for the canonical directory `cwd`, after a round
    /// trip through the secret store. The caller has made sure the data
    /// directory and the database exist.
    pub fn doctor(&mut self, cwd: &str) -> (r: DoctorReport)
        requires
            S::obeys_store_model(),
        ensures
            final(self).metadata_view() == old(self).metadata_view(),
            final(self).paths_view() == old(self).paths_view(),
            r.data_dir@ == old(self).paths_view().data_dir@,
            r.db_path@ == old(self).paths_view().db_path@,
            opt_string_view(r.active_project) == root_of(old(self).active_spec(cwd@)),
            exists|probe: Result<(), StoreError>|
                r.checks@.map_values(|c: DoctorCheck| check_view(c)) == doctor_checks(
                    old(self).paths_view().data_dir@,
                    old(self).metadata_view().db_path_view(),
                    old(self).active_spec(cwd@),
                    probe,
                ) && (probe is Ok ==> probe_item_removed(old(self).secrets(), final(self).secrets())),
    {
        let probe = self.store.probe();
        let ghost probe_g = probe;
        let active = self.active_project(cwd);
        let r = doctor_report(&self.paths, self.metadata.db_path(), active, probe);
        assert(r.checks@.map_values(|c: DoctorCheck| check_view(c)) == doctor_checks(
            self.paths.data_dir@,
            self.metadata.db_path_view(),
            old(self).active_spec(cwd@),
            probe_g,
        ));
        r
    }
}

/// What a read of key `k` gives where its visible row is readable: that
/// row's value, key, scope and profile, unless the store fails.
pub open spec fn read_back(
    rows: Seq<VarMetadata>,
    active: Option<ProjectRecord>,
    p: Seq<char>,
    secrets: Map<(Seq<char>, Seq<char>), Seq<u8>>,
    k: Seq<char>,
    r: Result<Option<ResolvedSecret>, EnvError>,
) -> bool {
    let row = visible_row(rows, k, pid_view(active), p);
    (row is Some && readable(secrets, row->Some_0) is Some) ==> ((r matches Ok(Some(rs)) && rs.value@
        == readable(secrets, row->Some_0)->Some_0 && rs.key == row->Some_0.key && rs.scope == row->Some_0.scope
        && rs.profile == row->Some_0.profile) || r->Err_0 is Store)
}

/// A read after a write gives the written value back: where `set_secret`
/// wrote row `m` holding `value` and nothing was written since, a
/// `get_secret` of its key with its profile, from the project it went to (or,
/// for a global write, from a place where no project row of that key shadows
/// it), returns the value with the row's key, scope and profile, unless the
/// store fails.
pub proof fn law_get_after_set(
    projects: Seq<ProjectRecord>,
    old_rows: Seq<VarMetadata>,
    new_rows: Seq<VarMetadata>,
    secrets: Map<(Seq<char>, Seq<char>), Seq<u8>>,
    m: VarMetadata,
    value: Seq<char>,
    active: Option<ProjectRecord>,
    r: Result<Option<ResolvedSecret>, EnvError>,
)
    requires
        tables_wf(projects, new_rows),
        write_took_effect(old_rows, new_rows, secrets, m, value),
        m.scope == Scope::Project ==> (m.project_id matches Some(id) && id@.len() > 0 && pid_view(active)
            == Some(id@)),
        m.scope == Scope::Global ==> m.project_id is None && (active is None || find_row(
            new_rows,
            Scope::Project,
            m.key@,
            pid_view(active)->Some_0,
            m.profile@,
        ) is None),
        read_back(new_rows, active, m.profile@, secrets, m.key@, r),
    ensures
        (r matches Ok(Some(rs)) && rs.value@ == value && rs.key == m.key && rs.scope == m.scope && rs.profile
            == m.profile) || r->Err_0 is Store,
{
    law_read_after_write(projects, old_rows, new_rows, secrets, m, value, pid_view(active));
}

/// Reading a key back from where it was just written gives the written value:
/// a lookup from the project a project-scope write went to, or from a place
/// where no project row of that key shadows a global write, sees the new row,
/// and its item decrypts to the value.
pub proof fn law_read_after_write(
    projects: Seq<ProjectRecord>,
    old_rows: Seq<VarMetadata>,
    new_rows: Seq<VarMetadata>,
    secrets: Map<(Seq<char>, Seq<char>), Seq<u8>>,
    m: VarMetadata,
    value: Seq<char>,
    active: Option<Seq<char>>,
)
    requires
        tables_wf(projects, new_rows),
        write_took_effect(old_rows, new_rows, secrets, m, value),
        m.scope == Scope::Project ==> (m.project_id matches Some(id) && id@.len() > 0 && active == Some(id@)),
        m.scope == Scope::Global ==> m.project_id is None && (active is None || find_row(
            new_rows,
            Scope::Project,
            m.key@,
            active->Some_0,
            m.profile@,
        ) is None),
    ensures
        visible_row(new_rows, m.key@, active, m.profile@) == Some(m),
        readable(secrets, m) == Some(value),
{
    assert(normalized(m) == m);
    crate::metadata::law_upsert_then_find(projects, old_rows, m);
    vstd::utf8::encode_utf8_valid_utf8(value);
    vstd::utf8::encode_utf8_decode_utf8(value);
}

/// A value read from the store reads the same once the master key may have
/// been added, since reading it needed the master key already.
pub proof fn lemma_read_kept(
    rs: ResolvedSecret,
    rows: Seq<VarMetadata>,
    active: Option<ProjectRecord>,
    filter: Option<Scope>,
    profile: Seq<char>,
    s1: Map<(Seq<char>, Seq<char>), Seq<u8>>,
    s2: Map<(Seq<char>, Seq<char>), Seq<u8>>,
)
    requires
        read_from_listed(rs, rows, active, filter, profile, s1),
        master_added_at_most(s1, s2),
    ensures
        read_from_listed(rs, rows, active, filter, profile, s2),
{
    let m = choose|m: VarMetadata|
        listed_for(rows, m, pid_view(active), filter, profile) && read_from(rs, m, active, s1);
    assert(s1.contains_key(master_key_item()));
    assert(s2 == s1);
}

/// What the listing loop leaves behind: `resolved` reads the rows of `items`
/// at the increasing positions `idx`, and skips only rows whose item is absent.
proof fn lemma_listing_read(
    items: Seq<VarMetadata>,
    idx: Seq<int>,
    resolved: Seq<ResolvedSecret>,
    rows: Seq<VarMetadata>,
    active: Option<ProjectRecord>,
    filter: Option<Scope>,
    p: Seq<char>,
    secrets: Map<(Seq<char>, Seq<char>), Seq<u8>>,
    old_secrets: Map<(Seq<char>, Seq<char>), Seq<u8>>,
)
    requires
        strictly_sorted(items),
        forall|m: VarMetadata| items.contains(m) <==> listed_for(rows, m, pid_view(active), filter, p),
        idx.len() == resolved.len(),
        forall|a: int, b: int| 0 <= a < b < idx.len() ==> idx[a] < idx[b],
        forall|k: int| 0 <= k < idx.len() ==> 0 <= #[trigger] idx[k] < items.len(),
        forall|k: int|
            0 <= k < resolved.len() ==> read_from(#[trigger] resolved[k], items[idx[k]], active, secrets),
        forall|j: int|
            0 <= j < items.len() && var_item(#[trigger] items[j]) is Some && old_secrets.contains_key(
                var_item(items[j])->Some_0,
            ) ==> exists|k: int| 0 <= k < idx.len() && idx[k] == j,
    ensures
        strictly_sorted(resolved),
        each_read_from_listed(resolved, rows, active, filter, p, secrets),
        lists_every_stored(resolved, rows, active, filter, p, old_secrets),
{
    assert forall|a: int, b: int| 0 <= a < b < resolved.len() implies crate::order::lex_lt(
        #[trigger] resolved[a].key_view(),
        #[trigger] resolved[b].key_view(),
    ) by {
        assert(read_from(resolved[a], items[idx[a]], active, secrets));
        assert(read_from(resolved[b], items[idx[b]], active, secrets));
        assert(crate::order::lex_lt(items[idx[a]].key_view(), items[idx[b]].key_view()));
    }
    assert forall|k: int| 0 <= k < resolved.len() implies read_from_listed(
        #[trigger] resolved[k],
        rows,
        active,
        filter,
        p,
        secrets,
    ) by {
        let m = items[idx[k]];
        assert(items.contains(m));
        assert(read_from(resolved[k], m, active, secrets));
    }
    assert forall|m: VarMetadata|
        #[trigger] listed_for(rows, m, pid_view(active), filter, p) && var_item(m) is Some
            && old_secrets.contains_key(var_item(m)->Some_0) implies has_key(resolved, m.key@) by {
        assert(items.contains(m));
        let j = choose|j: int| 0 <= j < items.len() && items[j] == m;
        assert(var_item(items[j]) is Some);
        let k = choose|k: int| 0 <= k < idx.len() && idx[k] == j;
        assert(read_from(resolved[k], items[idx[k]], active, secrets));
        assert(resolved[k].key_view() == m.key@);
    }
}

pub proof fn lemma_master_added_trans(
    a: Map<(Seq<char>, Seq<char>), Seq<u8>>,
    b: Map<(Seq<char>, Seq<char>), Seq<u8>>,
    c: Map<(Seq<char>, Seq<char>), Seq<u8>>,
)
    requires
        master_added_at_most(a, b),
        master_added_at_most(b, c),
    ensures
        master_added_at_most(a, c),
{
    if b != a {
        let k = choose|k: Seq<u8>| k.len() == 32 && b == a.insert(master_key_item(), k);
        assert(b.contains_key(master_key_item()));
        if c != b {
            assert(false);
        }
    }
}

pub proof fn lemma_master_added_keeps_items(
    a: Map<(Seq<char>, Seq<char>), Seq<u8>>,
    b: Map<(Seq<char>, Seq<char>), Seq<u8>>,
    item: (Seq<char>, Seq<char>),
)
    requires
        master_added_at_most(a, b),
        item != master_key_item(),
    ensures
        a.contains_key(item) == b.contains_key(item),
        a.contains_key(item) ==> a[item] == b[item],
{
}

/// The item of a variable's value is never the master key's item.
pub proof fn lemma_var_item_not_master(m: VarMetadata)
    ensures
        var_item(m) matches Some(it) ==> it != master_key_item(),
{
    reveal_strlit("dev.easyenv.master");
    reveal_strlit("dev.easyenv.global");
    reveal_strlit("dev.easyenv.project");
    if var_item(m) is Some {
        let it = var_item(m)->Some_0;
        assert(it.0[12] != master_key_item().0[12]);
    }
}

} // verus!
