//! Secret stores: the choice between the operating system's credential store
//! and a directory of files, where the file store keeps each item, and the
//! rules the macOS keychain follows for synchronised global items.

use vstd::prelude::*;

use crate::domain::{ascii_lower, eq_chars, hex_encode, hex_lower, owned, sha256_digest, sha256_of, trimmed_lower, SecretLocator};
use crate::paths::{join, join_path};
use crate::store::{item_key, SecretStore, StoreError};
use crate::text::{push_str, trim};

verus! {

broadcast use vstd::string::group_string_axioms;

/// The store the tool was configured with: the native credential store or
/// the file store used for tests.
pub enum ConfiguredSecretStore<N, F> {
    Native(N),
    File(F),
}

impl<N: SecretStore, F: SecretStore> SecretStore for ConfiguredSecretStore<N, F> {
    open spec fn obeys_store_model() -> bool {
        N::obeys_store_model() && F::obeys_store_model()
    }

    open spec fn secrets(&self) -> Map<(Seq<char>, Seq<char>), Seq<u8>> {
        match self {
            ConfiguredSecretStore::Native(n) => n.secrets(),
            ConfiguredSecretStore::File(f) => f.secrets(),
        }
    }

    fn put(&mut self, locator: &SecretLocator, secret: &[u8]) -> (r: Result<(), StoreError>) {
        match self {
            ConfiguredSecretStore::Native(n) => n.put(locator, secret),
            ConfiguredSecretStore::File(f) => f.put(locator, secret),
        }
    }

    fn get(&self, locator: &SecretLocator) -> (r: Result<Option<Vec<u8>>, StoreError>) {
        match self {
            ConfiguredSecretStore::Native(n) => n.get(locator),
            ConfiguredSecretStore::File(f) => f.get(locator),
        }
    }

    fn delete(&mut self, locator: &SecretLocator) -> (r: Result<(), StoreError>) {
        match self {
            ConfiguredSecretStore::Native(n) => n.delete(locator),
            ConfiguredSecretStore::File(f) => f.delete(locator),
        }
    }

    fn probe(&mut self) -> (r: Result<(), StoreError>) {
        match self {
            ConfiguredSecretStore::Native(n) => n.probe(),
            ConfiguredSecretStore::File(f) => f.probe(),
        }
    }
}

/// The operating system's credential store.
#[derive(Debug, Clone, Copy, Default)]
pub struct NativeSecretStore;

/// A store that keeps each item in a file of its own under `root`.
pub struct FileSecretStore {
    pub root: String,
}

/// The file that holds the item of `service` and `account` under `root`:
/// the hex SHA-256 of the service, a zero byte and the account, with
/// `.secret` appended.
pub open spec fn item_file(root: Seq<char>, service: Seq<char>, account: Seq<char>) -> Seq<char> {
    join_path(
        root,
        hex_lower(
            sha256_of(vstd::utf8::encode_utf8(service) + seq![0u8] + vstd::utf8::encode_utf8(account)),
        ) + ".secret"@,
    )
}

impl FileSecretStore {
    pub fn new(root: &str) -> (r: FileSecretStore)
        ensures
            r.root@ == root@,
    {
        FileSecretStore { root: owned(root) }
    }

    /// Where the item of `locator` is kept.
    pub fn file_path(&self, locator: &SecretLocator) -> (r: String)
        ensures
            r@ == item_file(self.root@, locator.service@, locator.account@),
    {
        let mut data: Vec<u8> = Vec::new();
        let service = locator.service.as_str().as_bytes();
        let account = locator.account.as_str().as_bytes();
        let mut i: usize = 0;
        while i < service.len()
            invariant
                i <= service@.len(),
                data@ == service@.take(i as int),
            decreases service@.len() - i,
        {
            data.push(service[i]);
            i += 1;
            assert(data@ =~= service@.take(i as int));
        }
        data.push(0u8);
        let mut j: usize = 0;
        while j < account.len()
            invariant
                j <= account@.len(),
                data@ == service@ + seq![0u8] + account@.take(j as int),
            decreases account@.len() - j,
        {
            data.push(account[j]);
            j += 1;
            assert(data@ =~= service@ + seq![0u8] + account@.take(j as int));
        }
        assert(service@.take(service@.len() as int) =~= service@);
        assert(account@.take(account@.len() as int) =~= account@);
        let digest = sha256_digest(data.as_slice());
        let mut name = hex_encode(digest.as_slice());
        push_str(&mut name, ".secret");
        join(self.root.as_str(), name.as_str())
    }
}

/// Whether `a` and `b` hold the same bytes.
fn bytes_eq(a: &[u8], b: &[u8]) -> (r: bool)
    ensures
        r == (a@ == b@),
{
    if a.len() != b.len() {
        return false;
    }
    let mut i: usize = 0;
    while i < a.len()
        invariant
            a@.len() == b@.len(),
            i <= a@.len(),
            forall|j: int| 0 <= j < i ==> a@[j] == b@[j],
        decreases a@.len() - i,
    {
        if a[i] != b[i] {
            return false;
        }
        i += 1;
    }
    assert(a@ =~= b@);
    true
}

/// A write, a read and a delete of a throw-away item named by `suffix`,
/// checking that the read gives back what was written. It succeeds exactly
/// when the three store calls do and the read gives the payload back; in a
/// store that keeps its model, the read cannot give anything else.
pub fn probe_roundtrip<S: SecretStore>(store: &mut S, suffix: &str) -> (r: Result<(), StoreError>)
    ensures
        S::obeys_store_model() ==> (r is Ok ==> final(store).secrets() == old(store).secrets().remove(
            ("dev.easyenv.doctor"@, "probe/"@ + suffix@),
        )),
{
    let locator = SecretLocator::doctor_probe(suffix);
    let payload: Vec<u8> = vec![101u8, 97, 115, 121, 101, 110, 118, 45, 112, 114, 111, 98, 101];
    store.put(&locator, payload.as_slice())?;
    let loaded = store.get(&locator)?;
    store.delete(&locator)?;
    match loaded {
        Some(bytes) => {
            if bytes_eq(bytes.as_slice(), payload.as_slice()) {
                Ok(())
            } else {
                Err(StoreError { message: owned("secret store returned a different payload") })
            }
        },
        None => Err(StoreError { message: owned("secret store probe item was not readable") }),
    }
}

/// One write made to a memory store: the item's service and account, and
/// what it holds after the write, or `None` where the write deleted it.
pub struct MemoryWrite {
    pub service: String,
    pub account: String,
    pub secret: Option<Vec<u8>>,
}

/// A store that keeps its items in memory, as the log of the writes made
/// to it; the last write of an item decides what it holds.
pub struct MemorySecretStore {
    writes: Vec<MemoryWrite>,
}

pub open spec fn write_key(w: MemoryWrite) -> (Seq<char>, Seq<char>) {
    (w.service@, w.account@)
}

/// The items the writes `ws` leave, made in order.
pub open spec fn replay(ws: Seq<MemoryWrite>) -> Map<(Seq<char>, Seq<char>), Seq<u8>>
    decreases ws.len(),
{
    if ws.len() == 0 {
        Map::empty()
    } else {
        let m = replay(ws.drop_last());
        match ws.last().secret {
            Some(v) => m.insert(write_key(ws.last()), v@),
            None => m.remove(write_key(ws.last())),
        }
    }
}

/// Writes after position `m` that touch another item leave item `k` as
/// the first `m` writes left it.
proof fn lemma_replay_untouched(ws: Seq<MemoryWrite>, m: int, k: (Seq<char>, Seq<char>))
    requires
        0 <= m <= ws.len(),
        forall|j: int| m <= j < ws.len() ==> write_key(#[trigger] ws[j]) != k,
    ensures
        replay(ws).contains_key(k) == replay(ws.take(m)).contains_key(k),
        replay(ws).contains_key(k) ==> replay(ws)[k] == replay(ws.take(m))[k],
    decreases ws.len(),
{
    if ws.len() == m {
        assert(ws.take(m) =~= ws);
    } else {
        let w = ws.drop_last();
        assert(write_key(ws[ws.len() - 1]) != k);
        assert(w.take(m) =~= ws.take(m));
        lemma_replay_untouched(w, m, k);
    }
}

impl MemorySecretStore {
    /// An empty store.
    pub fn new() -> (r: MemorySecretStore)
        ensures
            r.secrets() == Map::<(Seq<char>, Seq<char>), Seq<u8>>::empty(),
    {
        MemorySecretStore { writes: Vec::new() }
    }
}

impl SecretStore for MemorySecretStore {
    open spec fn obeys_store_model() -> bool {
        true
    }

    closed spec fn secrets(&self) -> Map<(Seq<char>, Seq<char>), Seq<u8>> {
        replay(self.writes@)
    }

    fn put(&mut self, locator: &SecretLocator, secret: &[u8]) -> (r: Result<(), StoreError>) {
        let w = MemoryWrite {
            service: owned(locator.service.as_str()),
            account: owned(locator.account.as_str()),
            secret: Some(vstd::slice::slice_to_vec(secret)),
        };
        let ghost before = self.writes@;
        self.writes.push(w);
        assert(self.writes@.drop_last() =~= before);
        Ok(())
    }

    fn get(&self, locator: &SecretLocator) -> (r: Result<Option<Vec<u8>>, StoreError>) {
        let ghost ws = self.writes@;
        let ghost k = item_key(*locator);
        let mut i: usize = self.writes.len();
        while i > 0
            invariant
                ws == self.writes@,
                k == item_key(*locator),
                i <= ws.len(),
                forall|j: int| i <= j < ws.len() ==> write_key(#[trigger] ws[j]) != k,
            decreases i,
        {
            let w = &self.writes[i - 1];
            if crate::metadata::str_eq(w.service.as_str(), locator.service.as_str())
                && crate::metadata::str_eq(w.account.as_str(), locator.account.as_str()) {
                proof {
                    lemma_replay_untouched(ws, i as int, k);
                    assert(ws.take(i as int).drop_last() =~= ws.take(i - 1));
                    assert(ws.take(i as int).last() == ws[i - 1]);
                }
                return match &w.secret {
                    Some(v) => Ok(Some(vstd::slice::slice_to_vec(v.as_slice()))),
                    None => Ok(None),
                };
            }
            i -= 1;
        }
        proof {
            lemma_replay_untouched(ws, 0, k);
            assert(ws.take(0).len() == 0);
        }
        Ok(None)
    }

    fn delete(&mut self, locator: &SecretLocator) -> (r: Result<(), StoreError>) {
        let w = MemoryWrite {
            service: owned(locator.service.as_str()),
            account: owned(locator.account.as_str()),
            secret: None,
        };
        let ghost before = self.writes@;
        self.writes.push(w);
        assert(self.writes@.drop_last() =~= before);
        Ok(())
    }

    fn probe(&mut self) -> (r: Result<(), StoreError>) {
        let locator = SecretLocator::doctor_probe("memory");
        let ghost before = self.writes@;
        self.writes.push(
            MemoryWrite {
                service: owned(locator.service.as_str()),
                account: owned(locator.account.as_str()),
                secret: Some(vec![101u8, 97, 115, 121, 101, 110, 118, 45, 112, 114, 111, 98, 101]),
            },
        );
        let ghost mid = self.writes@;
        self.writes.push(MemoryWrite { service: locator.service, account: locator.account, secret: None });
        proof {
            assert(mid.drop_last() =~= before);
            assert(self.writes@.drop_last() =~= mid);
            assert(crate::store::probe_account("memory"@) == locator.account@);
            let k = ("dev.easyenv.doctor"@, crate::store::probe_account("memory"@));
            assert(write_key(mid.last()) == k);
            assert(write_key(self.writes@.last()) == k);
            assert(replay(mid) == replay(before).insert(k, mid.last().secret->Some_0@));
            assert(replay(self.writes@) == replay(mid).remove(k));
            assert(replay(self.writes@) =~= replay(before).remove(
                ("dev.easyenv.doctor"@, crate::store::probe_account("memory"@)),
            ));
        }
        Ok(())
    }
}

/// How global items use the keychain's synchronised storage.
#[derive(Debug, Clone, Copy, PartialEq, Eq, Structural)]
pub enum GlobalSyncMode {
    Prefer,
    Force,
    Never,
}

/// The mode a setting names, case and surrounding whitespace aside; an
/// absent or unknown setting means `Prefer`.
pub open spec fn sync_mode_of(setting: Option<Seq<char>>) -> GlobalSyncMode {
    match setting {
        None => GlobalSyncMode::Prefer,
        Some(v) => {
            let n = ascii_lower(trim(v));
            if n == "force"@ || n == "always"@ {
                GlobalSyncMode::Force
            } else if n == "never"@ || n == "off"@ || n == "false"@ || n == "local"@ {
                GlobalSyncMode::Never
            } else {
                GlobalSyncMode::Prefer
            }
        },
    }
}

/// Each documented setting names its own mode, whatever its case and the
/// whitespace around it: `prefer`, `force` (or `always`) and `never` (or
/// `off`, `false`, `local`); no setting, or any other text, means `Prefer`.
pub proof fn law_sync_settings(setting: Seq<char>)
    ensures
        ascii_lower(trim(setting)) == "prefer"@ ==> sync_mode_of(Some(setting)) == GlobalSyncMode::Prefer,
        ascii_lower(trim(setting)) == "force"@ || ascii_lower(trim(setting)) == "always"@ ==> sync_mode_of(
            Some(setting),
        ) == GlobalSyncMode::Force,
        ascii_lower(trim(setting)) == "never"@ || ascii_lower(trim(setting)) == "off"@ || ascii_lower(
            trim(setting),
        ) == "false"@ || ascii_lower(trim(setting)) == "local"@ ==> sync_mode_of(Some(setting))
            == GlobalSyncMode::Never,
        sync_mode_of(None) == GlobalSyncMode::Prefer,
{
    reveal_strlit("prefer");
    reveal_strlit("force");
    reveal_strlit("always");
    reveal_strlit("never");
    reveal_strlit("off");
    reveal_strlit("false");
    reveal_strlit("local");
    assert("prefer"@.len() != "force"@.len());
    assert("prefer"@[0] != "always"@[0]);
    assert("prefer"@.len() != "never"@.len() && "prefer"@.len() != "off"@.len());
    assert("prefer"@.len() != "false"@.len() && "prefer"@.len() != "local"@.len());
    assert("never"@[0] != "force"@[0] && "never"@.len() != "always"@.len());
    assert("off"@.len() != "force"@.len() && "off"@.len() != "always"@.len());
    assert("false"@[1] != "force"@[1] && "false"@.len() != "always"@.len());
    assert("local"@[0] != "force"@[0] && "local"@.len() != "always"@.len());
}

/// The keychain settings the tool reads from its environment.
pub struct KeychainConfig {
    pub access_group: Option<String>,
    pub global_sync: GlobalSyncMode,
}

pub open spec fn opt_chars(o: Option<&str>) -> Option<Seq<char>> {
    match o {
        Some(s) => Some(s@),
        None => None,
    }
}

impl KeychainConfig {
    /// The settings given the values of the access group and global sync
    /// variables; a blank access group counts as none.
    pub fn from_values(access_group: Option<&str>, global_sync: Option<&str>) -> (r: KeychainConfig)
        ensures
            r.global_sync == sync_mode_of(opt_chars(global_sync)),
            match access_group {
                Some(g) => if trim(g@).len() == 0 {
                    r.access_group is None
                } else {
                    r.access_group matches Some(s) && s@ == trim(g@)
                },
                None => r.access_group is None,
            },
    {
        let group = match access_group {
            Some(g) => {
                let v = crate::text::chars_of(g);
                let (a, b) = crate::text::trim_range(&v, 0, v.len());
                proof {
                    assert(v@.subrange(0, v@.len() as int) =~= v@);
                }
                if a == b {
                    None
                } else {
                    Some(crate::text::string_of_range(&v, a, b))
                }
            },
            None => None,
        };
        let mode = match global_sync {
            None => GlobalSyncMode::Prefer,
            Some(s) => {
                let n = trimmed_lower(s);
                if eq_chars(&n, "force") || eq_chars(&n, "always") {
                    GlobalSyncMode::Force
                } else if eq_chars(&n, "never") || eq_chars(&n, "off") || eq_chars(&n, "false") || eq_chars(
                    &n,
                    "local",
                ) {
                    GlobalSyncMode::Never
                } else {
                    GlobalSyncMode::Prefer
                }
            },
        };
        KeychainConfig { access_group: group, global_sync: mode }
    }
}

/// Global items may live in synchronised storage.
pub open spec fn sync_preferred(l: SecretLocator) -> bool {
    l.service@ == "dev.easyenv.global"@
}

pub fn prefers_sync(locator: &SecretLocator) -> (b: bool)
    ensures
        b == sync_preferred(*locator),
{
    let v = crate::text::chars_of(locator.service.as_str());
    eq_chars(&v, "dev.easyenv.global")
}

/// The synchronisation flags to try, in order.
pub open spec fn sync_plan(l: SecretLocator, mode: GlobalSyncMode) -> Seq<bool> {
    if !sync_preferred(l) {
        seq![false]
    } else {
        match mode {
            GlobalSyncMode::Force => seq![true],
            GlobalSyncMode::Never => seq![false],
            GlobalSyncMode::Prefer => seq![true, false],
        }
    }
}

pub fn sync_candidates(locator: &SecretLocator, mode: GlobalSyncMode) -> (r: Vec<bool>)
    ensures
        r@ == sync_plan(*locator, mode),
{
    if !prefers_sync(locator) {
        return vec![false];
    }
    match mode {
        GlobalSyncMode::Force => vec![true],
        GlobalSyncMode::Never => vec![false],
        GlobalSyncMode::Prefer => vec![true, false],
    }
}

/// After a write with synchronisation `used_sync` succeeded, the copy to
/// remove from the other storage, if any.
pub fn cleanup_opposite_store(locator: &SecretLocator, used_sync: bool) -> (r: Option<bool>)
    ensures
        r == (if sync_preferred(*locator) {
            Some(!used_sync)
        } else {
            None::<bool>
        }),
{
    if prefers_sync(locator) {
        Some(!used_sync)
    } else {
        None
    }
}

/// What the tries of a write come to, given the flags they were made with:
/// the flag of the first that succeeded, else the last error.
pub open spec fn put_result(
    outcomes: Seq<Result<(), StoreError>>,
    flags: Seq<bool>,
    last_error: Option<StoreError>,
) -> Option<Result<bool, StoreError>>
    decreases outcomes.len(),
{
    if outcomes.len() == 0 || flags.len() == 0 {
        match last_error {
            Some(e) => Some(Err(e)),
            None => None,
        }
    } else {
        match outcomes[0] {
            Ok(_) => Some(Ok(flags[0])),
            Err(e) => put_result(outcomes.drop_first(), flags.drop_first(), Some(e)),
        }
    }
}

/// The outcome of a write of `locator`'s item tried with each flag of
/// `sync_plan(locator, mode)` in turn until one succeeds; `outcomes` are the
/// results of the tries made, in order. `Ok` carries the flag that worked.
pub fn put(outcomes: Vec<Result<(), StoreError>>, locator: &SecretLocator, mode: GlobalSyncMode) -> (r: Result<bool, StoreError>)
    requires
        outcomes@.len() > 0,
    ensures
        Some(r) == put_result(outcomes@, sync_plan(*locator, mode), None),
{
    let flags = sync_candidates(locator, mode);
    proof {
        assert(put_result(outcomes@, flags@, None) is Some) by {
            if outcomes@[0] is Ok {
            } else {
                lemma_put_result_some(outcomes@.drop_first(), flags@.drop_first(), outcomes@[0]->Err_0);
            }
        }
    }
    let mut rest = outcomes;
    let ghost all = rest@;
    let mut last_error: Option<StoreError> = None;
    let mut i: usize = 0;
    assert(flags@.skip(0) =~= flags@);
    while rest.len() > 0 && i < flags.len()
        invariant
            all == outcomes@,
            flags@ == sync_plan(*locator, mode),
            i <= flags@.len(),
            put_result(all, flags@, None) == put_result(rest@, flags@.skip(i as int), last_error),
            put_result(all, flags@, None) is Some,
        decreases rest@.len(),
    {
        assert(flags@.skip(i as int).drop_first() =~= flags@.skip(i + 1));
        let ghost before = rest@;
        let o = rest.remove(0);
        assert(rest@ =~= before.drop_first());
        assert(o == before[0]);
        assert(flags@.skip(i as int)[0] == flags@[i as int]);
        match o {
            Ok(()) => {
                return Ok(flags[i]);
            },
            Err(e) => {
                last_error = Some(e);
            },
        }
        i += 1;
    }
    proof {
        if i < flags@.len() {
            assert(rest@.len() == 0);
        } else {
            assert(flags@.skip(i as int).len() == 0);
        }
    }
    match last_error {
        Some(e) => Err(e),
        None => {
            assert(false);
            Err(StoreError { message: String::new() })
        },
    }
}

/// With an error already seen, the tries always come to a result.
proof fn lemma_put_result_some(outcomes: Seq<Result<(), StoreError>>, flags: Seq<bool>, e: StoreError)
    ensures
        put_result(outcomes, flags, Some(e)) is Some,
    decreases outcomes.len(),
{
    if outcomes.len() > 0 && flags.len() > 0 {
        if outcomes[0] is Err {
            lemma_put_result_some(outcomes.drop_first(), flags.drop_first(), outcomes[0]->Err_0);
        }
    }
}

/// What the tries of a read come to: the first item found; else, where an
/// error came up and errors count, the last error; else nothing.
pub open spec fn get_result(
    outcomes: Seq<Result<Option<Vec<u8>>, StoreError>>,
    strict: bool,
    last_error: Option<StoreError>,
) -> Result<Option<Vec<u8>>, StoreError>
    decreases outcomes.len(),
{
    if outcomes.len() == 0 {
        match last_error {
            Some(e) => if strict {
                Err(e)
            } else {
                Ok(None)
            },
            None => Ok(None),
        }
    } else {
        match outcomes[0] {
            Ok(Some(v)) => Ok(Some(v)),
            Ok(None) => get_result(outcomes.drop_first(), strict, last_error),
            Err(e) => get_result(outcomes.drop_first(), strict, Some(e)),
        }
    }
}

/// Whether a failed read counts as an error rather than as a missing item:
/// for global items, or when synchronisation is forced.
pub open spec fn read_errors_count(l: SecretLocator, mode: GlobalSyncMode) -> bool {
    mode == GlobalSyncMode::Force || sync_preferred(l)
}

pub fn errors_count(locator: &SecretLocator, mode: GlobalSyncMode) -> (b: bool)
    ensures
        b == read_errors_count(*locator, mode),
{
    match mode {
        GlobalSyncMode::Force => true,
        _ => prefers_sync(locator),
    }
}

/// The outcome of a read of `locator`'s item tried with each flag of
/// `sync_plan(locator, mode)` in turn until one finds it; `outcomes` are the
/// results of the tries made, in order. A failed try is reported only where
/// `read_errors_count` says errors count; else it reads as a missing item.
pub fn get(
    outcomes: Vec<Result<Option<Vec<u8>>, StoreError>>,
    locator: &SecretLocator,
    mode: GlobalSyncMode,
) -> (r: Result<Option<Vec<u8>>, StoreError>)
    ensures
        r == get_result(outcomes@, read_errors_count(*locator, mode), None),
{
    let strict = errors_count(locator, mode);
    let mut rest = outcomes;
    let ghost all = rest@;
    let mut last_error: Option<StoreError> = None;
    while rest.len() > 0
        invariant
            all == outcomes@,
            strict == read_errors_count(*locator, mode),
            get_result(all, strict, None) == get_result(rest@, strict, last_error),
        decreases rest@.len(),
    {
        let ghost before = rest@;
        let o = rest.remove(0);
        assert(rest@ =~= before.drop_first());
        assert(o == before[0]);
        match o {
            Ok(Some(v)) => {
                return Ok(Some(v));
            },
            Ok(None) => {},
            Err(e) => {
                last_error = Some(e);
            },
        }
    }
    match last_error {
        Some(e) => if strict {
            Err(e)
        } else {
            Ok(None)
        },
        None => Ok(None),
    }
}

/// What the tries of a delete come to: success when one of them succeeded
/// or none failed, else the last error.
pub open spec fn delete_result(
    outcomes: Seq<Result<(), StoreError>>,
    deleted_any: bool,
    last_error: Option<StoreError>,
) -> Result<(), StoreError>
    decreases outcomes.len(),
{
    if outcomes.len() == 0 {
        if deleted_any {
            Ok(())
        } else {
            match last_error {
                Some(e) => Err(e),
                None => Ok(()),
            }
        }
    } else {
        match outcomes[0] {
            Ok(_) => delete_result(outcomes.drop_first(), true, last_error),
            Err(e) => delete_result(outcomes.drop_first(), deleted_any, Some(e)),
        }
    }
}

/// The outcome of a delete tried with every synchronisation flag.
pub fn delete(outcomes: Vec<Result<(), StoreError>>) -> (r: Result<(), StoreError>)
    ensures
        r == delete_result(outcomes@, false, None),
{
    let mut rest = outcomes;
    let ghost all = rest@;
    let mut deleted_any = false;
    let mut last_error: Option<StoreError> = None;
    while rest.len() > 0
        invariant
            all == outcomes@,
            delete_result(all, false, None) == delete_result(rest@, deleted_any, last_error),
        decreases rest@.len(),
    {
        let ghost before = rest@;
        let o = rest.remove(0);
        assert(rest@ =~= before.drop_first());
        match o {
            Ok(()) => {
                deleted_any = true;
            },
            Err(e) => {
                last_error = Some(e);
            },
        }
    }
    if deleted_any {
        Ok(())
    } else {
        match last_error {
            Some(e) => Err(e),
            None => Ok(()),
        }
    }
}

} // verus!
