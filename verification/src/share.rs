//! Sharing values between workspaces: each workspace keeps an age x25519
//! identity in its secret store, a share bundle carries selected values
//! encrypted to the recipients of other workspaces, and pulling a bundle
//! stores its values like a series of writes.

use vstd::prelude::*;

use age::secrecy::ExposeSecret;

use crate::clock::current_timestamp;
use crate::domain::{
    is_valid_key, key_fault, owned, scope_name, EnvKey, ProjectRecord, Scope, SecretLocator, VarMetadata,
};
use crate::error::EnvError;
use crate::metadata::visible_row;
use crate::order::{has_key, strictly_sorted, upsert_sorted, Keyed};
use crate::service::{
    import_took_effect, import_wrote, item_written, lemma_has_key_kept, lemma_import_step,
    lemma_master_added_trans, lemma_read_kept, listed_for, lists_every_stored, master_added_at_most,
    all_listed_ok, item_ok, lemma_master_kept_step, lemma_write_fault_in_series, master_kept, write_fault, writes_fault, pid_view, profile_of, read_fault, read_from, read_from_listed, scope_choice, var_item,
    upserted_all, write_took_effect, written_row, DesiredScope, EasyEnv, ResolvedSecret,
};
use crate::store::{item_key, SecretStore};
use crate::text::string_from_utf8;

verus! {

/// The recipient other workspaces encrypt to.
#[derive(Debug)]
pub struct IdentityInfo {
    pub recipient: String,
}

/// What writing a share bundle did.
#[derive(Debug)]
pub struct ShareExport {
    pub output_path: String,
    pub item_count: usize,
    pub recipient_count: usize,
}

/// What pulling a share bundle did.
#[derive(Debug)]
pub struct ShareImport {
    pub sender: String,
    pub item_count: usize,
    pub scope: Scope,
}

/// The plaintext of a share bundle.
#[derive(Debug)]
pub struct ShareBundle {
    pub version: u8,
    pub sender: String,
    pub profile: String,
    pub created_at: i64,
    pub items: Vec<SharedItem>,
}

/// One shared value.
#[derive(Debug)]
pub struct SharedItem {
    pub key: String,
    pub value: String,
    pub source_scope: String,
}

/// The recipient, as `age` prints it, of the x25519 identity written as
/// `secret`; `None` when `secret` does not parse as an identity.
pub uninterp spec fn identity_recipient(secret: Seq<char>) -> Option<Seq<char>>;

/// Whether `r` parses as an x25519 recipient.
pub uninterp spec fn recipient_valid(r: Seq<char>) -> bool;

/// What `age::decrypt` gives for `ciphertext` with the identity written as
/// `secret`; `None` when `secret` does not parse or decryption fails.
pub uninterp spec fn age_open(secret: Seq<char>, ciphertext: Seq<u8>) -> Option<Seq<u8>>;

pub open spec fn opt_chars(o: Option<String>) -> Option<Seq<char>> {
    match o {
        Some(s) => Some(s@),
        None => None,
    }
}

pub open spec fn opt_bytes(o: Option<Vec<u8>>) -> Option<Seq<u8>> {
    match o {
        Some(v) => Some(v@),
        None => None,
    }
}

/// A recipient as `age` prints it: bech32 with the human-readable part
/// `age`, so it begins with `age1`.
pub open spec fn age_recipient_text(r: Seq<char>) -> bool {
    r.len() >= 4 && r.take(4) == "age1"@
}

/// Calls `x25519::Identity::generate`, then `to_string` and `to_public` on
/// the new identity. Trusted: the secret string parses back to an identity
/// whose recipient is the recipient returned. The key comes from the system
/// random source, so nothing is stated of which one it is beyond that its
/// recipient begins with `age1`.
#[verifier::external_body]
fn generate_identity() -> (r: (String, String))
    ensures
        identity_recipient(r.0@) == Some(r.1@),
        age_recipient_text(r.1@),
{
    let identity = age::x25519::Identity::generate();
    (identity.to_string().expose_secret().to_string(), identity.to_public().to_string())
}

/// Parses `secret` as an `x25519::Identity` and prints the recipient that
/// `to_public` gives. Trusted: the result is `identity_recipient(secret)`,
/// and a recipient begins with `age1`.
#[verifier::external_body]
fn recipient_of(secret: &str) -> (r: Option<String>)
    ensures
        opt_chars(r) == identity_recipient(secret@),
        r matches Some(t) ==> age_recipient_text(t@),
{
    match secret.parse::<age::x25519::Identity>() {
        Ok(identity) => Some(identity.to_public().to_string()),
        Err(_) => None,
    }
}

/// Calls `str::parse::<x25519::Recipient>`. Trusted: it succeeds exactly
/// when `recipient_valid(r)`, and then `r` decodes as bech32 to the 32
/// bytes of the key (the parser decodes with `bech32::decode`, asks for the
/// Bech32 variant, converts the data with `FromBase32` and takes 32 bytes).
#[verifier::external_body]
fn parses_as_recipient(r: &str) -> (b: bool)
    ensures
        b == recipient_valid(r@),
        b ==> (recipient_key(r@) matches Some(k) && k.len() == 32),
{
    r.parse::<age::x25519::Recipient>().is_ok()
}

/// The bytes that `r` carries as Bech32 (not Bech32m) data, as age decodes a
/// recipient; `None` when `r` does not decode.
pub uninterp spec fn recipient_key(r: Seq<char>) -> Option<Seq<u8>>;

/// `x25519(k, u)` of RFC 7748 for the fixed scalar `k` =
/// `X25519_BASEPOINT_BYTES`, as `x25519_dalek::x25519` computes it.
pub uninterp spec fn x25519_fixed(u: Seq<u8>) -> Seq<u8>;

/// Calls `bech32::decode(r)` and, for the Bech32 variant, converts the data
/// with `FromBase32` into bytes. Trusted: the result is `recipient_key(r)`.
#[verifier::external_body]
fn recipient_key_bytes(r: &str) -> (k: Option<Vec<u8>>)
    ensures
        opt_bytes(k) == recipient_key(r@),
{
    match bech32::decode(r) {
        Ok((_, data, bech32::Variant::Bech32)) => <Vec<u8> as bech32::FromBase32>::from_base32(&data).ok(),
        _ => None,
    }
}

/// Calls `x25519_dalek::x25519(X25519_BASEPOINT_BYTES, u)`. Trusted: the
/// result is `x25519_fixed(u)`, 32 bytes long.
#[verifier::external_body]
fn x25519_with_fixed_scalar(u: &[u8]) -> (r: Vec<u8>)
    requires
        u@.len() == 32,
    ensures
        r@ == x25519_fixed(u@),
        r@.len() == 32,
{
    let point: [u8; 32] = u.try_into().expect("32 bytes");
    x25519_dalek::x25519(x25519_dalek::X25519_BASEPOINT_BYTES, point).to_vec()
}

/// The 32-byte key `k` has low order: X25519 clamps every scalar to a
/// multiple of the cofactor, so with such a key every scalar, the fixed one
/// and the random one age draws alike, gives the all-zero shared secret.
pub open spec fn low_order_key(k: Seq<u8>) -> bool {
    x25519_fixed(k) =~= Seq::new(32, |i: int| 0u8)
}

/// `r` is a recipient a bundle can be sealed for: it parses, and its key
/// is not of low order.
pub open spec fn recipient_usable(r: Seq<char>) -> bool {
    recipient_valid(r) && !low_order_key(recipient_key(r)->Some_0)
}

fn all_zero(v: &Vec<u8>) -> (b: bool)
    ensures
        b == (v@ =~= Seq::new(v@.len(), |i: int| 0u8)),
{
    let mut i: usize = 0;
    while i < v.len()
        invariant
            i <= v@.len(),
            forall|j: int| 0 <= j < i ==> v@[j] == 0u8,
        decreases v@.len() - i,
    {
        if v[i] != 0u8 {
            assert(v@[i as int] != Seq::new(v@.len(), |i: int| 0u8)[i as int]);
            return false;
        }
        i += 1;
    }
    true
}

/// Whether a bundle can be sealed for `r`: it parses as an age recipient and
/// its key is not of low order.
pub fn recipient_accepted(r: &str) -> (b: bool)
    ensures
        b == recipient_usable(r@),
{
    if !parses_as_recipient(r) {
        return false;
    }
    match recipient_key_bytes(r) {
        Some(k) => {
            let d = x25519_with_fixed_scalar(k.as_slice());
            !all_zero(&d)
        },
        None => false,
    }
}

/// Parses each of `recipients` as an `x25519::Recipient` and encrypts
/// `plaintext` to all of them with `age::Encryptor`, ASCII-armored.
/// Trusted: what comes out opens, with the identity of any of the
/// recipients, to the plaintext; and with at least one recipient, all of
/// them parsing, it succeeds (`with_recipients` refuses only an empty list,
/// and the writers write into a `Vec`). The file key and nonce come from the
/// system random source, so nothing more is stated of the bytes. A key of
/// low order makes age's shared secret all zero, on which `wrap_file_key`
/// panics, so such keys are left out.
#[verifier::external_body]
fn encrypt_armored(recipients: &[String], plaintext: &[u8]) -> (r: Option<Vec<u8>>)
    requires
        forall|k: int|
            0 <= k < recipients@.len() && recipient_valid((#[trigger] recipients@[k])@) ==> !low_order_key(
                recipient_key(recipients@[k]@)->Some_0,
            ),
    ensures
        recipients@.len() > 0 && all_valid(recipients@) ==> r is Some,
        r matches Some(c) ==> forall|secret: Seq<char>, k: int|
            #![trigger identity_recipient(secret), recipients@[k]]
            0 <= k < recipients@.len() && identity_recipient(secret) == Some(recipients@[k]@) ==> age_open(
                secret,
                c@,
            ) == Some(plaintext@),
{
    let mut parsed: Vec<age::x25519::Recipient> = Vec::new();
    for r in recipients {
        parsed.push(r.parse().ok()?);
    }
    let encryptor = age::Encryptor::with_recipients(parsed.iter().map(|r| r as _)).ok()?;
    let mut out = Vec::new();
    let armor = age::armor::ArmoredWriter::wrap_output(&mut out, age::armor::Format::AsciiArmor).ok()?;
    let mut writer = encryptor.wrap_output(armor).ok()?;
    std::io::Write::write_all(&mut writer, plaintext).ok()?;
    writer.finish().ok()?.finish().ok()?;
    Some(out)
}

/// Parses `secret` as an `x25519::Identity` and calls `age::decrypt` with it
/// on `ciphertext`. Trusted: the result is `age_open(secret, ciphertext)`.
#[verifier::external_body]
fn decrypt_with(secret: &str, ciphertext: &[u8]) -> (r: Option<Vec<u8>>)
    ensures
        opt_bytes(r) == age_open(secret@, ciphertext@),
{
    let identity: age::x25519::Identity = secret.parse().ok()?;
    age::decrypt(&identity, ciphertext).ok()
}

/// The item the workspace identity is kept under.
pub open spec fn identity_item() -> (Seq<char>, Seq<char>) {
    ("dev.easyenv.identity"@, "workspace/age/x25519/default"@)
}

/// The identity a store holds, if it holds one that can be read as text.
pub open spec fn stored_identity(secrets: Map<(Seq<char>, Seq<char>), Seq<u8>>) -> Option<Seq<char>> {
    if secrets.contains_key(identity_item()) && vstd::utf8::valid_utf8(secrets[identity_item()]) {
        Some(vstd::utf8::decode_utf8(secrets[identity_item()]))
    } else {
        None
    }
}

/// The store holds the identity `s`: it was there, or it was just added.
pub open spec fn holds_identity(
    before: Map<(Seq<char>, Seq<char>), Seq<u8>>,
    after: Map<(Seq<char>, Seq<char>), Seq<u8>>,
    s: Seq<char>,
) -> bool {
    ||| (before.contains_key(identity_item()) && after == before && stored_identity(before) == Some(s))
    ||| (!before.contains_key(identity_item()) && after == before.insert(
        identity_item(),
        vstd::utf8::encode_utf8(s),
    ))
}

/// The workspace identity, written as text: the stored one, or a new one
/// that is stored first.
pub fn load_or_generate_identity<S: SecretStore>(store: &mut S) -> (r: Result<String, EnvError>)
    requires
        S::obeys_store_model(),
    ensures
        r matches Ok(s) ==> identity_recipient(s@) is Some && holds_identity(
            old(store).secrets(),
            final(store).secrets(),
            s@,
        ),
        old(store).secrets().contains_key(identity_item()) ==> final(store).secrets() == old(
            store,
        ).secrets(),
        r matches Err(e) ==> ({
            ||| e is Store
            ||| (e is NotUtf8 && old(store).secrets().contains_key(identity_item())
                && stored_identity(old(store).secrets()) is None)
            ||| (e is IdentityUnparseable && (stored_identity(old(store).secrets()) matches Some(s)
                && identity_recipient(s) is None))
        }),
        stored_identity(old(store).secrets()) matches Some(s) ==> ((r matches Ok(t) && t@ == s)
            || (r matches Err(e) && (e is Store || (e is IdentityUnparseable && identity_recipient(s) is None)))),
{
    let locator = SecretLocator::share_identity();
    proof {
        reveal_strlit("dev.easyenv.identity");
        reveal_strlit("workspace/age/x25519/default");
    }
    assert(item_key(locator) == identity_item());
    match store.get(&locator) {
        Err(e) => Err(EnvError::Store(e)),
        Ok(Some(bytes)) => {
            let text = match string_from_utf8(bytes) {
                Some(t) => t,
                None => {
                    return Err(EnvError::NotUtf8);
                },
            };
            match recipient_of(text.as_str()) {
                Some(_) => Ok(text),
                None => Err(EnvError::IdentityUnparseable),
            }
        },
        Ok(None) => {
            let (secret, _) = generate_identity();
            match store.put(&locator, secret.as_str().as_bytes()) {
                Ok(()) => Ok(secret),
                Err(e) => Err(EnvError::Store(e)),
            }
        },
    }
}

/// The errors reading the workspace identity from a store holding
/// `secrets` can end in: the store, a stored identity that is not text, or
/// one that does not parse.
pub open spec fn identity_fault(e: EnvError, secrets: Map<(Seq<char>, Seq<char>), Seq<u8>>) -> bool {
    ||| e is Store
    ||| (e is NotUtf8 && secrets.contains_key(identity_item()) && stored_identity(secrets) is None)
    ||| (e is IdentityUnparseable && (stored_identity(secrets) matches Some(s) && identity_recipient(s) is None))
}

/// What a call of `ensure_identity` on a store holding `before` does: the
/// store goes to `after`, which keeps a stored identity, and the result is
/// the recipient of the identity the store holds, or a store error.
pub open spec fn identity_outcome(
    before: Map<(Seq<char>, Seq<char>), Seq<u8>>,
    after: Map<(Seq<char>, Seq<char>), Seq<u8>>,
    r: Result<IdentityInfo, EnvError>,
) -> bool {
    &&& r matches Ok(info) ==> exists|s: Seq<char>|
        identity_recipient(s) == Some(info.recipient@) && holds_identity(before, after, s)
    &&& before.contains_key(identity_item()) ==> after == before
    &&& stored_identity(before) matches Some(s) ==> (identity_recipient(s) matches Some(rc) ==> ((r matches Ok(
        info,
    ) && info.recipient@ == rc) || (r matches Err(e) && e is Store)))
}

/// The workspace identity is stable: once `ensure_identity` has returned a
/// recipient, a second call writes nothing and returns the same recipient,
/// unless the store fails.
pub proof fn law_identity_stable(
    s0: Map<(Seq<char>, Seq<char>), Seq<u8>>,
    s1: Map<(Seq<char>, Seq<char>), Seq<u8>>,
    s2: Map<(Seq<char>, Seq<char>), Seq<u8>>,
    r1: Result<IdentityInfo, EnvError>,
    r2: Result<IdentityInfo, EnvError>,
)
    requires
        identity_outcome(s0, s1, r1),
        identity_outcome(s1, s2, r2),
        r1 is Ok,
    ensures
        s2 == s1,
        (r2 matches Ok(b) && b.recipient@ == r1->Ok_0.recipient@) || (r2 matches Err(e) && e is Store),
{
    let rec1 = r1->Ok_0.recipient@;
    let s = choose|s: Seq<char>| identity_recipient(s) == Some(rec1) && holds_identity(s0, s1, s);
    if !s0.contains_key(identity_item()) {
        vstd::utf8::encode_utf8_valid_utf8(s);
        vstd::utf8::encode_utf8_decode_utf8(s);
        assert(s1.contains_key(identity_item()));
    }
    assert(stored_identity(s1) == Some(s));
}

/// The recipient of the workspace identity, which is made and stored first
/// when the store holds none.
pub fn ensure_identity<S: SecretStore>(store: &mut S) -> (r: Result<IdentityInfo, EnvError>)
    requires
        S::obeys_store_model(),
    ensures
        r matches Ok(info) ==> age_recipient_text(info.recipient@),
        r matches Err(e) ==> identity_fault(e, old(store).secrets()),
        identity_outcome(old(store).secrets(), final(store).secrets(), r),
        r matches Ok(info) ==> exists|s: Seq<char>|
            identity_recipient(s) == Some(info.recipient@) && holds_identity(
                old(store).secrets(),
                final(store).secrets(),
                s,
            ),
        old(store).secrets().contains_key(identity_item()) ==> final(store).secrets() == old(
            store,
        ).secrets(),
        stored_identity(old(store).secrets()) matches Some(s) ==> (identity_recipient(s) matches Some(rc)
            ==> ((r matches Ok(info) && info.recipient@ == rc) || (r matches Err(e) && e is Store))),
{
    let secret = load_or_generate_identity(store)?;
    match recipient_of(secret.as_str()) {
        Some(recipient) => Ok(IdentityInfo { recipient }),
        None => {
            assert(false);
            Err(EnvError::IdentityUnparseable)
        },
    }
}

/// Replaces the workspace identity with a new one and returns its recipient.
pub fn rotate_identity<S: SecretStore>(store: &mut S) -> (r: Result<IdentityInfo, EnvError>)
    requires
        S::obeys_store_model(),
    ensures
        r matches Ok(info) ==> age_recipient_text(info.recipient@),
        r matches Ok(info) ==> exists|s: Seq<char>|
            identity_recipient(s) == Some(info.recipient@) && final(store).secrets() == old(
                store,
            ).secrets().insert(identity_item(), vstd::utf8::encode_utf8(s)),
        r matches Err(e) ==> e is Store,
{
    let locator = SecretLocator::share_identity();
    proof {
        reveal_strlit("dev.easyenv.identity");
        reveal_strlit("workspace/age/x25519/default");
    }
    assert(item_key(locator) == identity_item());
    let (secret, recipient) = generate_identity();
    match store.put(&locator, secret.as_str().as_bytes()) {
        Ok(()) => Ok(IdentityInfo { recipient }),
        Err(e) => Err(EnvError::Store(e)),
    }
}


/// `k` is the key of one of `keys`.
pub open spec fn key_among(k: Seq<char>, keys: Seq<EnvKey>) -> bool {
    exists|j: int| 0 <= j < keys.len() && (#[trigger] keys[j])@ == k
}

/// `v` is a selection for a share: in increasing key order, each a value
/// read from a row a listing sees, with every one of `keys`, every stored
/// listed value where `include_all` asks for them, and nothing else.
pub open spec fn selection(
    v: Seq<ResolvedSecret>,
    keys: Seq<EnvKey>,
    include_all: bool,
    rows: Seq<VarMetadata>,
    active: Option<ProjectRecord>,
    profile: Seq<char>,
    old_secrets: Map<(Seq<char>, Seq<char>), Seq<u8>>,
    secrets: Map<(Seq<char>, Seq<char>), Seq<u8>>,
) -> bool {
    &&& strictly_sorted(v)
    &&& forall|i: int|
        0 <= i < v.len() ==> read_from_listed(#[trigger] v[i], rows, active, None, profile, secrets)
    &&& forall|j: int| 0 <= j < keys.len() ==> has_key(v, (#[trigger] keys[j])@)
    &&& include_all ==> lists_every_stored(v, rows, active, None, profile, old_secrets)
    &&& !include_all ==> forall|i: int| 0 <= i < v.len() ==> key_among((#[trigger] v[i]).key@, keys)
}

/// Key `k` has no value to share: no row of it is visible, or the store
/// lacks its item.
pub open spec fn key_missing(
    rows: Seq<VarMetadata>,
    active: Option<ProjectRecord>,
    profile: Seq<char>,
    secrets: Map<(Seq<char>, Seq<char>), Seq<u8>>,
    k: Seq<char>,
) -> bool {
    let row = visible_row(rows, k, pid_view(active), profile);
    row is None || (var_item(row->Some_0) is Some && !secrets.contains_key(var_item(row->Some_0)->Some_0))
}

/// Key `k` has no visible row, or one whose item the store lacks or holds
/// readable.
pub open spec fn key_ok(
    rows: Seq<VarMetadata>,
    active: Option<ProjectRecord>,
    profile: Seq<char>,
    secrets: Map<(Seq<char>, Seq<char>), Seq<u8>>,
    k: Seq<char>,
) -> bool {
    let row = visible_row(rows, k, pid_view(active), profile);
    row is None || item_ok(row->Some_0, secrets)
}

/// A selection asks for something, with a usable profile, and everything it
/// reads is missing or readable.
pub open spec fn selection_readable(
    rows: Seq<VarMetadata>,
    active: Option<ProjectRecord>,
    raw_profile: Seq<char>,
    secrets: Map<(Seq<char>, Seq<char>), Seq<u8>>,
    keys: Seq<EnvKey>,
    include_all: bool,
) -> bool {
    let p = profile_of(raw_profile)->Ok_0;
    &&& include_all || keys.len() > 0
    &&& profile_of(raw_profile) is Ok
    &&& include_all ==> all_listed_ok(rows, pid_view(active), None, p, secrets)
    &&& forall|j: int| 0 <= j < keys.len() ==> key_ok(rows, active, p, secrets, (#[trigger] keys[j])@)
}

/// The values a share is made of: every listed value where `include_all`
/// asks for them, and the value of each of `keys`, in increasing key order.
pub fn select_secrets<S: SecretStore>(
    app: &mut EasyEnv<S>,
    cwd: &str,
    profile: &str,
    keys: &[EnvKey],
    include_all: bool,
) -> (r: Result<Vec<ResolvedSecret>, EnvError>)
    requires
        S::obeys_store_model(),
    ensures
        final(app).metadata_view() == old(app).metadata_view(),
        final(app).paths_view() == old(app).paths_view(),
        r is Ok ==> master_added_at_most(old(app).secrets(), final(app).secrets()),
        r matches Err(e) ==> e is NoSelection || e is NotFound || read_fault(e),
        !include_all && keys@.len() == 0 ==> r == Err::<Vec<ResolvedSecret>, EnvError>(EnvError::NoSelection),
        (include_all || keys@.len() > 0) && profile_of(profile@) is Err ==> r == Err::<
            Vec<ResolvedSecret>,
            EnvError,
        >(profile_of(profile@)->Err_0),
        r matches Err(e) ==> (e is NotFound ==> exists|j: int|
            0 <= j < keys@.len() && (#[trigger] keys@[j])@ == e->NotFound_0@ && key_missing(
                old(app).rows(),
                old(app).active_spec(cwd@),
                profile_of(profile@)->Ok_0,
                old(app).secrets(),
                keys@[j]@,
            ) && forall|t: int|
                0 <= t < j ==> !key_missing(
                    old(app).rows(),
                    old(app).active_spec(cwd@),
                    profile_of(profile@)->Ok_0,
                    old(app).secrets(),
                    (#[trigger] keys@[t])@,
                )),
        r matches Ok(v) ==> profile_of(profile@) is Ok && selection(
            v@,
            keys@,
            include_all,
            old(app).rows(),
            old(app).active_spec(cwd@),
            profile_of(profile@)->Ok_0,
            old(app).secrets(),
            final(app).secrets(),
        ),
        r == Err::<Vec<ResolvedSecret>, EnvError>(EnvError::NoSelection) ==> !include_all && keys@.len() == 0,
        selection_readable(
            old(app).rows(),
            old(app).active_spec(cwd@),
            profile@,
            old(app).secrets(),
            keys@,
            include_all,
        ) ==> (r is Ok || r->Err_0 is Store || r->Err_0 is NotFound),
{
    if !include_all && keys.len() == 0 {
        return Err(EnvError::NoSelection);
    }
    let ghost active = old(app).active_spec(cwd@);
    let ghost p = profile_of(profile@)->Ok_0;
    let ghost rows = old(app).rows();
    let ghost secrets0 = old(app).secrets();
    let mut selected: Vec<ResolvedSecret> = if include_all {
        app.list_secrets(cwd, None, profile)?
    } else {
        Vec::new()
    };
    proof {
        if include_all {
            assert forall|e: ResolvedSecret| selected@.contains(e) implies read_from_listed(
                e,
                rows,
                active,
                None,
                p,
                app.secrets(),
            ) by {
                let i = choose|i: int| 0 <= i < selected@.len() && selected@[i] == e;
                assert(read_from_listed(selected@[i], rows, active, None, p, app.secrets()));
            }
        }
    }
    let mut j: usize = 0;
    while j < keys.len()
        invariant
            S::obeys_store_model(),
            j <= keys@.len(),
            !include_all ==> keys@.len() > 0,
            include_all ==> profile_of(profile@) == Ok::<Seq<char>, EnvError>(p),
            p == profile_of(profile@)->Ok_0,
            active == old(app).active_spec(cwd@),
            rows == old(app).rows(),
            secrets0 == old(app).secrets(),
            app.metadata_view() == old(app).metadata_view(),
            app.paths_view() == old(app).paths_view(),
            master_added_at_most(secrets0, app.secrets()),
            strictly_sorted(selected@),
            forall|e: ResolvedSecret|
                selected@.contains(e) ==> read_from_listed(e, rows, active, None, p, app.secrets()),
            forall|k: int| 0 <= k < j ==> has_key(selected@, (#[trigger] keys@[k])@),
            include_all ==> lists_every_stored(selected@, rows, active, None, p, secrets0),
            !include_all ==> forall|e: ResolvedSecret|
                selected@.contains(e) ==> exists|k: int| 0 <= k < j && e.key@ == (#[trigger] keys@[k])@,
            j > 0 ==> profile_of(profile@) == Ok::<Seq<char>, EnvError>(p),
            forall|t: int| 0 <= t < j ==> !key_missing(rows, active, p, secrets0, (#[trigger] keys@[t])@),
            selection_readable(rows, active, profile@, secrets0, keys@, include_all) ==> forall|t: int|
                0 <= t < keys@.len() ==> key_ok(rows, active, p, secrets0, (#[trigger] keys@[t])@),
        decreases keys@.len() - j,
    {
        let ghost s_before = app.secrets();
        let ghost before = selected@;
        proof {
            if selection_readable(rows, active, profile@, secrets0, keys@, include_all) {
                assert(key_ok(rows, active, p, secrets0, keys@[j as int]@));
                let row = visible_row(rows, keys@[j as int]@, pid_view(active), p);
                if row is Some {
                    crate::service::lemma_item_ok_kept(secrets0, s_before, row->Some_0);
                }
            }
        }
        let found = match app.get_secret(cwd, &keys[j], profile) {
            Ok(f) => f,
            Err(e) => {
                return Err(e);
            },
        };
        proof {
            crate::service::lemma_var_item_not_master(
                visible_row(rows, keys@[j as int]@, pid_view(active), p)->Some_0,
            );
            let row = visible_row(rows, keys@[j as int]@, pid_view(active), p);
            if row is Some && var_item(row->Some_0) is Some {
                crate::service::lemma_master_added_keeps_items(secrets0, s_before, var_item(row->Some_0)->Some_0);
            }
        }
        let secret = match found {
            Some(secret) => secret,
            None => {
                let n = keys[j].clone();
                proof {
                    assert(key_missing(rows, active, p, secrets0, keys@[j as int]@));
                    assert(n@ == keys@[j as int]@);
                }
                return Err(EnvError::NotFound(n));
            },
        };
        proof {
            assert(!key_missing(rows, active, p, secrets0, keys@[j as int]@));
            lemma_master_added_trans(secrets0, s_before, app.secrets());
            crate::metadata::lemma_visible_row_listed(rows, keys@[j as int]@, pid_view(active), p);
            let m = visible_row(rows, keys@[j as int]@, pid_view(active), p)->Some_0;
            assert(read_from(secret, m, active, app.secrets()));
            assert(read_from_listed(secret, rows, active, None, p, app.secrets()));
            assert forall|e: ResolvedSecret| before.contains(e) implies read_from_listed(
                e,
                rows,
                active,
                None,
                p,
                app.secrets(),
            ) by {
                lemma_read_kept(e, rows, active, None, p, s_before, app.secrets());
            }
        }
        let ghost x = secret;
        upsert_sorted(&mut selected, secret);
        proof {
            assert(selected@.contains(x));
            assert forall|k: int| 0 <= k < j + 1 implies has_key(selected@, (#[trigger] keys@[k])@) by {
                if k < j {
                    lemma_has_key_kept(before, selected@, x, keys@[k]@);
                } else {
                    let t = choose|t: int| 0 <= t < selected@.len() && selected@[t] == x;
                    assert(selected@[t].key_view() == keys@[k]@);
                }
            }
            if include_all {
                assert forall|m: VarMetadata|
                    #[trigger] listed_for(rows, m, pid_view(active), None, p) && var_item(m) is Some
                        && secrets0.contains_key(var_item(m)->Some_0) implies has_key(selected@, m.key@) by {
                    lemma_has_key_kept(before, selected@, x, m.key@);
                }
            } else {
                assert forall|e: ResolvedSecret| selected@.contains(e) implies exists|k: int|
                    0 <= k < j + 1 && e.key@ == (#[trigger] keys@[k])@ by {
                    if e != x {
                        assert(before.contains(e));
                    } else {
                        assert(e.key@ == keys@[j as int]@);
                    }
                }
            }
        }
        j += 1;
    }
    proof {
        assert forall|i: int| 0 <= i < selected@.len() implies read_from_listed(
            #[trigger] selected@[i],
            rows,
            active,
            None,
            p,
            app.secrets(),
        ) by {
            assert(selected@.contains(selected@[i]));
        }
        if !include_all {
            assert forall|i: int| 0 <= i < selected@.len() implies key_among(
                (#[trigger] selected@[i]).key@,
                keys@,
            ) by {
                assert(selected@.contains(selected@[i]));
            }
        }
    }
    Ok(selected)
}


/// A shared item as key, value and source scope.
pub open spec fn item_view(i: SharedItem) -> (Seq<char>, Seq<char>, Seq<char>) {
    (i.key@, i.value@, i.source_scope@)
}

/// The shared item that carries `rs`.
pub open spec fn item_of(rs: ResolvedSecret) -> (Seq<char>, Seq<char>, Seq<char>) {
    (rs.key@, rs.value@, scope_name(rs.scope))
}

/// Every one of `recipients` parses as an age recipient.
pub open spec fn all_valid(recipients: Seq<String>) -> bool {
    forall|k: int| 0 <= k < recipients.len() ==> recipient_valid((#[trigger] recipients[k])@)
}

/// A bundle can be sealed for every one of `recipients`.
pub open spec fn all_usable(recipients: Seq<String>) -> bool {
    forall|k: int| 0 <= k < recipients.len() ==> recipient_usable((#[trigger] recipients[k])@)
}

/// `n` is the first of `recipients` that a bundle cannot be sealed for.
pub open spec fn first_invalid(recipients: Seq<String>, n: Seq<char>) -> bool {
    exists|k: int|
        0 <= k < recipients.len() && (#[trigger] recipients[k])@ == n && !recipient_usable(n)
            && forall|t: int| 0 <= t < k ==> recipient_usable((#[trigger] recipients[t])@)
}

/// The errors that reading the workspace identity or selecting the shared
/// values can end in.
pub open spec fn identity_or_selection_fault(e: EnvError) -> bool {
    e is Store || e is NotUtf8 || e is IdentityUnparseable || e is NoSelection || e is NotFound
        || read_fault(e)
}

/// The plaintext of a share for `recipients`: a bundle from this workspace's
/// recipient carrying the selected values, after checking that every
/// recipient parses. The caller serialises it and seals it with
/// [`seal_bundle`].
#[verifier::loop_isolation(false)]
pub fn export_bundle<S: SecretStore>(
    app: &mut EasyEnv<S>,
    store: &mut S,
    cwd: &str,
    profile: &str,
    keys: &[EnvKey],
    include_all: bool,
    recipients: &[String],
) -> (r: Result<ShareBundle, EnvError>)
    requires
        S::obeys_store_model(),
    ensures
        final(app).metadata_view() == old(app).metadata_view(),
        final(app).paths_view() == old(app).paths_view(),
        recipients@.len() == 0 <==> r == Err::<ShareBundle, EnvError>(EnvError::NoRecipients),
        r matches Err(e) ==> e is NoRecipients || e is InvalidRecipient || e is ClockBeforeEpoch
            || identity_or_selection_fault(e),
        r matches Err(e) ==> (e is InvalidRecipient ==> first_invalid(recipients@, e->InvalidRecipient_0@)),
        recipients@.len() > 0 && !all_usable(recipients@) ==> (r matches Err(e) && ((e is InvalidRecipient
            && first_invalid(recipients@, e->InvalidRecipient_0@)) || identity_or_selection_fault(e))),
        r == Err::<ShareBundle, EnvError>(EnvError::NoSelection) ==> recipients@.len() > 0 && !include_all
            && keys@.len() == 0,
        recipients@.len() > 0 && !include_all && keys@.len() == 0 ==> (r == Err::<ShareBundle, EnvError>(
            EnvError::NoSelection,
        ) || (r matches Err(e) && identity_fault(e, old(store).secrets()))),
        r matches Err(e) ==> (e is NotFound ==> exists|j: int|
            0 <= j < keys@.len() && (#[trigger] keys@[j])@ == e->NotFound_0@ && key_missing(
                old(app).rows(),
                old(app).active_spec(cwd@),
                profile_of(profile@)->Ok_0,
                old(app).secrets(),
                keys@[j]@,
            ) && forall|t: int|
                0 <= t < j ==> !key_missing(
                    old(app).rows(),
                    old(app).active_spec(cwd@),
                    profile_of(profile@)->Ok_0,
                    old(app).secrets(),
                    (#[trigger] keys@[t])@,
                )),
        recipients@.len() > 0 && selection_readable(
            old(app).rows(),
            old(app).active_spec(cwd@),
            profile@,
            old(app).secrets(),
            keys@,
            include_all,
        ) ==> (r matches Ok(_) || (r matches Err(e) && (identity_fault(e, old(store).secrets()) || e is Store
            || e is NotFound || e is InvalidRecipient || e is ClockBeforeEpoch))),
        r matches Ok(b) ==> ({
            &&& b.version == 1
            &&& b.profile@ == profile@
            &&& all_usable(recipients@)
            &&& profile_of(profile@) is Ok
            &&& exists|s: Seq<char>|
                identity_recipient(s) == Some(b.sender@) && holds_identity(
                    old(store).secrets(),
                    final(store).secrets(),
                    s,
                )
            &&& exists|v: Seq<ResolvedSecret>|
                selection(
                    v,
                    keys@,
                    include_all,
                    old(app).rows(),
                    old(app).active_spec(cwd@),
                    profile_of(profile@)->Ok_0,
                    old(app).secrets(),
                    final(app).secrets(),
                ) && b.items@.map_values(|i: SharedItem| item_view(i)) == v.map_values(
                    |rs: ResolvedSecret| item_of(rs),
                )
        }),
{
    if recipients.len() == 0 {
        return Err(EnvError::NoRecipients);
    }
    let sender = ensure_identity(store)?.recipient;
    let selected = select_secrets(app, cwd, profile, keys, include_all)?;
    let mut k: usize = 0;
    while k < recipients.len()
        invariant
            k <= recipients@.len(),
            forall|t: int| 0 <= t < k ==> recipient_usable((#[trigger] recipients@[t])@),
        decreases recipients@.len() - k,
    {
        if !recipient_accepted(recipients[k].as_str()) {
            let n = recipients[k].clone();
            assert(recipients@[k as int]@ == n@);
            assert(first_invalid(recipients@, n@));
            return Err(EnvError::InvalidRecipient(n));
        }
        k += 1;
    }
    let created_at = current_timestamp()?;
    let mut items: Vec<SharedItem> = Vec::new();
    let mut i: usize = 0;
    while i < selected.len()
        invariant
            i <= selected@.len(),
            items@.len() == i,
            forall|t: int| 0 <= t < i ==> item_view(#[trigger] items@[t]) == item_of(selected@[t]),
        decreases selected@.len() - i,
    {
        let secret = &selected[i];
        items.push(SharedItem {
            key: owned(secret.key.as_str()),
            value: secret.value.clone(),
            source_scope: secret.scope.to_string(),
        });
        i += 1;
    }
    assert(items@.map_values(|i: SharedItem| item_view(i)) =~= selected@.map_values(
        |rs: ResolvedSecret| item_of(rs),
    ));
    Ok(ShareBundle { version: 1, sender, profile: owned(profile), created_at, items })
}

/// `c` opens to `plaintext` with the identity of any of `recipients`.
pub open spec fn sealed_for(recipients: Seq<String>, plaintext: Seq<u8>, c: Seq<u8>) -> bool {
    forall|secret: Seq<char>, k: int|
        #![trigger identity_recipient(secret), recipients[k]]
        0 <= k < recipients.len() && identity_recipient(secret) == Some(recipients[k]@) ==> age_open(
            secret,
            c,
        ) == Some(plaintext)
}

/// The serialised bundle `plaintext`, encrypted to every one of `recipients`
/// and armored.
pub fn seal_bundle(recipients: &[String], plaintext: &[u8]) -> (r: Result<Vec<u8>, EnvError>)
    ensures
        r matches Ok(c) ==> sealed_for(recipients@, plaintext@, c@),
        r is Ok <==> recipients@.len() > 0 && all_usable(recipients@),
        recipients@.len() == 0 ==> r == Err::<Vec<u8>, EnvError>(EnvError::NoRecipients),
        r matches Err(e) ==> (e is NoRecipients && recipients@.len() == 0) || (e is InvalidRecipient
            && first_invalid(recipients@, e->InvalidRecipient_0@)),
{
    if recipients.len() == 0 {
        return Err(EnvError::NoRecipients);
    }
    let mut k: usize = 0;
    while k < recipients.len()
        invariant
            k <= recipients@.len(),
            forall|t: int| 0 <= t < k ==> recipient_usable((#[trigger] recipients@[t])@),
        decreases recipients@.len() - k,
    {
        if !recipient_accepted(recipients[k].as_str()) {
            let n = recipients[k].clone();
            assert(recipients@[k as int]@ == n@);
            assert(first_invalid(recipients@, n@));
            return Err(EnvError::InvalidRecipient(n));
        }
        k += 1;
    }
    match encrypt_armored(recipients, plaintext) {
        Some(c) => Ok(c),
        None => {
            assert(false);
            Err(EnvError::NoRecipients)
        },
    }
}

/// The plaintext of the share bundle `ciphertext`, decrypted with this
/// workspace's identity (made and stored first when there is none). The
/// caller parses it and stores its items with [`apply_bundle`].
pub fn open_bundle<S: SecretStore>(store: &mut S, ciphertext: &[u8]) -> (r: Result<Vec<u8>, EnvError>)
    requires
        S::obeys_store_model(),
    ensures
        r matches Ok(p) ==> exists|s: Seq<char>|
            holds_identity(old(store).secrets(), final(store).secrets(), s) && age_open(s, ciphertext@)
                == Some(p@),
        r matches Err(e) ==> (e is BundleDecryptFailed ==> exists|s: Seq<char>|
            holds_identity(old(store).secrets(), final(store).secrets(), s) && age_open(
                s,
                ciphertext@,
            ) is None),
        r matches Err(e) ==> e is BundleDecryptFailed || e is Store || e is NotUtf8 || e is IdentityUnparseable,
{
    let identity = load_or_generate_identity(store)?;
    match decrypt_with(identity.as_str(), ciphertext) {
        Some(p) => Ok(p),
        None => Err(EnvError::BundleDecryptFailed),
    }
}

/// A bundle sealed for the recipient of a workspace's identity opens there
/// to the plaintext it was sealed from.
pub proof fn law_share_roundtrip(
    recipients: Seq<String>,
    plaintext: Seq<u8>,
    c: Seq<u8>,
    secret: Seq<char>,
    k: int,
)
    requires
        sealed_for(recipients, plaintext, c),
        0 <= k < recipients.len(),
        identity_recipient(secret) == Some(recipients[k]@),
    ensures
        age_open(secret, c) == Some(plaintext),
{
}

/// The items of a bundle as key and value.
pub open spec fn bundle_entries(items: Seq<SharedItem>) -> Seq<(Seq<char>, Seq<char>)> {
    items.map_values(|i: SharedItem| (i.key@, i.value@))
}

/// The rows after writing the entries `es` in order: one row per entry, in
/// the given scope, project and profile.
pub open spec fn rows_written(
    es: Seq<(Seq<char>, Seq<char>)>,
    scope: Scope,
    project: Option<ProjectRecord>,
    profile: Seq<char>,
    old_rows: Seq<VarMetadata>,
    new_rows: Seq<VarMetadata>,
) -> bool {
    exists|ms: Seq<VarMetadata>|
        ms.len() == es.len() && new_rows == upserted_all(old_rows, ms) && forall|k: int|
            0 <= k < ms.len() ==> written_row(#[trigger] ms[k], es[k].0, scope, project, profile, None)
}

/// An error that marks a key as invalid.
pub open spec fn is_key_fault(e: EnvError) -> bool {
    e is EmptyKey || e is KeyBadStart || e is KeyBadChar
}

/// An error that comes before the write of the failing item touched the
/// store: a bad key, no project, an empty profile or the clock.
pub open spec fn write_not_begun(e: EnvError) -> bool {
    e is EmptyKey || e is KeyBadStart || e is KeyBadChar || e is NoProject || e is EmptyProfile
        || e is ClockBeforeEpoch
}

/// Stores every item of a pulled bundle in the scope chosen from
/// `desired_scope` and the project containing `cwd`, one write per item in
/// order; a bundle without items is refused.
pub fn apply_bundle<S: SecretStore>(
    app: &mut EasyEnv<S>,
    cwd: &str,
    desired_scope: DesiredScope,
    profile: &str,
    bundle: ShareBundle,
) -> (r: Result<ShareImport, EnvError>)
    requires
        S::obeys_store_model(),
    ensures
        final(app).paths_view() == old(app).paths_view(),
        final(app).projects() == old(app).projects(),
        bundle.items@.len() == 0 ==> r == Err::<ShareImport, EnvError>(EnvError::EmptyBundle),
        r matches Ok(out) ==> ({
            let c = scope_choice(desired_scope, old(app).active_spec(cwd@), cwd@)->Ok_0;
            &&& scope_choice(desired_scope, old(app).active_spec(cwd@), cwd@) is Ok
            &&& profile_of(profile@) is Ok
            &&& out.item_count == bundle.items@.len()
            &&& out.item_count > 0
            &&& out.sender@ == bundle.sender@
            &&& out.scope == c.0
            &&& forall|t: int|
                0 <= t < bundle.items@.len() ==> is_valid_key((#[trigger] bundle.items@[t]).key@)
            &&& import_wrote(
                bundle_entries(bundle.items@),
                c.0,
                c.1,
                profile_of(profile@)->Ok_0,
                old(app).rows(),
                final(app).rows(),
                final(app).secrets(),
            )
        }),
        bundle.items@.len() == 0 ==> final(app).rows() == old(app).rows() && final(app).secrets() == old(
            app,
        ).secrets(),
        r matches Err(e) ==> bundle.items@.len() > 0 ==> ({
            let c = scope_choice(desired_scope, old(app).active_spec(cwd@), cwd@)->Ok_0;
            let p = profile_of(profile@)->Ok_0;
            exists|n: int|
                0 <= n < bundle.items@.len() && #[trigger] rows_written(
                    bundle_entries(bundle.items@).take(n),
                    c.0,
                    c.1,
                    p,
                    old(app).rows(),
                    final(app).rows(),
                ) && (write_not_begun(e) ==> import_wrote(
                    bundle_entries(bundle.items@).take(n),
                    c.0,
                    c.1,
                    p,
                    old(app).rows(),
                    final(app).rows(),
                    final(app).secrets(),
                )) && (is_key_fault(e) ==> key_fault(bundle.items@[n].key@) == Some(e) && forall|t: int|
                    0 <= t < n ==> is_valid_key((#[trigger] bundle.items@[t]).key@))
        }),
        r matches Err(e) ==> ({
            ||| (e is EmptyBundle && bundle.items@.len() == 0)
            ||| (exists|t: int|
                0 <= t < bundle.items@.len() && key_fault((#[trigger] bundle.items@[t]).key@) == Some(e))
            ||| (e is NoProject && e->NoProject_0@ == cwd@)
            ||| profile_of(profile@) == Err::<Seq<char>, EnvError>(e)
            ||| writes_fault(e, old(app).secrets(), bundle_entries(bundle.items@))
        }),
{
    let ghost es = bundle_entries(bundle.items@);
    let ghost active = old(app).active_spec(cwd@);
    let ghost c = scope_choice(desired_scope, active, cwd@)->Ok_0;
    let ghost p = profile_of(profile@)->Ok_0;
    let ghost mut ms: Seq<VarMetadata> = Seq::empty();
    let mut count: usize = 0;
    let mut final_scope: Option<Scope> = None;
    while count < bundle.items.len()
        invariant
            S::obeys_store_model(),
            count <= bundle.items@.len(),
            es == bundle_entries(bundle.items@),
            es.len() == bundle.items@.len(),
            active == old(app).active_spec(cwd@),
            c == scope_choice(desired_scope, active, cwd@)->Ok_0,
            p == profile_of(profile@)->Ok_0,
            app.paths_view() == old(app).paths_view(),
            app.projects() == old(app).projects(),
            count > 0 ==> profile_of(profile@) == Ok::<Seq<char>, EnvError>(p),
            count > 0 ==> scope_choice(desired_scope, active, cwd@) is Ok,
            count > 0 <==> final_scope is Some,
            final_scope matches Some(sc) ==> sc == c.0,
            forall|t: int| 0 <= t < count ==> is_valid_key((#[trigger] bundle.items@[t]).key@),
            import_took_effect(es.take(count as int), ms, c.0, c.1, p, old(app).rows(), app.rows(), app.secrets()),
            count == 0 ==> app.rows() == old(app).rows() && app.secrets() == old(app).secrets(),
            master_kept(old(app).secrets(), app.secrets()),
        decreases bundle.items@.len() - count,
    {
        let ghost before_rows = app.rows();
        let ghost before_secrets = app.secrets();
        let ghost prev = ms;
        proof {
            assert(rows_written(es.take(count as int), c.0, c.1, p, old(app).rows(), app.rows()));
            assert(import_wrote(es.take(count as int), c.0, c.1, p, old(app).rows(), app.rows(), app.secrets()));
        }
        let key = match EnvKey::parse(bundle.items[count].key.as_str()) {
            Ok(k) => k,
            Err(e) => {
                proof {
                    assert(key_fault(bundle.items@[count as int].key@) == Some(e));
                    assert(rows_written(es.take(count as int), c.0, c.1, p, old(app).rows(), app.rows()));
                }
                return Err(e);
            },
        };
        let stored = match app.set_secret(cwd, desired_scope, profile, key, bundle.items[count].value.as_str(), None) {
            Ok(st) => st,
            Err(e) => {
                proof {
                    assert(rows_written(es.take(count as int), c.0, c.1, p, old(app).rows(), app.rows()));
                    assert(es[count as int].1 == bundle.items@[count as int].value@);
                    if write_fault(e, before_secrets, es[count as int].1) {
                        lemma_write_fault_in_series(e, old(app).secrets(), before_secrets, es, count as int);
                    }
                    if write_not_begun(e) {
                        assert(app.secrets() == before_secrets);
                        assert(import_wrote(es.take(count as int), c.0, c.1, p, old(app).rows(), app.rows(), app.secrets()));
                    }
                }
                return Err(e);
            },
        };
        proof {
            let m = choose|m: VarMetadata|
                written_row(m, es[count as int].0, stored.scope, c.1, stored.profile@, None)
                    && write_took_effect(before_rows, app.rows(), app.secrets(), m, es[count as int].1)
                    && item_written(before_secrets, app.secrets(), var_item(m)->Some_0);
            lemma_import_step(
                es,
                count as int,
                prev,
                m,
                c.0,
                c.1,
                p,
                old(app).rows(),
                before_rows,
                app.rows(),
                before_secrets,
                app.secrets(),
            );
            crate::service::lemma_var_item_not_master(m);
            lemma_master_kept_step(old(app).secrets(), before_secrets, app.secrets(), var_item(m)->Some_0);
            ms = prev.push(m);
        }
        final_scope = Some(stored.scope);
        count += 1;
    }
    proof {
        assert(es.take(es.len() as int) =~= es);
    }
    match final_scope {
        Some(scope) => {
            assert(import_wrote(es, c.0, c.1, p, old(app).rows(), app.rows(), app.secrets()));
            Ok(ShareImport { sender: bundle.sender, item_count: count, scope })
        },
        None => Err(EnvError::EmptyBundle),
    }
}

} // verus!
