//! The errors this library reports.

use vstd::prelude::*;

use crate::domain::EnvKey;
use crate::store::StoreError;

verus! {

/// Why an operation of the library was refused.
#[derive(Debug, PartialEq, Eq)]
pub enum EnvError {
    /// An env key was empty.
    EmptyKey,
    /// An env key started with something other than a letter or `_`.
    KeyBadStart,
    /// An env key held something other than ASCII letters, digits or `_`.
    KeyBadChar,
    /// A scope name was none of `global`, `project`, `shell`; holds the
    /// trimmed, lower-cased name.
    InvalidScope(String),
    /// A profile name was empty once trimmed.
    EmptyProfile,
    /// A project-scope variable carried no project id.
    MissingProjectId,
    /// Shell-scope values are never stored.
    ShellNotStored,
    /// A dotenv line (1-based) had no `=`.
    DotenvMissingEquals(usize),
    /// A dotenv line (1-based) opened a double quote and never closed it.
    DotenvUnterminatedDouble(usize),
    /// A dotenv line (1-based) opened a single quote and never closed it.
    DotenvUnterminatedSingle(usize),
    /// A master key was not 32 bytes long.
    BadKeyLength,
    /// The system random source failed while making a master key.
    KeyGenerationFailed,
    /// The system random source failed while making a nonce.
    NonceGenerationFailed,
    /// The cipher refused to encrypt (the plaintext is too long).
    EncryptFailed,
    /// An encrypted payload is shorter than its header.
    PayloadTruncated,
    /// An encrypted payload does not start with the expected magic bytes.
    PayloadBadHeader,
    /// An encrypted payload carries an unsupported version byte.
    PayloadBadVersion,
    /// Authentication of an encrypted payload failed.
    DecryptFailed,
    /// The system clock reads a time before the Unix epoch.
    ClockBeforeEpoch,
    /// A project could not be registered: another project already has its id.
    ProjectIdTaken,
    /// Metadata rows repeat a key or hold a value the database refuses.
    CorruptMetadata,
    /// No registered project contains the given directory.
    NoProject(String),
    /// The master key in the secret store is not 32 bytes long.
    StoredKeyLength,
    /// A decrypted value is not valid UTF-8.
    NotUtf8,
    /// The secret store failed.
    Store(StoreError),
    /// Both `--global` and `--project` were given.
    ConflictingScopeFlags,
    /// An assignment was given both as `KEY=value` and with a separate value.
    AssignmentBothForms,
    /// An assignment had no value.
    AssignmentMissingValue,
    /// A shell override was not of the form `KEY=value`.
    OverrideMissingEquals,
    /// A share was asked for without a recipient.
    NoRecipients,
    /// A share was asked for without a key and without `--all`.
    NoSelection,
    /// No value is stored under the key.
    NotFound(EnvKey),
    /// An age recipient did not parse, or has a key of low order that no
    /// bundle can be sealed for; holds the recipient as given.
    InvalidRecipient(String),
    /// The stored workspace identity did not parse.
    IdentityUnparseable,
    /// A share bundle could not be decrypted with the workspace identity.
    BundleDecryptFailed,
    /// A share bundle held no items.
    EmptyBundle,
    /// A key started with a digit.
    KeyLeadingDigit,
    /// An assignment had no `=`.
    AssignmentMissingEquals,
    /// A quoted value had no closing quote.
    UnterminatedQuote,
    /// The current directory is not inside a project.
    NotInProject,
    /// No value is set for the key, which is held.
    NoValue(String),
}

} // verus!
