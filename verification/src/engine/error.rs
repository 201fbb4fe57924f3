//! Errors produced by the storage engine.

use vstd::prelude::*;

use super::text;

verus! {

/// Everything that can go wrong inside the storage engine.
///
/// Payloads are deliberately coarse: no variant ever carries a password, a
/// key or plaintext.
#[derive(Debug)]
pub enum VaultError {
    /// The container could not be read or written at the requested place.
    Io(&'static str),
    /// The leading magic bytes are not those of a `.rvlt` container.
    NotARvltFile,
    /// The container's format version lies outside the supported range.
    UnsupportedVersion { found: u32, min: u32, max: u32 },
    /// The container is malformed in the way the message says.
    CorruptContainer(&'static str),
    /// A stored checksum does not match the bytes it covers.
    ChecksumMismatch(&'static str),
    /// The password does not unwrap the content key.
    IncorrectPassword,
    /// A cryptographic primitive refused its input.
    CryptoFailure,
    /// The requested capacity does not hold a single block.
    CapacityTooSmall,
    /// The vault has too few free blocks.
    InsufficientSpace { requested: u64, available: u64 },
    /// Every file slot is in use.
    FileTableFull,
    /// No file of this name is stored.
    FileNotFound(String),
    /// A file of this name is stored already.
    FileAlreadyExists(String),
    /// The integrity chain, a signature or a content hash does not check out.
    IntegrityViolation(&'static str),
    /// A name or description does not fit its field.
    FieldTooLong,
    /// The vault has not been unlocked.
    VaultLocked,
    /// The handle does not carry the admin identity.
    NotAuthorized,
    /// The identity holds no recipient slot.
    AccessNotGranted,
    /// The identity holds a recipient slot already.
    AlreadyGranted,
    /// Every recipient slot is in use.
    RecipientTableFull,
    /// A remote peer reported this error.
    Remote(String),
}

/// The mathematical value of a [`VaultError`].
pub enum Fault {
    Io(&'static str),
    NotARvltFile,
    UnsupportedVersion { found: u32, min: u32, max: u32 },
    CorruptContainer(&'static str),
    ChecksumMismatch(&'static str),
    IncorrectPassword,
    CryptoFailure,
    CapacityTooSmall,
    InsufficientSpace { requested: int, available: int },
    FileTableFull,
    FileNotFound(Seq<char>),
    FileAlreadyExists(Seq<char>),
    IntegrityViolation(&'static str),
    FieldTooLong,
    VaultLocked,
    NotAuthorized,
    AccessNotGranted,
    AlreadyGranted,
    RecipientTableFull,
    Remote(Seq<char>),
}

impl View for VaultError {
    type V = Fault;

    open spec fn view(&self) -> Fault {
        match self {
            VaultError::Io(m) => Fault::Io(m),
            VaultError::NotARvltFile => Fault::NotARvltFile,
            VaultError::UnsupportedVersion { found, min, max } => Fault::UnsupportedVersion {
                found: *found,
                min: *min,
                max: *max,
            },
            VaultError::CorruptContainer(m) => Fault::CorruptContainer(m),
            VaultError::ChecksumMismatch(m) => Fault::ChecksumMismatch(m),
            VaultError::IncorrectPassword => Fault::IncorrectPassword,
            VaultError::CryptoFailure => Fault::CryptoFailure,
            VaultError::CapacityTooSmall => Fault::CapacityTooSmall,
            VaultError::InsufficientSpace { requested, available } => Fault::InsufficientSpace {
                requested: *requested as int,
                available: *available as int,
            },
            VaultError::FileTableFull => Fault::FileTableFull,
            VaultError::FileNotFound(n) => Fault::FileNotFound(n@),
            VaultError::FileAlreadyExists(n) => Fault::FileAlreadyExists(n@),
            VaultError::IntegrityViolation(m) => Fault::IntegrityViolation(m),
            VaultError::FieldTooLong => Fault::FieldTooLong,
            VaultError::VaultLocked => Fault::VaultLocked,
            VaultError::NotAuthorized => Fault::NotAuthorized,
            VaultError::AccessNotGranted => Fault::AccessNotGranted,
            VaultError::AlreadyGranted => Fault::AlreadyGranted,
            VaultError::RecipientTableFull => Fault::RecipientTableFull,
            VaultError::Remote(m) => Fault::Remote(m@),
        }
    }
}

impl Fault {
    /// What a user is told.
    pub open spec fn message(self) -> Seq<char> {
        match self {
            Fault::Io(m) => "I/O error: "@ + m@,
            Fault::NotARvltFile => "the file is not a valid .rvlt container (bad magic bytes)"@,
            Fault::UnsupportedVersion { found, min, max } => "unsupported .rvlt format version: "@
                + text::decimal_of(found as nat) + " (supported: "@ + text::decimal_of(min as nat)
                + "..="@ + text::decimal_of(max as nat) + ")"@,
            Fault::CorruptContainer(m) => ".rvlt container is corrupted or malformed: "@ + m@,
            Fault::ChecksumMismatch(m) => "checksum mismatch while reading "@ + m@,
            Fault::IncorrectPassword => "incorrect password"@,
            Fault::CryptoFailure => "cryptographic operation failed"@,
            Fault::CapacityTooSmall => "requested capacity is too small to hold vault metadata"@,
            Fault::InsufficientSpace { requested, available } =>
            "not enough free space in vault (requested "@ + text::decimal_of(requested as nat)
                + " bytes, available "@ + text::decimal_of(available as nat) + " bytes)"@,
            Fault::FileTableFull => "file table is full; vault cannot track any more files"@,
            Fault::FileNotFound(n) => "no file named '"@ + n + "' exists in this vault"@,
            Fault::FileAlreadyExists(n) => "a file named '"@ + n
                + "' already exists in this vault"@,
            Fault::IntegrityViolation(m) => "integrity chain verification failed: "@ + m@,
            Fault::FieldTooLong =>
            "name/description/filename exceeds the maximum stored length"@,
            Fault::VaultLocked => "vault is locked; unlock it with the correct password first"@,
            Fault::NotAuthorized =>
            "this vault was opened without admin privileges; only the vault's admin can modify it"@,
            Fault::AccessNotGranted =>
            "no matching recipient access was found for this identity"@,
            Fault::AlreadyGranted => "this identity already has access to the vault"@,
            Fault::RecipientTableFull =>
            "recipient table is full; revoke an existing peer before granting a new one"@,
            Fault::Remote(m) => "remote peer reported an error: "@ + m,
        }
    }
}

impl VaultError {
    /// What a user is told. No message ever holds a password, a key or
    /// plaintext.
    pub fn message(&self) -> (r: String)
        ensures
            r@ == self@.message(),
    {
        match self {
            VaultError::Io(m) => text::concat("I/O error: ", m),
            VaultError::NotARvltFile =>
            "the file is not a valid .rvlt container (bad magic bytes)".to_owned(),
            VaultError::UnsupportedVersion { found, min, max } => {
                let mut out = "unsupported .rvlt format version: ".to_owned();
                out.append(text::decimal(*found as u64).as_str());
                out.append(" (supported: ");
                out.append(text::decimal(*min as u64).as_str());
                out.append("..=");
                out.append(text::decimal(*max as u64).as_str());
                out.append(")");
                out
            },
            VaultError::CorruptContainer(m) => text::concat(
                ".rvlt container is corrupted or malformed: ",
                m,
            ),
            VaultError::ChecksumMismatch(m) => text::concat("checksum mismatch while reading ", m),
            VaultError::IncorrectPassword => "incorrect password".to_owned(),
            VaultError::CryptoFailure => "cryptographic operation failed".to_owned(),
            VaultError::CapacityTooSmall =>
            "requested capacity is too small to hold vault metadata".to_owned(),
            VaultError::InsufficientSpace { requested, available } => {
                let mut out = "not enough free space in vault (requested ".to_owned();
                out.append(text::decimal(*requested).as_str());
                out.append(" bytes, available ");
                out.append(text::decimal(*available).as_str());
                out.append(" bytes)");
                out
            },
            VaultError::FileTableFull =>
            "file table is full; vault cannot track any more files".to_owned(),
            VaultError::FileNotFound(n) => {
                let mut out = text::concat("no file named '", n.as_str());
                out.append("' exists in this vault");
                out
            },
            VaultError::FileAlreadyExists(n) => {
                let mut out = text::concat("a file named '", n.as_str());
                out.append("' already exists in this vault");
                out
            },
            VaultError::IntegrityViolation(m) => text::concat(
                "integrity chain verification failed: ",
                m,
            ),
            VaultError::FieldTooLong =>
            "name/description/filename exceeds the maximum stored length".to_owned(),
            VaultError::VaultLocked =>
            "vault is locked; unlock it with the correct password first".to_owned(),
            VaultError::NotAuthorized =>
            "this vault was opened without admin privileges; only the vault's admin can modify it".to_owned(),
            VaultError::AccessNotGranted =>
            "no matching recipient access was found for this identity".to_owned(),
            VaultError::AlreadyGranted =>
            "this identity already has access to the vault".to_owned(),
            VaultError::RecipientTableFull =>
            "recipient table is full; revoke an existing peer before granting a new one".to_owned(),
            VaultError::Remote(m) => text::concat("remote peer reported an error: ", m.as_str()),
        }
    }
}

/// What an engine operation returns.
pub type Result<T> = core::result::Result<T, VaultError>;

/// The mathematical value of an operation's result.
pub open spec fn outcome<T: View>(r: core::result::Result<T, VaultError>) -> core::result::Result<
    T::V,
    Fault,
> {
    match r {
        Ok(x) => Ok(x@),
        Err(e) => Err(e@),
    }
}

/// What a user is told of a file names the file, and tells a missing file from one
/// that is there already.
pub proof fn law_messages_name_the_file(a: Seq<char>, b: Seq<char>)
    ensures
        Fault::FileNotFound(a).message() == Fault::FileNotFound(b).message() <==> a == b,
        Fault::FileAlreadyExists(a).message() == Fault::FileAlreadyExists(b).message() <==> a == b,
        Fault::FileNotFound(a).message() != Fault::FileAlreadyExists(b).message(),
        Fault::Remote(a).message() == Fault::Remote(b).message() <==> a == b,
{
    reveal_strlit("no file named '");
    reveal_strlit("' exists in this vault");
    reveal_strlit("a file named '");
    reveal_strlit("' already exists in this vault");
    reveal_strlit("remote peer reported an error: ");
    let x = Fault::FileNotFound(a).message();
    let y = Fault::FileNotFound(b).message();
    assert(x.subrange(15, x.len() - 22) =~= a);
    assert(y.subrange(15, y.len() - 22) =~= b);
    assert(x[0] == 'n');
    let x = Fault::FileAlreadyExists(a).message();
    let y = Fault::FileAlreadyExists(b).message();
    assert(x.subrange(14, x.len() - 30) =~= a);
    assert(y.subrange(14, y.len() - 30) =~= b);
    assert(y[0] == 'a');
    let x = Fault::Remote(a).message();
    let y = Fault::Remote(b).message();
    assert(x.skip(31) =~= a);
    assert(y.skip(31) =~= b);
}

} // verus!
