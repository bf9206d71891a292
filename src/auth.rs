use vstd::prelude::*;

use argon2::password_hash::{PasswordHash, PasswordHasher, PasswordVerifier, SaltString};
use argon2::Argon2;
use rand_core::RngCore;
use vstd::string::StringSliceAdditionalSpecFns;

verus! {

#[verifier::external_type_specification]
#[verifier::external_body]
pub struct ExPasswordHashError(argon2::password_hash::Error);

#[verifier::external_type_specification]
#[verifier::external_body]
pub struct ExRandError(rand_core::Error);

/// Number of random bytes in a salt.
pub const SALT_LEN: usize = 16;

/// Largest password, in bytes, that Argon2 hashes.
pub const MAX_PASSWORD_BYTES: u64 = 0xFFFF_FFFF;

/// Hashing a password failed.
#[derive(Clone, Copy, Debug, PartialEq, Eq, Structural)]
pub enum HashError {
    /// Argon2 refused the password or the salt.
    Hashing,
    /// The operating system's random source reported an error.
    RandomSource,
}

/// Whether `PasswordHash::new` accepts the string as a PHC hash string.
pub uninterp spec fn parses_as_phc(s: Seq<char>) -> bool;

/// Whether Argon2 with default parameters, hashing `password` as the PHC
/// string `phc` says, reproduces its output.
pub uninterp spec fn argon2_accepts(password: Seq<char>, phc: Seq<char>) -> bool;

/// The PHC string of `password` hashed by Argon2 with default parameters under
/// the salt bytes `salt`.
pub uninterp spec fn phc_of(password: Seq<char>, salt: Seq<u8>) -> Seq<char>;

/// `password` matches the stored PHC string `phc`.
pub open spec fn verifies(password: Seq<char>, phc: Seq<char>) -> bool {
    parses_as_phc(phc) && argon2_accepts(password, phc)
}

/// Relies on RngCore::try_fill_bytes of OsRng: fills the buffer from the
/// operating system's random source, or returns the error that source reports.
#[verifier::external_body]
fn fill_random(buf: &mut Vec<u8>) -> (r: Result<(), rand_core::Error>)
    ensures
        final(buf)@.len() == old(buf)@.len(),
{
    rand_core::OsRng.try_fill_bytes(buf.as_mut_slice())
}

/// Relies on PasswordHasher::hash_password of Argon2 with default parameters,
/// the salt bytes taken as a salt string by SaltString::encode_b64 (a salt
/// string under four characters would panic, hence the fixed length): the PHC
/// string of the hash. It fails only on a password over `MAX_PASSWORD_BYTES`
/// bytes, and the string it gives parses and verifies against the same
/// password.
#[verifier::external_body]
fn argon2_hash(password: &str, salt: &[u8]) -> (r: Result<String, argon2::password_hash::Error>)
    requires
        salt@.len() == SALT_LEN,
    ensures
        password.spec_bytes().len() <= MAX_PASSWORD_BYTES ==> r is Ok,
        r matches Ok(h) ==> h@ == phc_of(password@, salt@) && verifies(password@, h@),
{
    let salt = SaltString::encode_b64(salt)?;
    match Argon2::default().hash_password(password.as_bytes(), &salt) {
        Ok(h) => Ok(h.to_string()),
        Err(e) => Err(e),
    }
}

/// Relies on PasswordHash::new, which parses a PHC string and refuses an empty
/// one, and on PasswordVerifier::verify_password of Argon2 with default
/// parameters on what it parsed.
#[verifier::external_body]
fn argon2_verify(password: &str, phc: &str) -> (r: Result<bool, argon2::password_hash::Error>)
    ensures
        r is Ok == parses_as_phc(phc@),
        phc@.len() == 0 ==> r is Err,
        r matches Ok(b) ==> b == argon2_accepts(password@, phc@),
{
    let hash = PasswordHash::new(phc)?;
    Ok(Argon2::default().verify_password(password.as_bytes(), &hash).is_ok())
}

/// Hashes a password with Argon2 under the given salt of `SALT_LEN` bytes, as
/// a PHC string; a salt of another length is refused.
pub fn hash_password_with_salt(password: &str, salt: &[u8]) -> (r: Result<String, HashError>)
    ensures
        salt@.len() == SALT_LEN && password.spec_bytes().len() <= MAX_PASSWORD_BYTES ==> r is Ok,
        salt@.len() != SALT_LEN ==> r == Err::<String, HashError>(HashError::Hashing),
        r matches Ok(h) ==> h@ == phc_of(password@, salt@) && verifies(password@, h@),
        r matches Err(e) ==> e == HashError::Hashing,
{
    if salt.len() != SALT_LEN {
        return Err(HashError::Hashing);
    }
    match argon2_hash(password, salt) {
        Ok(h) => Ok(h),
        Err(_) => Err(HashError::Hashing),
    }
}

/// Hashes a password with Argon2 under a fresh random salt, as a PHC string.
pub fn hash_password(password: &str) -> (r: Result<String, HashError>)
    ensures
        r matches Ok(h) ==> verifies(password@, h@) && exists|s: Seq<u8>|
            s.len() == SALT_LEN && h@ == phc_of(password@, s),
        r == Err::<String, HashError>(HashError::Hashing) ==> password.spec_bytes().len() > MAX_PASSWORD_BYTES,
{
    let mut salt: Vec<u8> = Vec::new();
    let mut i: usize = 0;
    while i < SALT_LEN
        invariant
            i <= SALT_LEN,
            salt@.len() == i,
        decreases SALT_LEN - i,
    {
        salt.push(0);
        i = i + 1;
    }
    match fill_random(&mut salt) {
        Ok(()) => {},
        Err(_) => {
            return Err(HashError::RandomSource);
        },
    }
    hash_password_with_salt(password, salt.as_slice())
}

/// Whether `password` matches the stored PHC string `password_hash`; a stored
/// string that does not parse matches no password.
pub fn verify_password(password: &str, password_hash: &str) -> (r: bool)
    ensures
        r == verifies(password@, password_hash@),
        password_hash@.len() == 0 ==> !r,
{
    match argon2_verify(password, password_hash) {
        Ok(b) => b,
        Err(_) => false,
    }
}

/// Seconds for which an access token is valid.
pub const TOKEN_LIFETIME_SECS: u64 = 3600;

/// Expiry time of a token issued at `now` (seconds since the Unix epoch), or
/// `None` where it would not fit.
pub fn token_expiry(now: u64) -> (r: Option<u64>)
    ensures
        now + TOKEN_LIFETIME_SECS <= u64::MAX ==> r == Some((now + TOKEN_LIFETIME_SECS) as u64),
        now + TOKEN_LIFETIME_SECS > u64::MAX ==> r is None,
{
    now.checked_add(TOKEN_LIFETIME_SECS)
}

} // verus!
