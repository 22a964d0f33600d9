//! Users of the search API and their password hashes.
use vstd::prelude::*;
use vstd::utf8::encode_utf8;

verus! {

/// A user that can authenticate to the API, with an Argon2 PHC hash string.
#[derive(Debug)]
pub struct User {
    pub username: String,
    pub password_hash: String,
}

/// Why a password could not be hashed.
#[derive(Debug, Clone, Copy, PartialEq, Eq, Structural)]
pub struct HashError;

pub uninterp spec fn argon2_hash_of(password: Seq<char>, salt: Seq<u8>) -> Seq<char>;

/// Relies on argon2: the salt encoded by `SaltString::encode_b64`, then
/// `Argon2::default().hash_password` as a PHC string. A salt of under three
/// bytes encodes to fewer characters than a salt string holds, on which
/// password-hash panics, so it is left out. With the default parameters the
/// hash fails only for a salt under 8 bytes, a salt whose encoding exceeds 64
/// characters (over 48 bytes), or a password over `u32::MAX` bytes.
#[verifier::external_body]
fn argon2_hash(password: &str, salt: &[u8]) -> (r: Option<String>)
    requires
        salt@.len() >= 3,
    ensures
        8 <= salt@.len() <= 48 && encode_utf8(password@).len() <= 0xFFFF_FFFF ==> r is Some,
        r matches Some(h) ==> h@ == argon2_hash_of(password@, salt@),
{
    let salt = match argon2::password_hash::SaltString::encode_b64(salt) {
        Ok(s) => s,
        Err(_) => return None,
    };
    match argon2::PasswordHasher::hash_password(&argon2::Argon2::default(), password.as_bytes(), &salt) {
        Ok(h) => Some(h.to_string()),
        Err(_) => None,
    }
}

pub uninterp spec fn argon2_verifies(hash: Seq<char>, password: Seq<char>) -> bool;

/// Salts shorter than this are refused.
pub const MIN_SALT_LENGTH: usize = 8;

/// Salts longer than this are refused.
pub const MAX_SALT_LENGTH: usize = 48;

/// Relies on argon2: `PasswordHash::new` parses the PHC string and
/// `Argon2::default().verify_password` checks the password against it; a hash
/// that does not parse verifies nothing.
#[verifier::external_body]
fn argon2_verify(hash: &str, password: &str) -> (r: bool)
    ensures
        r == argon2_verifies(hash@, password@),
{
    match argon2::PasswordHash::new(hash) {
        Ok(h) => argon2::PasswordVerifier::verify_password(&argon2::Argon2::default(), password.as_bytes(), &h).is_ok(),
        Err(_) => false,
    }
}

impl User {
    /// A user whose password is hashed with the random `salt` the caller drew;
    /// a salt outside `MIN_SALT_LENGTH..=MAX_SALT_LENGTH` bytes, or a password
    /// over `u32::MAX` bytes, is refused.
    pub fn new(username: &str, password: &str, salt: &[u8]) -> (r: Result<User, HashError>)
        ensures
            r is Ok <==> MIN_SALT_LENGTH <= salt@.len() <= MAX_SALT_LENGTH && encode_utf8(
                password@,
            ).len() <= 0xFFFF_FFFF,
            r matches Ok(u) ==> u.username@ == username@ && u.password_hash@ == argon2_hash_of(
                password@,
                salt@,
            ),
    {
        if salt.len() < MIN_SALT_LENGTH || salt.len() > MAX_SALT_LENGTH || password.as_bytes().len()
            > 0xFFFF_FFFF {
            return Err(HashError);
        }
        match argon2_hash(password, salt) {
            Some(password_hash) => Ok(User { username: username.to_owned(), password_hash }),
            None => Err(HashError),
        }
    }

    /// Whether `password` is this user's password.
    pub fn verify_password(&self, password: &str) -> (r: bool)
        ensures
            r == argon2_verifies(self.password_hash@, password@),
    {
        argon2_verify(self.password_hash.as_str(), password)
    }
}

} // verus!
