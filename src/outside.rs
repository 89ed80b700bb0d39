//! The calls into outside crates that the engine relies on, with what it assumes
//! of each.

use vstd::prelude::*;

verus! {

/// Whether bcrypt accepts `password` against the stored hash `hashed`.
pub uninterp spec fn bcrypt_accepts(password: Seq<char>, hashed: Seq<char>) -> bool;

/// Hashes a password with a fresh random salt at bcrypt's default cost.
///
/// Relies on `bcrypt::hash`, which returns an error only for a cost outside 4..=31
/// and is called here with `bcrypt::DEFAULT_COST`; it panics only where the
/// operating system's random source fails. The salt is random, so nothing is
/// promised of the result.
#[verifier::external_body]
pub fn hash_password(plain: &str) -> (r: String) {
    bcrypt::hash(plain, bcrypt::DEFAULT_COST).expect("bcrypt rejected its default cost")
}

/// Checks a password against a stored hash.
///
/// Relies on `bcrypt::verify`: the answer depends on the two arguments alone; a
/// malformed hash gives an error, read here as a refusal.
#[verifier::external_body]
pub fn verify_password(plain: &str, hashed: &str) -> (r: bool)
    ensures
        r == bcrypt_accepts(plain@, hashed@),
{
    bcrypt::verify(plain, hashed).unwrap_or(false)
}

/// A fresh market identifier.
///
/// Relies on `nanoid::format` with nanoid's default random source and its URL-safe
/// alphabet (what `nanoid!()` expands to): 21 characters drawn at random.
#[verifier::external_body]
pub(crate) fn fresh_market_id() -> (r: String)
    ensures
        r@.len() == 21,
{
    nanoid::format(nanoid::rngs::default, &nanoid::alphabet::SAFE, 21)
}

/// The current time, in milliseconds since the Unix epoch.
///
/// Relies on `chrono::Utc::now` and `DateTime::timestamp_millis`; the time is read
/// from the machine, so nothing is promised of it.
#[verifier::external_body]
pub(crate) fn now_millis() -> (r: i64) {
    chrono::Utc::now().timestamp_millis()
}

} // verus!
