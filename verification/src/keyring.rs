//! OpenPGP release verification: a clearsigned `InRelease` or a `Release`
//! with its detached signature is checked against every key of a keyring
//! (the signature checks themselves are `pgp`'s), and the policy decides
//! which keys count as signers and what a failed verification reports.

use std::io::Cursor;
use pgp::composed::{CleartextSignedMessage, Deserializable, DetachedSignature, SignedPublicKey};
use pgp::ser::Serialize;
use pgp::types::KeyDetails;
use vstd::prelude::*;
use crate::text::{own, push_str, str_eq, sviews, to_lowercase, lowercase};
use crate::pdiff::{hex_encode, hex_spec};

verus! {

/// Errors from keyring operations.
#[derive(Debug)]
pub enum KeyringError {
    Load(String),
    Verification(String),
    NoSignature,
    KeyExpired(String),
    KeyRevoked(String),
    /// The message of an I/O error.
    Io(String),
}

/// The message of an error.
pub open spec fn keyring_error_text(e: KeyringError) -> Seq<char> {
    match e {
        KeyringError::Load(m) => "failed to load key material: "@ + m@,
        KeyringError::Verification(m) => "signature verification failed: "@ + m@,
        KeyringError::NoSignature => "no valid signature found"@,
        KeyringError::KeyExpired(_) => "signing key has expired"@,
        KeyringError::KeyRevoked(_) => "signing key has been revoked"@,
        KeyringError::Io(m) => "I/O error: "@ + m@,
    }
}

impl KeyringError {
    /// The message of the error.
    pub fn to_string(&self) -> (r: String)
        ensures
            r@ == keyring_error_text(*self),
    {
        match self {
            KeyringError::Load(m) => {
                let mut out = own("failed to load key material: ");
                push_str(&mut out, m.as_str());
                out
            },
            KeyringError::Verification(m) => {
                let mut out = own("signature verification failed: ");
                push_str(&mut out, m.as_str());
                out
            },
            KeyringError::NoSignature => own("no valid signature found"),
            KeyringError::KeyExpired(_) => own("signing key has expired"),
            KeyringError::KeyRevoked(_) => own("signing key has been revoked"),
            KeyringError::Io(m) => {
                let mut out = own("I/O error: ");
                push_str(&mut out, m.as_str());
                out
            },
        }
    }
}

/// A hex-encoded OpenPGP key fingerprint.
#[derive(Debug, Clone, PartialEq, Eq, Hash)]
pub struct KeyId(pub String);

impl KeyId {
    /// The fingerprint text.
    pub fn to_string(&self) -> (r: String)
        ensures
            r@ == self.0@,
    {
        own(self.0.as_str())
    }
}

/// Result of a successful signature verification.
#[derive(Debug)]
pub struct VerifyResult {
    /// Fingerprints of keys that produced a valid signature.
    pub signed_by: Vec<KeyId>,
    /// The verified plaintext message.
    pub message: Vec<u8>,
}

/// What checking one key of the keyring against a signature found.
pub struct KeyCheck {
    /// The signature verifies with this key.
    pub verified: bool,
    /// The key's validity period has ended at the reference time.
    pub expired: bool,
    /// The key carries a revocation signature.
    pub revoked: bool,
    /// The key's fingerprint, in hex.
    pub fingerprint: String,
}

/// Abstract value of a [`KeyCheck`].
pub type CheckV = (bool, bool, bool, Seq<char>);

pub open spec fn check_views(v: Seq<KeyCheck>) -> Seq<CheckV> {
    Seq::new(v.len(), |i: int| (v[i].verified, v[i].expired, v[i].revoked, v[i].fingerprint@))
}

/// The key counts as a signer under the policy.
pub open spec fn accepted(c: CheckV, allow_expired: bool, allow_revoked: bool) -> bool {
    c.0 && (allow_expired || !c.1) && (allow_revoked || !c.2)
}

/// The fingerprints of the keys that count as signers, in keyring order.
pub open spec fn signers(cs: Seq<CheckV>, allow_expired: bool, allow_revoked: bool) -> Seq<Seq<char>>
    decreases cs.len(),
{
    if cs.len() == 0 {
        Seq::empty()
    } else {
        let r = signers(cs.drop_last(), allow_expired, allow_revoked);
        if accepted(cs.last(), allow_expired, allow_revoked) {
            r.push(cs.last().3)
        } else {
            r
        }
    }
}

/// Some key verifies but is refused for its expiry (checked before
/// revocation).
pub open spec fn expired_hit(cs: Seq<CheckV>, allow_expired: bool) -> bool {
    exists|i: int| 0 <= i < cs.len() && #[trigger] cs[i].0 && !allow_expired && cs[i].1
}

/// Some key verifies, passes the expiry check, and is refused for its
/// revocation.
pub open spec fn revoked_hit(cs: Seq<CheckV>, allow_expired: bool, allow_revoked: bool) -> bool {
    exists|i: int| 0 <= i < cs.len() && #[trigger] cs[i].0 && (allow_expired || !cs[i].1) && !allow_revoked && cs[i].2
}

pub open spec fn key_views(v: Seq<KeyId>) -> Seq<Seq<char>> {
    Seq::new(v.len(), |i: int| v[i].0@)
}

/// The outcome of checking every key of a keyring against a signature: the
/// accepted signers when there is one; otherwise `KeyExpired` when a
/// verifying key was refused for its expiry, `KeyRevoked` when one was
/// refused for its revocation, and `NoSignature` when no key verifies.
pub fn verification_outcome(checks: &[KeyCheck], allow_expired: bool, allow_revoked: bool) -> (r: Result<Vec<KeyId>, KeyringError>)
    ensures
        ({
            let cs = check_views(checks@);
            let s = signers(cs, allow_expired, allow_revoked);
            if s.len() > 0 {
                r matches Ok(v) && key_views(v@) == s
            } else if expired_hit(cs, allow_expired) {
                r matches Err(KeyringError::KeyExpired(m)) && m@ == "a matching signature was produced by an expired key"@
            } else if revoked_hit(cs, allow_expired, allow_revoked) {
                r matches Err(KeyringError::KeyRevoked(m)) && m@ == "a matching signature was produced by a revoked key"@
            } else {
                r matches Err(KeyringError::NoSignature)
            }
        }),
{
    let ghost cs = check_views(checks@);
    let mut signed_by: Vec<KeyId> = Vec::new();
    let mut expired = false;
    let mut revoked = false;
    let mut i: usize = 0;
    while i < checks.len()
        invariant
            i <= checks@.len(),
            cs == check_views(checks@),
            key_views(signed_by@) == signers(cs.take(i as int), allow_expired, allow_revoked),
            expired == expired_hit(cs.take(i as int), allow_expired),
            revoked == revoked_hit(cs.take(i as int), allow_expired, allow_revoked),
        decreases checks@.len() - i,
    {
        let ghost t = cs.take(i + 1);
        assert(t.drop_last() =~= cs.take(i as int));
        assert(t.last() == cs[i as int]);
        let c = &checks[i];
        if c.verified {
            if !allow_expired && c.expired {
                expired = true;
                assert(t[i as int] == cs[i as int]);
            } else if !allow_revoked && c.revoked {
                revoked = true;
                assert(t[i as int] == cs[i as int]);
            } else {
                let ghost before = key_views(signed_by@);
                signed_by.push(KeyId(own(c.fingerprint.as_str())));
                assert(key_views(signed_by@) =~= before.push(cs[i as int].3));
            }
        }
        proof {
            let p = cs.take(i as int);
            let ci = cs[i as int];
            assert(ci == (c.verified, c.expired, c.revoked, c.fingerprint@));
            assert(t[i as int] == ci);
            assert(expired_hit(t, allow_expired) == (expired_hit(p, allow_expired) || (ci.0 && !allow_expired && ci.1))) by {
                if expired_hit(t, allow_expired) {
                    let k = choose|k: int| 0 <= k < t.len() && #[trigger] t[k].0 && !allow_expired && t[k].1;
                    if k < i {
                        assert(p[k] == t[k]);
                        assert(p[k].0);
                    }
                }
                if expired_hit(p, allow_expired) {
                    let k = choose|k: int| 0 <= k < p.len() && #[trigger] p[k].0 && !allow_expired && p[k].1;
                    assert(t[k] == p[k]);
                    assert(t[k].0);
                }
                if ci.0 && !allow_expired && ci.1 {
                    assert(t[i as int].0);
                }
            }
            assert(revoked_hit(t, allow_expired, allow_revoked) == (revoked_hit(p, allow_expired, allow_revoked) || (ci.0
                && (allow_expired || !ci.1) && !allow_revoked && ci.2))) by {
                if revoked_hit(t, allow_expired, allow_revoked) {
                    let k = choose|k: int|
                        0 <= k < t.len() && #[trigger] t[k].0 && (allow_expired || !t[k].1) && !allow_revoked && t[k].2;
                    if k < i {
                        assert(p[k] == t[k]);
                        assert(p[k].0);
                    }
                }
                if revoked_hit(p, allow_expired, allow_revoked) {
                    let k = choose|k: int|
                        0 <= k < p.len() && #[trigger] p[k].0 && (allow_expired || !p[k].1) && !allow_revoked && p[k].2;
                    assert(t[k] == p[k]);
                    assert(t[k].0);
                }
                if ci.0 && (allow_expired || !ci.1) && !allow_revoked && ci.2 {
                    assert(t[i as int].0);
                }
            }
        }
        i = i + 1;
    }
    assert(cs.take(i as int) =~= cs);
    if signed_by.len() == 0 {
        if expired {
            return Err(KeyringError::KeyExpired(own("a matching signature was produced by an expired key")));
        }
        if revoked {
            return Err(KeyringError::KeyRevoked(own("a matching signature was produced by a revoked key")));
        }
        return Err(KeyringError::NoSignature);
    }
    Ok(signed_by)
}

/// A key with expiry `expires_at` (seconds since the epoch) has expired at
/// the time `when`.
pub fn key_expired_at(expires_at: Option<i64>, when: i64) -> (r: bool)
    ensures
        r == (expires_at matches Some(e) && when > e),
{
    match expires_at {
        Some(e) => when > e,
        None => false,
    }
}

/// Whether a fingerprint is the one `target` names, case-insensitively.
pub fn fingerprint_matches(fingerprint: &str, target: &str) -> (r: bool)
    ensures
        r == (lowercase(fingerprint@) == lowercase(target@)),
{
    let a = to_lowercase(fingerprint);
    let b = to_lowercase(target);
    str_eq(a.as_str(), b.as_str())
}

/// The positions, in order, of the keys among the first `n` of `fps` whose
/// fingerprint is not the one `target` names.
pub open spec fn kept_positions(fps: Seq<Seq<char>>, target: Seq<char>, n: nat) -> Seq<usize>
    decreases n,
{
    if n == 0 {
        Seq::empty()
    } else {
        let r = kept_positions(fps, target, (n - 1) as nat);
        if lowercase(fps[n - 1]) == lowercase(target) {
            r
        } else {
            r.push((n - 1) as usize)
        }
    }
}

/// Removing a key by fingerprint: the positions of the keys that stay, in
/// keyring order (every key whose fingerprint matches `target`,
/// case-insensitively, goes).
pub fn keys_kept_after_removal(fingerprints: &[String], target: &str) -> (r: Vec<usize>)
    ensures
        r@ == kept_positions(sviews(fingerprints@), target@, fingerprints@.len()),
{
    let ghost fv = sviews(fingerprints@);
    let mut out: Vec<usize> = Vec::new();
    let mut i: usize = 0;
    while i < fingerprints.len()
        invariant
            i <= fingerprints@.len(),
            fv == sviews(fingerprints@),
            out@ == kept_positions(fv, target@, i as nat),
        decreases fingerprints.len() - i,
    {
        assert(fv[i as int] == fingerprints@[i as int]@);
        if !fingerprint_matches(fingerprints[i].as_str(), target) {
            out.push(i);
        }
        i = i + 1;
    }
    out
}

/// Index of the first of `fps` whose fingerprint is the one `target` names,
/// or the number of fingerprints.
pub open spec fn first_match(fps: Seq<Seq<char>>, target: Seq<char>) -> nat
    decreases fps.len(),
{
    if fps.len() == 0 {
        0
    } else if lowercase(fps[0]) == lowercase(target) {
        0
    } else {
        1 + first_match(fps.drop_first(), target)
    }
}

/// Removing one key by its id: the positions of the keys that stay, in
/// keyring order — all but the first key whose fingerprint matches `target`
/// (case-insensitively), so at most one key goes.
pub fn keys_kept_after_removing_one(fingerprints: &[String], target: &str) -> (r: Vec<usize>)
    ensures
        r@ == Seq::new(fingerprints@.len(), |k: int| k as usize).filter(
            |k: usize| k != first_match(sviews(fingerprints@), target@),
        ),
        r@.len() + (if first_match(sviews(fingerprints@), target@) < fingerprints@.len() { 1int } else { 0int })
            == fingerprints@.len(),
{
    let ghost fv = sviews(fingerprints@);
    let ghost idx = Seq::new(fingerprints@.len(), |k: int| k as usize);
    let ghost f = first_match(fv, target@);
    proof {
        lemma_first_match(fv, target@);
        reveal(Seq::filter);
        assert(idx.take(0).filter(|k: usize| k != f) =~= Seq::<usize>::empty());
    }
    let mut out: Vec<usize> = Vec::new();
    let mut found = false;
    let mut i: usize = 0;
    while i < fingerprints.len()
        invariant
            i <= fingerprints@.len(),
            fv == sviews(fingerprints@),
            idx == Seq::new(fingerprints@.len(), |k: int| k as usize),
            f == first_match(fv, target@),
            found == (f < i),
            f <= fv.len(),
            forall|k: int| 0 <= k < f ==> lowercase(#[trigger] fv[k]) != lowercase(target@),
            f < fv.len() ==> lowercase(fv[f as int]) == lowercase(target@),
            out@ == idx.take(i as int).filter(|k: usize| k != f),
            out@.len() + (if found { 1int } else { 0int }) == i,
        decreases fingerprints.len() - i,
    {
        proof {
            lemma_first_match(fv, target@);
            assert(idx.take(i + 1).drop_last() =~= idx.take(i as int));
            assert(idx.take(i + 1).last() == i as usize);
            reveal(Seq::filter);
        }
        assert(fv[i as int] == fingerprints@[i as int]@);
        if !found && fingerprint_matches(fingerprints[i].as_str(), target) {
            found = true;
            assert(f == i);
        } else {
            proof {
                if !found {
                    assert(f != i);
                }
            }
            out.push(i);
        }
        i = i + 1;
    }
    proof {
        assert(idx.take(i as int) =~= idx);
    }
    out
}

proof fn lemma_first_match(fps: Seq<Seq<char>>, target: Seq<char>)
    ensures
        first_match(fps, target) <= fps.len(),
        forall|k: int| 0 <= k < first_match(fps, target) ==> lowercase(#[trigger] fps[k]) != lowercase(target),
        first_match(fps, target) < fps.len() ==> lowercase(fps[first_match(fps, target) as int]) == lowercase(target),
    decreases fps.len(),
{
    if fps.len() > 0 && lowercase(fps[0]) != lowercase(target) {
        lemma_first_match(fps.drop_first(), target);
        assert forall|k: int| 0 <= k < first_match(fps, target) implies lowercase(#[trigger] fps[k]) != lowercase(target) by {
            if k > 0 {
                assert(fps[k] == fps.drop_first()[k - 1]);
            }
        }
    }
}

// ── Checking signatures with `pgp` ───────────────────────────────────────────

/// Name for the text that a clearsigned message `data` signs (line endings
/// normalised to CRLF), when `data` parses as one.
pub uninterp spec fn clearsigned_text_of(data: Seq<u8>) -> Option<Seq<u8>>;

/// Name for whether the clearsigned message `data` carries a signature that
/// verifies with the binary public key `key`.
pub uninterp spec fn clearsigned_by(data: Seq<u8>, key: Seq<u8>) -> bool;

/// Name for whether `sig` parses as one armored detached signature.
pub uninterp spec fn detached_parses(sig: Seq<u8>) -> bool;

/// Name for whether the armored detached signature `sig` over `data`
/// verifies with the binary public key `key`.
pub uninterp spec fn detached_by(data: Seq<u8>, sig: Seq<u8>, key: Seq<u8>) -> bool;

/// The signed text of a clearsigned message, or the parse error's message.
///
/// Wraps `CleartextSignedMessage::from_armor` and `signed_text`. The text is
/// named by `clearsigned_text_of`, a function of the bytes alone; the error
/// message is left unstated.
#[verifier::external_body]
fn clearsigned_text(data: &[u8]) -> (r: Result<Vec<u8>, String>)
    ensures
        r is Ok <==> clearsigned_text_of(data@) is Some,
        r matches Ok(t) ==> clearsigned_text_of(data@) == Some(t@),
{
    match CleartextSignedMessage::from_armor(Cursor::new(data)) {
        Ok((msg, _)) => Ok(msg.signed_text().into_bytes()),
        Err(e) => Err(e.to_string()),
    }
}

/// Whether the clearsigned message verifies with a key.
///
/// Wraps `CleartextSignedMessage::from_armor`, `SignedPublicKey::from_bytes`
/// and `CleartextSignedMessage::verify` (success when one of the message's
/// signatures verifies); a message or key that does not parse gives `false`.
/// The answer is named by `clearsigned_by`.
#[verifier::external_body]
fn clearsigned_verifies(data: &[u8], key: &[u8]) -> (r: bool)
    ensures
        r == clearsigned_by(data@, key@),
{
    let Ok((msg, _)) = CleartextSignedMessage::from_armor(Cursor::new(data)) else { return false };
    let Ok(k) = SignedPublicKey::from_bytes(Cursor::new(key)) else { return false };
    msg.verify(&k).is_ok()
}

/// Whether `sig` parses as an armored detached signature, or the error's
/// message.
///
/// Wraps `DetachedSignature::from_armor_single`; the outcome is named by
/// `detached_parses`, the error message left unstated.
#[verifier::external_body]
fn detached_signature(sig: &[u8]) -> (r: Result<(), String>)
    ensures
        r is Ok <==> detached_parses(sig@),
{
    match DetachedSignature::from_armor_single(Cursor::new(sig)) {
        Ok(_) => Ok(()),
        Err(e) => Err(e.to_string()),
    }
}

/// Whether a detached signature over `data` verifies with a key.
///
/// Wraps `DetachedSignature::from_armor_single`, `SignedPublicKey::from_bytes`
/// and `DetachedSignature::verify`; a signature or key that does not parse
/// gives `false`. The answer is named by `detached_by`.
#[verifier::external_body]
fn detached_verifies(data: &[u8], sig: &[u8], key: &[u8]) -> (r: bool)
    ensures
        r == detached_by(data@, sig@, key@),
{
    let Ok((s, _)) = DetachedSignature::from_armor_single(Cursor::new(sig)) else { return false };
    let Ok(k) = SignedPublicKey::from_bytes(Cursor::new(key)) else { return false };
    s.verify(&k, data).is_ok()
}

/// A key of the keyring: its binary serialisation and what its
/// certificate says of it.
pub struct KeyRecord {
    /// The key in binary OpenPGP form.
    pub bytes: Vec<u8>,
    /// The key's fingerprint, in hex.
    pub fingerprint: String,
    /// When the key expires, in seconds since the epoch.
    pub expires_at: Option<i64>,
    /// The key carries a revocation signature.
    pub revoked: bool,
}

/// The checks of every key against a signature, given whether each key
/// verifies it (`verified(i)`), at the reference time `when`.
pub open spec fn record_checks(keys: Seq<KeyRecord>, verified: spec_fn(int) -> bool, when: i64) -> Seq<CheckV> {
    Seq::new(
        keys.len(),
        |i: int|
            (
                verified(i),
                keys[i].expires_at matches Some(e) && when > e,
                keys[i].revoked,
                keys[i].fingerprint@,
            ),
    )
}

/// The outcome `verification_outcome` gives for the checks `cs`, with the
/// verified message `msg`.
pub open spec fn outcome_ok(
    r: Result<VerifyResult, KeyringError>,
    cs: Seq<CheckV>,
    msg: Seq<u8>,
    allow_expired: bool,
    allow_revoked: bool,
) -> bool {
    let s = signers(cs, allow_expired, allow_revoked);
    if s.len() > 0 {
        r matches Ok(v) && key_views(v.signed_by@) == s && v.message@ == msg
    } else if expired_hit(cs, allow_expired) {
        r matches Err(KeyringError::KeyExpired(m)) && m@ == "a matching signature was produced by an expired key"@
    } else if revoked_hit(cs, allow_expired, allow_revoked) {
        r matches Err(KeyringError::KeyRevoked(m)) && m@ == "a matching signature was produced by a revoked key"@
    } else {
        r matches Err(KeyringError::NoSignature)
    }
}

fn copy_bytes(v: &[u8]) -> (r: Vec<u8>)
    ensures
        r@ == v@,
{
    let mut out: Vec<u8> = Vec::new();
    let mut i: usize = 0;
    while i < v.len()
        invariant
            i <= v@.len(),
            out@ == v@.take(i as int),
        decreases v.len() - i,
    {
        out.push(v[i]);
        i = i + 1;
        assert(out@ =~= v@.take(i as int));
    }
    assert(v@.take(i as int) =~= v@);
    out
}

/// Verifies a clearsigned (`InRelease`) document against the keys at the
/// reference time `when`: a document that does not parse is a
/// `Verification` error; otherwise every key is checked and the policy
/// decides, the verified message being the signed text.
pub fn verify_clearsigned(keys: &[KeyRecord], data: &[u8], when: i64, allow_expired: bool, allow_revoked: bool) -> (r: Result<VerifyResult, KeyringError>)
    ensures
        match clearsigned_text_of(data@) {
            None => r matches Err(KeyringError::Verification(_)),
            Some(t) => outcome_ok(
                r,
                record_checks(keys@, |i: int| clearsigned_by(data@, keys@[i].bytes@), when),
                t,
                allow_expired,
                allow_revoked,
            ),
        },
{
    let text = match clearsigned_text(data) {
        Ok(t) => t,
        Err(m) => return Err(KeyringError::Verification(m)),
    };
    let ghost cs = record_checks(keys@, |i: int| clearsigned_by(data@, keys@[i].bytes@), when);
    let mut checks: Vec<KeyCheck> = Vec::new();
    let mut i: usize = 0;
    while i < keys.len()
        invariant
            i <= keys@.len(),
            cs == record_checks(keys@, |i: int| clearsigned_by(data@, keys@[i].bytes@), when),
            check_views(checks@) == cs.take(i as int),
        decreases keys.len() - i,
    {
        let k = &keys[i];
        let c = KeyCheck {
            verified: clearsigned_verifies(data, k.bytes.as_slice()),
            expired: key_expired_at(k.expires_at, when),
            revoked: k.revoked,
            fingerprint: own(k.fingerprint.as_str()),
        };
        let ghost before = check_views(checks@);
        checks.push(c);
        assert(check_views(checks@) =~= before.push(cs[i as int]));
        i = i + 1;
        assert(check_views(checks@) =~= cs.take(i as int));
    }
    assert(cs.take(i as int) =~= cs);
    match verification_outcome(checks.as_slice(), allow_expired, allow_revoked) {
        Ok(signed_by) => Ok(VerifyResult { signed_by, message: text }),
        Err(e) => Err(e),
    }
}

/// Verifies `data` (a `Release` file) against its armored detached signature
/// `sig` and the keys at the reference time `when`: a signature that does
/// not parse is a `Verification` error; otherwise every key is checked and
/// the policy decides, the verified message being `data`.
pub fn verify_detached(keys: &[KeyRecord], data: &[u8], sig: &[u8], when: i64, allow_expired: bool, allow_revoked: bool) -> (r: Result<VerifyResult, KeyringError>)
    ensures
        if !detached_parses(sig@) {
            r matches Err(KeyringError::Verification(_))
        } else {
            outcome_ok(
                r,
                record_checks(keys@, |i: int| detached_by(data@, sig@, keys@[i].bytes@), when),
                data@,
                allow_expired,
                allow_revoked,
            )
        },
{
    match detached_signature(sig) {
        Ok(()) => {},
        Err(m) => return Err(KeyringError::Verification(m)),
    }
    let ghost cs = record_checks(keys@, |i: int| detached_by(data@, sig@, keys@[i].bytes@), when);
    let mut checks: Vec<KeyCheck> = Vec::new();
    let mut i: usize = 0;
    while i < keys.len()
        invariant
            i <= keys@.len(),
            cs == record_checks(keys@, |i: int| detached_by(data@, sig@, keys@[i].bytes@), when),
            check_views(checks@) == cs.take(i as int),
        decreases keys.len() - i,
    {
        let k = &keys[i];
        let c = KeyCheck {
            verified: detached_verifies(data, sig, k.bytes.as_slice()),
            expired: key_expired_at(k.expires_at, when),
            revoked: k.revoked,
            fingerprint: own(k.fingerprint.as_str()),
        };
        let ghost before = check_views(checks@);
        checks.push(c);
        assert(check_views(checks@) =~= before.push(cs[i as int]));
        i = i + 1;
        assert(check_views(checks@) =~= cs.take(i as int));
    }
    assert(cs.take(i as int) =~= cs);
    match verification_outcome(checks.as_slice(), allow_expired, allow_revoked) {
        Ok(signed_by) => Ok(VerifyResult { signed_by, message: copy_bytes(data) }),
        Err(e) => Err(e),
    }
}


// ── Reading key material with `pgp` ──────────────────────────────────────────

/// What `pgp` reads of one certificate.
pub struct ParsedKey {
    /// The certificate in binary OpenPGP form, when it serialises.
    pub bytes: Option<Vec<u8>>,
    /// The fingerprint's bytes.
    pub fingerprint: Vec<u8>,
    /// The primary key's creation time, in seconds since the epoch.
    pub created: u32,
    /// For each user id, the key expiration time (in seconds) that each of
    /// its signatures carries.
    pub expirations: Vec<Vec<Option<u32>>>,
    /// How many revocation signatures the certificate carries.
    pub revocations: usize,
}

/// Abstract value of a [`ParsedKey`].
pub type ParsedKeyV = (Option<Seq<u8>>, Seq<u8>, u32, Seq<Seq<Option<u32>>>, nat);

pub open spec fn opt_bytes(b: Option<Vec<u8>>) -> Option<Seq<u8>> {
    match b {
        Some(v) => Some(v@),
        None => None,
    }
}

pub open spec fn expiration_views(e: Seq<Vec<Option<u32>>>) -> Seq<Seq<Option<u32>>> {
    Seq::new(e.len(), |i: int| e[i]@)
}

pub open spec fn parsed_view(p: ParsedKey) -> ParsedKeyV {
    (opt_bytes(p.bytes), p.fingerprint@, p.created, expiration_views(p.expirations@), p.revocations as nat)
}

pub open spec fn parsed_views(ps: Seq<Option<ParsedKey>>) -> Seq<Option<ParsedKeyV>> {
    Seq::new(
        ps.len(),
        |i: int|
            match ps[i] {
                Some(p) => Some(parsed_view(p)),
                None => None,
            },
    )
}

/// Name for what `pgp` reads from ASCII-armored key material: one entry per
/// certificate (`None` where one does not parse), or the message of the error
/// that stops the reading.
pub uninterp spec fn armored_certificates_of(data: Seq<u8>) -> Result<Seq<Option<ParsedKeyV>>, Seq<char>>;

/// Name for what `pgp` reads from binary key material, as above.
pub uninterp spec fn binary_certificates_of(data: Seq<u8>) -> Result<Seq<Option<ParsedKeyV>>, Seq<char>>;

/// The certificates of ASCII-armored key material.
///
/// Wraps `SignedPublicKey::from_armor_many`; of each certificate it reads
/// `to_bytes`, `fingerprint`, `created_at`, the `key_expiration_time` of each
/// signature of each user id, and how many revocation signatures it has. The
/// result is named by `armored_certificates_of`, a function of the bytes.
#[verifier::external_body]
fn armored_certificates(data: &[u8]) -> (r: Result<Vec<Option<ParsedKey>>, String>)
    ensures
        match r {
            Ok(v) => armored_certificates_of(data@) == Ok::<Seq<Option<ParsedKeyV>>, Seq<char>>(parsed_views(v@)),
            Err(m) => armored_certificates_of(data@) == Err::<Seq<Option<ParsedKeyV>>, Seq<char>>(m@),
        },
{
    let (keys, _) = SignedPublicKey::from_armor_many(Cursor::new(data)).map_err(|e| e.to_string())?;
    Ok(keys.map(|k| k.ok().map(|k| ParsedKey {
        bytes: k.to_bytes().ok(),
        fingerprint: k.fingerprint().as_bytes().to_vec(),
        created: k.created_at().as_secs(),
        expirations: k.details.users.iter().map(|u| u.signatures.iter().map(|s| s.key_expiration_time().map(|d| d.as_secs())).collect()).collect(),
        revocations: k.details.revocation_signatures.len(),
    })).collect())
}

/// The certificates of binary key material.
///
/// Wraps `SignedPublicKey::from_bytes_many` and reads each certificate as
/// `armored_certificates` does; the result is named by
/// `binary_certificates_of`.
#[verifier::external_body]
fn binary_certificates(data: &[u8]) -> (r: Result<Vec<Option<ParsedKey>>, String>)
    ensures
        match r {
            Ok(v) => binary_certificates_of(data@) == Ok::<Seq<Option<ParsedKeyV>>, Seq<char>>(parsed_views(v@)),
            Err(m) => binary_certificates_of(data@) == Err::<Seq<Option<ParsedKeyV>>, Seq<char>>(m@),
        },
{
    let keys = SignedPublicKey::from_bytes_many(Cursor::new(data)).map_err(|e| e.to_string())?;
    Ok(keys.map(|k| k.ok().map(|k| ParsedKey {
        bytes: k.to_bytes().ok(),
        fingerprint: k.fingerprint().as_bytes().to_vec(),
        created: k.created_at().as_secs(),
        expirations: k.details.users.iter().map(|u| u.signatures.iter().map(|s| s.key_expiration_time().map(|d| d.as_secs())).collect()).collect(),
        revocations: k.details.revocation_signatures.len(),
    })).collect())
}

/// The first key expiration time in `s` from position `i` on.
pub open spec fn first_in(s: Seq<Option<u32>>, i: int) -> Option<u32>
    decreases s.len() - i,
{
    if i < 0 || i >= s.len() {
        None
    } else if s[i] is Some {
        s[i]
    } else {
        first_in(s, i + 1)
    }
}

/// The first key expiration time of the user signatures, user by user, from
/// user `i` on.
pub open spec fn first_expiration(e: Seq<Seq<Option<u32>>>, i: int) -> Option<u32>
    decreases e.len() - i,
{
    if i < 0 || i >= e.len() {
        None
    } else {
        match first_in(e[i], 0) {
            Some(d) => Some(d),
            None => first_expiration(e, i + 1),
        }
    }
}

/// When a certificate expires, in seconds since the epoch: its creation time
/// plus the first key expiration time of its user signatures; a zero
/// expiration time, or none, means it does not expire.
pub open spec fn expiry_of(created: u32, e: Seq<Seq<Option<u32>>>) -> Option<i64> {
    match first_expiration(e, 0) {
        Some(d) => if d > 0 { Some((created + d) as i64) } else { None },
        None => None,
    }
}

/// The key record `r` is what the certificate `p` says.
pub open spec fn record_of(r: KeyRecord, p: ParsedKeyV) -> bool {
    &&& r.bytes@ == (match p.0 {
        Some(b) => b,
        None => Seq::<u8>::empty(),
    })
    &&& r.fingerprint@ == hex_spec(p.1)
    &&& r.expires_at == expiry_of(p.2, p.3)
    &&& r.revoked == (p.4 > 0)
}

/// The certificates that parsed, in order.
pub open spec fn parsed_only(ps: Seq<Option<ParsedKeyV>>) -> Seq<ParsedKeyV>
    decreases ps.len(),
{
    if ps.len() == 0 {
        Seq::empty()
    } else {
        let r = parsed_only(ps.drop_last());
        match ps.last() {
            Some(p) => r.push(p),
            None => r,
        }
    }
}

/// One record per certificate, in order.
pub open spec fn records_match(rs: Seq<KeyRecord>, ps: Seq<ParsedKeyV>) -> bool {
    rs.len() == ps.len() && forall|i: int| 0 <= i < rs.len() ==> record_of(#[trigger] rs[i], ps[i])
}

/// What loading the certificates `ps` gives: a record of each one that
/// parsed, or an error when none did.
pub open spec fn records_outcome(r: Result<Vec<KeyRecord>, KeyringError>, ps: Seq<Option<ParsedKeyV>>) -> bool {
    if parsed_only(ps).len() == 0 {
        r matches Err(KeyringError::Load(m)) && m@ == "no valid certificates found in key material"@
    } else {
        r matches Ok(v) && records_match(v@, parsed_only(ps))
    }
}

/// Key material in ASCII armor: it begins with five dashes.
pub open spec fn armored_input(data: Seq<u8>) -> bool {
    data.len() >= 5 && data.take(5) == seq![45u8, 45u8, 45u8, 45u8, 45u8]
}

fn first_expiration_exec(e: &Vec<Vec<Option<u32>>>) -> (r: Option<u32>)
    ensures
        r == first_expiration(expiration_views(e@), 0),
{
    let ghost ev = expiration_views(e@);
    let mut i: usize = 0;
    while i < e.len()
        invariant
            i <= e@.len(),
            ev == expiration_views(e@),
            first_expiration(ev, 0) == first_expiration(ev, i as int),
        decreases e.len() - i,
    {
        let row = &e[i];
        assert(row@ == ev[i as int]);
        let mut j: usize = 0;
        while j < row.len()
            invariant
                i < e@.len(),
                j <= row@.len(),
                row@ == ev[i as int],
                ev == expiration_views(e@),
                first_expiration(ev, 0) == first_expiration(ev, i as int),
                first_in(ev[i as int], 0) == first_in(ev[i as int], j as int),
            decreases row.len() - j,
        {
            if let Some(d) = row[j] {
                return Some(d);
            }
            j = j + 1;
        }
        i = i + 1;
    }
    None
}

/// The key record of a certificate.
fn record_from(p: &ParsedKey) -> (r: KeyRecord)
    ensures
        record_of(r, parsed_view(*p)),
{
    let bytes = match &p.bytes {
        Some(b) => copy_bytes(b.as_slice()),
        None => Vec::new(),
    };
    let expires_at = match first_expiration_exec(&p.expirations) {
        Some(d) => if d > 0 { Some(p.created as i64 + d as i64) } else { None },
        None => None,
    };
    KeyRecord {
        bytes,
        fingerprint: hex_encode(p.fingerprint.as_slice()),
        expires_at,
        revoked: p.revocations > 0,
    }
}

/// The key records of the certificates that parsed, in order; an error when
/// none did.
pub fn records_from(parsed: &Vec<Option<ParsedKey>>) -> (r: Result<Vec<KeyRecord>, KeyringError>)
    ensures
        records_outcome(r, parsed_views(parsed@)),
{
    let ghost pv = parsed_views(parsed@);
    let mut out: Vec<KeyRecord> = Vec::new();
    let mut i: usize = 0;
    while i < parsed.len()
        invariant
            i <= parsed@.len(),
            pv == parsed_views(parsed@),
            records_match(out@, parsed_only(pv.take(i as int))),
        decreases parsed.len() - i,
    {
        assert(pv.take(i + 1).drop_last() =~= pv.take(i as int));
        match &parsed[i] {
            Some(p) => {
                let rec = record_from(p);
                out.push(rec);
            },
            None => {},
        }
        i = i + 1;
    }
    assert(pv.take(i as int) =~= pv);
    if out.len() == 0 {
        Err(KeyringError::Load(own("no valid certificates found in key material")))
    } else {
        Ok(out)
    }
}

/// The keys of key material, binary or ASCII-armored (material that begins
/// with five dashes is read as armor). Certificates that do not parse are
/// skipped.
pub fn key_records(data: &[u8]) -> (r: Result<Vec<KeyRecord>, KeyringError>)
    ensures
        data@.len() == 0 ==> (r matches Err(KeyringError::Load(m)) && m@ == "empty key material"@),
        data@.len() > 0 && armored_input(data@) ==> match armored_certificates_of(data@) {
            Err(msg) => r matches Err(KeyringError::Load(m)) && m@ == msg,
            Ok(ps) => records_outcome(r, ps),
        },
        data@.len() > 0 && !armored_input(data@) ==> match binary_certificates_of(data@) {
            Err(msg) => r matches Err(KeyringError::Load(m)) && m@ == msg,
            Ok(ps) => records_outcome(r, ps),
        },
{
    if data.len() == 0 {
        return Err(KeyringError::Load(own("empty key material")));
    }
    let armored = data.len() >= 5 && data[0] == 45u8 && data[1] == 45u8 && data[2] == 45u8 && data[3] == 45u8
        && data[4] == 45u8;
    proof {
        if data@.len() >= 5 {
            assert(armored == (data@.take(5) =~= seq![45u8, 45u8, 45u8, 45u8, 45u8]));
        }
    }
    let parsed = if armored {
        armored_certificates(data)
    } else {
        binary_certificates(data)
    };
    match parsed {
        Err(m) => Err(KeyringError::Load(m)),
        Ok(v) => records_from(&v),
    }
}

} // verus!
