//! Access tokens: minting them and checking them.
//!
//! A token is a set of claims, followed by a signature: the SHA-256 digest
//! of the claims and the signing key. The claims are the scope of the token,
//! either the whole server or one document, and an optional time after
//! which the token is void. Whoever holds the signing key can mint and check
//! tokens; nothing is remembered about the tokens issued, so replacing the
//! key voids them all and no single token can be revoked.
//!
//! The claims are laid out as one byte for the scope (`S` or `D`), one byte
//! that says whether the token expires (`E` or `N`), the expiry time in
//! twenty digits, the length of the document name in twenty digits, and the
//! document name. A token is carried as lowercase hexadecimal text.

use vstd::prelude::*;
use sha2::Digest;
use crate::codec::{
    append_bytes, bytes_equal, copy_bytes, decimal, from_hex, hex, lemma_decimal_shape,
    lemma_hex_round_trip, lemma_seq_round_trip, parse_seq, push_decimal, read_seq, to_hex, unhex,
};
use crate::config::ConfigError;
use crate::keys::DocId;

verus! {

/// Why a token was refused. A client is told only that it is unauthorized.
#[derive(Clone, Copy, Debug, PartialEq, Eq, Structural)]
pub enum AuthError {
    /// The token is not a well-formed token.
    Malformed,
    /// The signature does not belong to the claims under this key.
    BadSignature,
    /// The token has expired.
    Expired,
    /// The token does not cover what was asked for.
    WrongScope,
}

impl AuthError {
    /// What a client is told, whatever the reason.
    pub fn message(&self) -> (text: String)
        ensures
            text@ == "unauthorized"@,
    {
        "unauthorized".to_owned()
    }
}

/// What a token gives access to.
#[derive(Clone, Debug)]
pub enum Scope {
    /// Every document, and the minting of document tokens.
    Server,
    /// Sessions on one document.
    Document(DocId),
}

/// A scope, with the document as its name.
pub enum ScopeView {
    Server,
    Document(Seq<u8>),
}

impl View for Scope {
    type V = ScopeView;

    open spec fn view(&self) -> ScopeView {
        match self {
            Scope::Server => ScopeView::Server,
            Scope::Document(doc) => ScopeView::Document(doc@),
        }
    }
}

impl ScopeView {
    /// The name of the document, or the empty name for the server scope.
    pub open spec fn doc(self) -> Seq<u8> {
        match self {
            ScopeView::Server => Seq::empty(),
            ScopeView::Document(doc) => doc,
        }
    }

    pub open spec fn tag(self) -> u8 {
        match self {
            ScopeView::Server => 83u8,
            ScopeView::Document(_) => 68u8,
        }
    }

    /// A token of this scope covers what was asked for: the server scope
    /// covers everything, a document scope only that document.
    pub open spec fn permits(self, required: Option<Seq<u8>>) -> bool {
        match self {
            ScopeView::Server => true,
            ScopeView::Document(doc) => required == Some(doc),
        }
    }
}

/// What a token that was accepted grants: its scope, and until when.
#[derive(Clone, Debug)]
pub struct Grant {
    pub scope: Scope,
    pub expiry: Option<u64>,
}

/// A grant, with the document as its name.
pub struct GrantView {
    pub scope: ScopeView,
    pub expiry: Option<u64>,
}

impl View for Grant {
    type V = GrantView;

    open spec fn view(&self) -> GrantView {
        GrantView { scope: self.scope@, expiry: self.expiry }
    }
}

/// The byte that says whether the token expires.
pub open spec fn expiry_tag(expiry: Option<u64>) -> u8 {
    if expiry is Some {
        69u8
    } else {
        78u8
    }
}

/// The number in the expiry field.
pub open spec fn expiry_field(expiry: Option<u64>) -> nat {
    match expiry {
        Some(t) => t as nat,
        None => 0,
    }
}

/// A token that expires at `expiry` is void at `now`.
pub open spec fn expired(expiry: Option<u64>, now: u64) -> bool {
    expiry matches Some(t) && t < now
}

/// The bytes that are signed.
pub open spec fn claims_bytes(scope: ScopeView, expiry: Option<u64>) -> Seq<u8> {
    seq![scope.tag(), expiry_tag(expiry)] + decimal(expiry_field(expiry), 20) + decimal(
        scope.doc().len(),
        20,
    ) + scope.doc()
}

/// The digest that `sha2::Sha256::digest` computes of `data`.
pub uninterp spec fn sha256_digest(data: Seq<u8>) -> Seq<u8>;

/// Calls `sha2::Sha256::digest`, the SHA-256 hash function. The digest is a
/// function of the data alone, which `sha256_digest` names; nothing else is
/// claimed of it.
#[verifier::external_body]
fn sha256(data: &Vec<u8>) -> (digest: Vec<u8>)
    ensures
        digest@ == sha256_digest(data@),
{
    sha2::Sha256::digest(data).to_vec()
}

/// Asks the operating system for thirty-two random bytes with
/// `rand::rngs::OsRng` and `RngCore::try_fill_bytes`, which reports an
/// error where the system gives none. Only the length of what is returned
/// is known.
#[verifier::external_body]
fn random_key() -> (key: Option<Vec<u8>>)
    ensures
        key matches Some(bytes) ==> bytes@.len() == 32,
{
    let mut key = [0u8; 32];
    match rand::RngCore::try_fill_bytes(&mut rand::rngs::OsRng, &mut key) {
        Ok(()) => Some(key.to_vec()),
        Err(_) => None,
    }
}

/// The signature of `claims` under `key`.
pub open spec fn signature(key: Seq<u8>, claims: Seq<u8>) -> Seq<u8> {
    sha256_digest(claims + key)
}

/// The token with the given claims under `key`, as bytes.
pub open spec fn token_bytes(key: Seq<u8>, scope: ScopeView, expiry: Option<u64>) -> Seq<u8> {
    claims_bytes(scope, expiry) + signature(key, claims_bytes(scope, expiry))
}

/// The token with the given claims under `key`, as text.
pub open spec fn token_text(key: Seq<u8>, scope: ScopeView, expiry: Option<u64>) -> Seq<u8> {
    hex(token_bytes(key, scope, expiry))
}

/// A token taken apart.
pub struct TokenView {
    pub scope: ScopeView,
    pub expiry: Option<u64>,
    /// The bytes that the claims occupy.
    pub claims: Seq<u8>,
    /// The bytes after the claims.
    pub signature: Seq<u8>,
}

/// The parts of the token in `raw`, if `raw` is laid out as a token.
pub open spec fn parse_token(raw: Seq<u8>) -> Option<TokenView> {
    if raw.len() < 42 {
        None
    } else {
        let tag = raw[0];
        let flag = raw[1];
        let time = parse_seq(raw.subrange(2, 22));
        let len = parse_seq(raw.subrange(22, 42));
        if time is None || len is None {
            None
        } else if 42 + len->0 > raw.len() {
            None
        } else if !(flag == 69u8 || (flag == 78u8 && time->0 == 0)) {
            None
        } else if !((tag == 83u8 && len->0 == 0) || tag == 68u8) {
            None
        } else {
            let doc = raw.subrange(42, 42 + len->0 as int);
            Some(
                TokenView {
                    scope: if tag == 83u8 {
                        ScopeView::Server
                    } else {
                        ScopeView::Document(doc)
                    },
                    expiry: if flag == 69u8 {
                        Some(time->0 as u64)
                    } else {
                        None
                    },
                    claims: raw.subrange(0, 42 + len->0 as int),
                    signature: raw.subrange(42 + len->0 as int, raw.len() as int),
                },
            )
        }
    }
}

/// What checking a token comes to: what it grants, or the first reason to
/// refuse it. A token is granted only if it is well formed, its
/// signature is the digest of its claims and the key, it has not expired,
/// and its scope covers what is required.
pub open spec fn verdict(key: Seq<u8>, text: Seq<u8>, required: Option<Seq<u8>>, now: u64) -> Result<
    GrantView,
    AuthError,
> {
    match unhex(text) {
        None => Err(AuthError::Malformed),
        Some(raw) => match parse_token(raw) {
            None => Err(AuthError::Malformed),
            Some(token) => if token.signature != signature(key, token.claims) {
                Err(AuthError::BadSignature)
            } else if expired(token.expiry, now) {
                Err(AuthError::Expired)
            } else if !token.scope.permits(required) {
                Err(AuthError::WrongScope)
            } else {
                Ok(GrantView { scope: token.scope, expiry: token.expiry })
            },
        },
    }
}

/// The view of the outcome of a check.
pub open spec fn outcome_view(r: Result<Grant, AuthError>) -> Result<GrantView, AuthError> {
    match r {
        Ok(grant) => Ok(grant@),
        Err(e) => Err(e),
    }
}

/// The name of a required document, if one is required.
pub open spec fn required_view(required: Option<&DocId>) -> Option<Seq<u8>> {
    match required {
        Some(doc) => Some(doc@),
        None => None,
    }
}

/// Claims followed by any signature are taken apart into those claims and
/// that signature.
pub proof fn lemma_token_round_trip(scope: ScopeView, expiry: Option<u64>, sig: Seq<u8>)
    requires
        scope.doc().len() <= u64::MAX,
    ensures
        parse_token(claims_bytes(scope, expiry) + sig) == Some(
            TokenView { scope, expiry, claims: claims_bytes(scope, expiry), signature: sig },
        ),
{
    let claims = claims_bytes(scope, expiry);
    let raw = claims + sig;
    let n = scope.doc().len();
    lemma_decimal_shape(expiry_field(expiry), 20);
    lemma_decimal_shape(n, 20);
    lemma_seq_round_trip(expiry_field(expiry));
    lemma_seq_round_trip(n);
    assert(claims.len() == 42 + n);
    assert(raw.subrange(2, 22) =~= decimal(expiry_field(expiry), 20));
    assert(raw.subrange(22, 42) =~= decimal(n, 20));
    assert(raw.subrange(42, 42 + n as int) =~= scope.doc());
    assert(raw.subrange(0, 42 + n as int) =~= claims);
    assert(raw.subrange(42 + n as int, raw.len() as int) =~= sig);
    assert(raw[0] == scope.tag());
    assert(raw[1] == expiry_tag(expiry));
}

/// A token that parses is its claims followed by its signature.
pub proof fn lemma_token_parts(raw: Seq<u8>)
    requires
        parse_token(raw) is Some,
    ensures
        parse_token(raw)->0.claims + parse_token(raw)->0.signature == raw,
{
    let token = parse_token(raw)->0;
    assert(token.claims + token.signature =~= raw);
}

/// The key that signs and checks tokens.
pub struct Authenticator {
    key: Vec<u8>,
}

impl Authenticator {
    /// The signing key.
    pub closed spec fn key(&self) -> Seq<u8> {
        self.key@
    }

    /// The authenticator for a signing key given as hexadecimal text. The
    /// key must not be empty.
    pub fn new(key_text: &Vec<u8>) -> (r: Result<Authenticator, ConfigError>)
        ensures
            match r {
                Ok(auth) => unhex(key_text@) == Some(auth.key()) && auth.key().len() > 0,
                Err(e) => e == ConfigError::InvalidKey && (unhex(key_text@) matches Some(key)
                    ==> key.len() == 0),
            },
    {
        match from_hex(key_text) {
            None => Err(ConfigError::InvalidKey),
            Some(key) => {
                if key.len() == 0 {
                    Err(ConfigError::InvalidKey)
                } else {
                    Ok(Authenticator { key })
                }
            },
        }
    }

    /// An authenticator with a new random key of thirty-two bytes. Fails
    /// where the operating system gives no random bytes.
    pub fn gen_key() -> (r: Result<Authenticator, ConfigError>)
        ensures
            match r {
                Ok(auth) => auth.key().len() == 32,
                Err(e) => e == ConfigError::NoRandomness,
            },
    {
        match random_key() {
            Some(key) => Ok(Authenticator { key }),
            None => Err(ConfigError::NoRandomness),
        }
    }

    /// The signing key as hexadecimal text, as `new` takes it.
    pub fn private_key(&self) -> (text: Vec<u8>)
        ensures
            text@ == hex(self.key()),
    {
        to_hex(&self.key)
    }

    /// Mints the token with the given scope and expiry.
    pub fn mint(&self, scope: &Scope, expiry: Option<u64>) -> (text: Vec<u8>)
        ensures
            text@ == token_text(self.key(), scope@, expiry),
    {
        let mut claims: Vec<u8> = Vec::new();
        match scope {
            Scope::Server => {
                claims.push(83u8);
            },
            Scope::Document(_) => {
                claims.push(68u8);
            },
        }
        match expiry {
            Some(t) => {
                claims.push(69u8);
                push_decimal(&mut claims, t, 20);
            },
            None => {
                claims.push(78u8);
                push_decimal(&mut claims, 0, 20);
            },
        }
        match scope {
            Scope::Server => {
                push_decimal(&mut claims, 0, 20);
                assert(claims@ =~= claims_bytes(scope@, expiry));
            },
            Scope::Document(doc) => {
                let name = doc.as_bytes();
                push_decimal(&mut claims, name.len() as u64, 20);
                append_bytes(&mut claims, name);
                assert(claims@ =~= claims_bytes(scope@, expiry));
            },
        }
        let mut signed = copy_bytes(&claims);
        append_bytes(&mut signed, &self.key);
        let digest = sha256(&signed);
        append_bytes(&mut claims, &digest);
        to_hex(&claims)
    }

    /// The token that grants the server scope and does not expire.
    pub fn server_token(&self) -> (text: Vec<u8>)
        ensures
            text@ == token_text(self.key(), ScopeView::Server, None),
    {
        self.mint(&Scope::Server, None)
    }

    /// The token that grants sessions on `doc`, until `expiry` if one is given.
    pub fn document_token(&self, doc: &DocId, expiry: Option<u64>) -> (text: Vec<u8>)
        ensures
            text@ == token_text(self.key(), ScopeView::Document(doc@), expiry),
    {
        self.mint(&Scope::Document(doc.duplicate()), expiry)
    }

    /// Checks a token at time `now`, for access to `required` or, where that
    /// is `None`, to the server as a whole. Returns what the token grants,
    /// or the first reason to refuse it.
    pub fn verify(&self, token: &Vec<u8>, required: Option<&DocId>, now: u64) -> (r: Result<
        Grant,
        AuthError,
    >)
        ensures
            outcome_view(r) == verdict(self.key(), token@, required_view(required), now),
    {
        let raw = match from_hex(token) {
            None => {
                return Err(AuthError::Malformed);
            },
            Some(raw) => raw,
        };
        let (scope, expiry, claims_len) = match take_apart(&raw) {
            None => {
                return Err(AuthError::Malformed);
            },
            Some(parts) => parts,
        };
        let mut signed = vstd::slice::slice_to_vec(
            vstd::slice::slice_subrange(raw.as_slice(), 0, claims_len),
        );
        append_bytes(&mut signed, &self.key);
        let digest = sha256(&signed);
        let carried = vstd::slice::slice_subrange(raw.as_slice(), claims_len, raw.len());
        if !bytes_equal(carried, digest.as_slice()) {
            return Err(AuthError::BadSignature);
        }
        match expiry {
            Some(t) => {
                if t < now {
                    return Err(AuthError::Expired);
                }
            },
            None => {},
        }
        let covered = match &scope {
            Scope::Server => true,
            Scope::Document(doc) => match required {
                Some(wanted) => doc.same(wanted),
                None => false,
            },
        };
        if !covered {
            return Err(AuthError::WrongScope);
        }
        Ok(Grant { scope, expiry })
    }
}

/// Takes a token apart into its scope, its expiry and the length of its
/// claims.
fn take_apart(raw: &Vec<u8>) -> (r: Option<(Scope, Option<u64>, usize)>)
    ensures
        match r {
            Some((scope, expiry, claims_len)) => parse_token(raw@) matches Some(token)
                && token.scope == scope@ && token.expiry == expiry && token.claims
                == raw@.subrange(0, claims_len as int) && token.signature == raw@.subrange(
                claims_len as int,
                raw@.len() as int,
            ) && claims_len <= raw@.len(),
            None => parse_token(raw@) is None,
        },
{
    if raw.len() < 42 {
        return None;
    }
    let tag: u8 = raw[0];
    let flag: u8 = raw[1];
    let time = match read_seq(raw.as_slice(), 2) {
        None => {
            return None;
        },
        Some(time) => time,
    };
    let len = match read_seq(raw.as_slice(), 22) {
        None => {
            return None;
        },
        Some(len) => len,
    };
    if len > (raw.len() - 42) as u64 {
        return None;
    }
    if !(flag == 69u8 || (flag == 78u8 && time == 0)) {
        return None;
    }
    if !((tag == 83u8 && len == 0) || tag == 68u8) {
        return None;
    }
    let claims_len: usize = 42 + len as usize;
    let scope = if tag == 83u8 {
        Scope::Server
    } else {
        Scope::Document(
            DocId::from_bytes(
                vstd::slice::slice_to_vec(
                    vstd::slice::slice_subrange(raw.as_slice(), 42, claims_len),
                ),
            ),
        )
    };
    let expiry = if flag == 69u8 {
        Some(time)
    } else {
        None
    };
    Some((scope, expiry, claims_len))
}

/// What checking a freshly minted token comes to: it is refused as expired
/// if its time has passed, else as out of scope if it does not cover what
/// is required, and else it is granted with its own scope and expiry.
pub proof fn lemma_minted_verdict(
    key: Seq<u8>,
    scope: ScopeView,
    expiry: Option<u64>,
    required: Option<Seq<u8>>,
    now: u64,
)
    requires
        scope.doc().len() <= u64::MAX,
    ensures
        verdict(key, token_text(key, scope, expiry), required, now) == if expired(expiry, now) {
            Err::<GrantView, AuthError>(AuthError::Expired)
        } else if !scope.permits(required) {
            Err::<GrantView, AuthError>(AuthError::WrongScope)
        } else {
            Ok::<GrantView, AuthError>(GrantView { scope, expiry })
        },
{
    let claims = claims_bytes(scope, expiry);
    lemma_hex_round_trip(token_bytes(key, scope, expiry));
    lemma_token_round_trip(scope, expiry, signature(key, claims));
}

/// Token scoping. A token minted for one document is refused for any other
/// document, and for the server as a whole.
pub proof fn lemma_token_scoped(
    key: Seq<u8>,
    doc: Seq<u8>,
    other: Option<Seq<u8>>,
    expiry: Option<u64>,
    now: u64,
)
    requires
        doc.len() <= u64::MAX,
        other != Some(doc),
    ensures
        verdict(key, token_text(key, ScopeView::Document(doc), expiry), other, now) is Err,
{
    lemma_minted_verdict(key, ScopeView::Document(doc), expiry, other, now);
}

/// A token whose expiry has passed is refused, though its signature is
/// valid.
pub proof fn lemma_expired_rejected(
    key: Seq<u8>,
    scope: ScopeView,
    expiry: u64,
    required: Option<Seq<u8>>,
    now: u64,
)
    requires
        scope.doc().len() <= u64::MAX,
        expiry < now,
    ensures
        verdict(key, token_text(key, scope, Some(expiry)), required, now) == Err::<
            GrantView,
            AuthError,
        >(AuthError::Expired),
{
    lemma_minted_verdict(key, scope, Some(expiry), required, now);
}

/// The claims of a token are signed as a whole. A token in which one byte
/// of the claims was changed is granted only if what it now holds is itself
/// some other claims followed by the digest of those claims and the key.
pub proof fn lemma_altered_rejected(
    key: Seq<u8>,
    scope: ScopeView,
    expiry: Option<u64>,
    at: int,
    byte: u8,
    required: Option<Seq<u8>>,
    now: u64,
)
    requires
        0 <= at < claims_bytes(scope, expiry).len(),
        byte != claims_bytes(scope, expiry)[at],
    ensures
        verdict(key, hex(token_bytes(key, scope, expiry).update(at, byte)), required, now) is Ok
            ==> exists|other: Seq<u8>|
            other != claims_bytes(scope, expiry) && token_bytes(key, scope, expiry).update(
                at,
                byte,
            ) == other + #[trigger] signature(key, other),
{
    let claims = claims_bytes(scope, expiry);
    let minted = token_bytes(key, scope, expiry);
    let altered = minted.update(at, byte);
    lemma_hex_round_trip(altered);
    if verdict(key, hex(altered), required, now) is Ok {
        let token = parse_token(altered)->0;
        lemma_token_parts(altered);
        assert(token.signature == signature(key, token.claims));
        if token.claims == claims {
            assert(altered == minted);
            assert(altered[at] == byte);
            assert(minted[at] == claims[at]);
        }
        assert(altered == token.claims + signature(key, token.claims));
    }
}

/// Claims that differ in scope or expiry are signed as different bytes.
pub proof fn lemma_claims_apart(
    scope: ScopeView,
    expiry: Option<u64>,
    other_scope: ScopeView,
    other_expiry: Option<u64>,
)
    requires
        scope.doc().len() <= u64::MAX,
        other_scope.doc().len() <= u64::MAX,
        claims_bytes(scope, expiry) == claims_bytes(other_scope, other_expiry),
    ensures
        scope == other_scope,
        expiry == other_expiry,
{
    lemma_token_round_trip(scope, expiry, Seq::empty());
    lemma_token_round_trip(other_scope, other_expiry, Seq::empty());
}

/// A token is granted only for what its scope covers: a token that is
/// granted for a document is a server token or a token for that very
/// document, and it has not expired.
pub proof fn lemma_grant_covers(
    key: Seq<u8>,
    text: Seq<u8>,
    required: Option<Seq<u8>>,
    now: u64,
)
    ensures
        verdict(key, text, required, now) matches Ok(grant) ==> grant.scope.permits(required)
            && !expired(grant.expiry, now),
{
}

} // verus!
