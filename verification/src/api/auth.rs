//! Bearer-token authentication for the record API.
//!
//! - Fail closed: with no token configured every zone/record call is refused.
//! - The configured secret is kept as its SHA-256 digest. The presented token is
//!   hashed and compared in constant time.
use crate::text::{all_ascii, ascii_chars, hex_bytes, hex_encode_bytes, str_bytes, text_from_bytes, trim, trim_bytes};
use sha2::Digest;
use subtle::ConstantTimeEq;
use vstd::prelude::*;
use vstd::string::StringSliceAdditionalSpecFns;

verus! {

/// The SHA-256 digest of `data`.
pub uninterp spec fn sha256(data: Seq<u8>) -> Seq<u8>;

/// `sha2::Sha256::digest(data)`: the 32-byte SHA-256 digest of `data`.
#[verifier::external_body]
pub fn sha256_bytes(data: &[u8]) -> (r: [u8; 32])
    ensures
        r@ == sha256(data@),
{
    sha2::Sha256::digest(data).into()
}

/// `subtle::ConstantTimeEq::ct_eq` on byte slices, read as a `bool`: true
/// exactly when the slices have the same length and contents.
#[verifier::external_body]
fn ct_eq_bytes(a: &[u8], b: &[u8]) -> (r: bool)
    ensures
        r == (a@ == b@),
{
    bool::from(a.ct_eq(b))
}

/// Two lower-case hex digits per byte.
pub fn hex_encode(bytes: &[u8]) -> (r: String)
    ensures
        r@ == ascii_chars(hex_bytes(bytes@)),
{
    let h = hex_encode_bytes(bytes);
    text_from_bytes(h.as_slice())
}

/// Expected token digest; `None` refuses every zone call.
pub struct Auth {
    expected_sha256: Option<[u8; 32]>,
}

/// Outcome of [`Auth::verify`].
#[derive(Debug, Clone, Copy, PartialEq, Eq, Structural)]
pub enum AuthDecision {
    Allow,
    Deny,
    NotConfigured,
}

/// Startup-time auth configuration errors.
#[derive(Debug, Clone, Copy, PartialEq, Eq, Structural)]
pub enum AuthSetupError {
    InvalidHash,
    HashMismatch,
}

impl AuthSetupError {
    /// The message shown for this error.
    pub fn message(&self) -> (r: &'static str)
        ensures
            r@ == (match self {
                AuthSetupError::InvalidHash => "api.token_sha256 must be 64 hex characters"@,
                AuthSetupError::HashMismatch => "NEBULA_API_TOKEN does not match api.token_sha256"@,
            }),
    {
        match self {
            AuthSetupError::InvalidHash => "api.token_sha256 must be 64 hex characters",
            AuthSetupError::HashMismatch => "NEBULA_API_TOKEN does not match api.token_sha256",
        }
    }
}

pub open spec fn is_hex_digit(c: u8) -> bool {
    (48 <= c <= 57) || (97 <= c <= 102) || (65 <= c <= 70)
}

pub open spec fn hex_digit_value(c: u8) -> int {
    if 48 <= c <= 57 {
        c - 48
    } else if 97 <= c <= 102 {
        c - 87
    } else {
        c - 55
    }
}

/// The 32 bytes that 64 hex digits spell.
pub open spec fn hex_pairs(h: Seq<u8>) -> Seq<u8> {
    Seq::new(32, |i: int| (hex_digit_value(h[2 * i]) * 16 + hex_digit_value(h[2 * i + 1])) as u8)
}

/// A configured digest: blank means none; otherwise exactly 64 hex digits
/// after trimming whitespace.
pub open spec fn sha256_hex_spec(s: Seq<u8>) -> Result<Option<Seq<u8>>, AuthSetupError> {
    let t = trim(s);
    if t.len() == 0 {
        Ok(None)
    } else if t.len() != 64 || !(forall|i: int| 0 <= i < t.len() ==> is_hex_digit(#[trigger] t[i])) {
        Err(AuthSetupError::InvalidHash)
    } else {
        Ok(Some(hex_pairs(t)))
    }
}

/// Parse a configured SHA-256 hex digest.
pub fn parse_sha256_hex(s: &str) -> (r: Result<Option<[u8; 32]>, AuthSetupError>)
    ensures
        match sha256_hex_spec(s.spec_bytes()) {
            Ok(Some(d)) => r matches Ok(Some(a)) && a@ == d,
            Ok(None) => r == Ok::<Option<[u8; 32]>, AuthSetupError>(None),
            Err(e) => r == Err::<Option<[u8; 32]>, AuthSetupError>(e),
        },
{
    let t = trim_bytes(str_bytes(s));
    if t.len() == 0 {
        return Ok(None);
    }
    if t.len() != 64 {
        return Err(AuthSetupError::InvalidHash);
    }
    let mut i: usize = 0;
    while i < 64
        invariant
            i <= 64,
            t@.len() == 64,
            t@ == trim(s.spec_bytes()),
            forall|j: int| 0 <= j < i ==> is_hex_digit(#[trigger] t@[j]),
        decreases 64 - i,
    {
        let c = t[i];
        if !((48 <= c && c <= 57) || (97 <= c && c <= 102) || (65 <= c && c <= 70)) {
            proof {
                assert(!is_hex_digit(t@[i as int]));
            }
            return Err(AuthSetupError::InvalidHash);
        }
        i = i + 1;
    }
    let mut out = [0u8; 32];
    let mut k: usize = 0;
    while k < 32
        invariant
            k <= 32,
            t@.len() == 64,
            out@.len() == 32,
            t@ == trim(s.spec_bytes()),
            forall|j: int| 0 <= j < 64 ==> is_hex_digit(#[trigger] t@[j]),
            forall|j: int| 0 <= j < k ==> #[trigger] out@[j] == hex_pairs(t@)[j],
        decreases 32 - k,
    {
        let hi = hex_val_exec(t[2 * k]);
        let lo = hex_val_exec(t[2 * k + 1]);
        out[k] = hi * 16 + lo;
        k = k + 1;
    }
    proof {
        assert(out@ =~= hex_pairs(t@));
    }
    Ok(Some(out))
}

fn hex_val_exec(c: u8) -> (r: u8)
    requires
        is_hex_digit(c),
    ensures
        r == hex_digit_value(c),
        r < 16,
{
    if c <= 57 {
        c - 48
    } else if c >= 97 {
        c - 87
    } else {
        c - 55
    }
}

/// The digest configured by `from_parts`, or its error: the hex digest from
/// the config, the hash of a non-empty environment token, and when both are
/// given they must agree.
pub open spec fn auth_setup(hex: Option<Seq<u8>>, env: Option<Seq<u8>>) -> Result<Option<Seq<u8>>, AuthSetupError> {
    let from_hex = match hex {
        None => Ok(None),
        Some(s) => sha256_hex_spec(s),
    };
    match from_hex {
        Err(e) => Err(e),
        Ok(fh) => {
            let fe = match env {
                Some(t) => if t.len() > 0 {
                    Some(sha256(t))
                } else {
                    None
                },
                None => None,
            };
            match (fh, fe) {
                (None, None) => Ok(None),
                (Some(h), None) => Ok(Some(h)),
                (None, Some(h)) => Ok(Some(h)),
                (Some(c), Some(e)) => if c == e {
                    Ok(Some(c))
                } else {
                    Err(AuthSetupError::HashMismatch)
                },
            }
        },
    }
}

pub open spec fn opt_bytes(s: Option<&str>) -> Option<Seq<u8>> {
    match s {
        Some(t) => Some(t.spec_bytes()),
        None => None,
    }
}

/// The decision for a presented token (absent counts as empty).
pub open spec fn decision(expected: Option<Seq<u8>>, presented: Seq<u8>) -> AuthDecision {
    match expected {
        None => AuthDecision::NotConfigured,
        Some(e) => if e == sha256(presented) && presented.len() > 0 {
            AuthDecision::Allow
        } else {
            AuthDecision::Deny
        },
    }
}

impl Auth {
    /// The expected digest, if configured.
    pub closed spec fn expected(&self) -> Option<Seq<u8>> {
        match self.expected_sha256 {
            Some(d) => Some(d@),
            None => None,
        }
    }

    /// An authenticator that refuses every call.
    pub fn disabled() -> (r: Self)
        ensures
            r.expected() is None,
    {
        Auth { expected_sha256: None }
    }

    /// Build from an optional hex digest in config and an optional raw token
    /// from the environment. If both are present they must agree.
    pub fn from_parts(token_sha256_hex: Option<&str>, env_token: Option<&str>) -> (r: Result<Self, AuthSetupError>)
        ensures
            match auth_setup(opt_bytes(token_sha256_hex), opt_bytes(env_token)) {
                Ok(d) => r matches Ok(a) && a.expected() == d,
                Err(e) => r matches Err(x) && x == e,
            },
    {
        let from_hex = match token_sha256_hex {
            None => None,
            Some(s) => match parse_sha256_hex(s) {
                Ok(v) => v,
                Err(e) => return Err(e),
            },
        };
        let from_env = match env_token {
            Some(t) => {
                let b = str_bytes(t);
                if b.len() > 0 {
                    Some(sha256_bytes(b))
                } else {
                    None
                }
            },
            None => None,
        };
        match (from_hex, from_env) {
            (None, None) => Ok(Auth::disabled()),
            (Some(h), None) => Ok(Auth { expected_sha256: Some(h) }),
            (None, Some(h)) => Ok(Auth { expected_sha256: Some(h) }),
            (Some(c), Some(e)) => {
                if ct_eq_bytes(c.as_slice(), e.as_slice()) {
                    Ok(Auth { expected_sha256: Some(c) })
                } else {
                    Err(AuthSetupError::HashMismatch)
                }
            },
        }
    }

    /// Whether a token is configured.
    pub fn is_enabled(&self) -> (r: bool)
        ensures
            r == (self.expected() is Some),
    {
        self.expected_sha256.is_some()
    }

    /// Verify a presented bearer token. The presented material is always
    /// hashed, so the work done does not tell whether a token was supplied.
    pub fn verify(&self, presented: Option<&str>) -> (r: AuthDecision)
        ensures
            r == decision(
                self.expected(),
                match presented {
                    Some(p) => p.spec_bytes(),
                    None => Seq::<u8>::empty(),
                },
            ),
    {
        let expected = match &self.expected_sha256 {
            Some(e) => e,
            None => return AuthDecision::NotConfigured,
        };
        let p: &[u8] = match presented {
            Some(s) => str_bytes(s),
            None => &[],
        };
        proof {
            if presented is None {
                assert(p@ =~= Seq::<u8>::empty());
            }
        }
        let got = sha256_bytes(p);
        if ct_eq_bytes(expected.as_slice(), got.as_slice()) && p.len() > 0 {
            AuthDecision::Allow
        } else {
            AuthDecision::Deny
        }
    }
}

impl Default for Auth {
    /// Fail closed.
    fn default() -> (r: Self)
        ensures
            r.expected() is None,
    {
        Auth::disabled()
    }
}

/// A token set through the environment alone is accepted when presented,
/// and an empty token never is.
pub proof fn lemma_env_token_accepted(t: Seq<u8>)
    requires
        t.len() > 0,
    ensures
        auth_setup(None, Some(t)) == Ok::<Option<Seq<u8>>, AuthSetupError>(Some(sha256(t))),
        decision(Some(sha256(t)), t) == AuthDecision::Allow,
        forall|e: Seq<u8>| decision(Some(e), Seq::<u8>::empty()) == AuthDecision::Deny,
{
}

/// Without a configured digest every request is refused, with or without a
/// token.
pub proof fn lemma_fail_closed(presented: Seq<u8>)
    ensures
        decision(None, presented) == AuthDecision::NotConfigured,
{
}

} // verus!
