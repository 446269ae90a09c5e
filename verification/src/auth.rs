//! Who a request comes from: agents by API key, dashboard users by bearer token (an OIDC token
//! when the token names a key and OIDC is on, else a JSON web token signed with the engine's
//! secret), and anonymous callers while authentication is not enforced.

use crate::text::opt_str_view;
use vstd::prelude::*;
use vstd::string::{StrSliceExecFns, StringExecFns};

verus! {

/// The claims of a JSON web token issued to a dashboard user.
#[derive(Debug, Clone)]
pub struct Claims {
    pub sub: String,
    pub exp: usize,
    pub role: String,
    pub tenant_id: String,
}

/// The caller of a request.
#[derive(Debug, Clone)]
pub struct Identity {
    pub user_id: String,
    pub tenant_id: String,
    pub role: String,
}

/// How requests are authenticated.
pub struct AuthConfig {
    /// The API key agents present.
    pub api_key: String,
    /// The secret JSON web tokens are signed with.
    pub jwt_secret: String,
    /// Whether a request without credentials is refused.
    pub enforce_auth: bool,
    /// Whether OIDC tokens are accepted.
    pub oidc_enabled: bool,
}

/// The API key agents use when none is configured.
pub open spec fn default_api_key() -> Seq<char> {
    "secret-agent-key"@
}

/// The token secret used when none is configured.
pub open spec fn default_jwt_secret() -> Seq<char> {
    "secret"@
}

impl AuthConfig {
    /// The configuration from the configured values, with the defaults for those not set.
    pub fn new(api_key: Option<String>, jwt_secret: Option<String>, enforce_auth: bool, oidc_enabled: bool) -> (r: AuthConfig)
        ensures
            r.api_key@ == match api_key {
                Some(k) => k@,
                None => default_api_key(),
            },
            r.jwt_secret@ == match jwt_secret {
                Some(s) => s@,
                None => default_jwt_secret(),
            },
            r.enforce_auth == enforce_auth,
            r.oidc_enabled == oidc_enabled,
    {
        let api_key = match api_key {
            Some(k) => k,
            None => String::from_str("secret-agent-key"),
        };
        let jwt_secret = match jwt_secret {
            Some(s) => s,
            None => String::from_str("secret"),
        };
        AuthConfig { api_key, jwt_secret, enforce_auth, oidc_enabled }
    }
}

/// The decision on a request.
#[derive(Debug, Clone)]
pub enum AuthOutcome {
    /// Let through, as the given caller (none for an anonymous one).
    Pass(Option<Identity>),
    /// Refused as unauthorized.
    Unauthorized,
}

/// Where authentication stands after the request's headers are read.
#[derive(Debug, Clone)]
pub enum AuthStep {
    /// Decided.
    Done(AuthOutcome),
    /// The bearer token is to be verified as a JSON web token with the secret.
    VerifyJwt(String),
}

/// The key id in the header of a JSON web token, as `jsonwebtoken::decode_header` reads it:
/// `None` when the header cannot be decoded or names no key.
pub uninterp spec fn jwt_header_kid(token: Seq<char>) -> Option<Seq<char>>;

/// Calls `jsonwebtoken::decode_header` and keeps the header's `kid`.
/// Claimed: the result is `jwt_header_kid(token@)`; decoding a token's header (base64 and JSON)
/// depends on the token alone.
#[verifier::external_body]
fn token_kid(token: &str) -> (r: Option<String>)
    ensures
        opt_str_view(r) == jwt_header_kid(token@),
{
    match jsonwebtoken::decode_header(token) {
        Ok(h) => h.kid,
        Err(_) => None,
    }
}

/// The identity of an agent presenting the API key, for the tenant it names (`default` if none).
pub open spec fn agent_identity(r: Identity, tenant: Option<Seq<char>>) -> bool {
    &&& r.user_id@ == "agent"@
    &&& r.tenant_id@ == match tenant {
        Some(t) => t,
        None => "default"@,
    }
    &&& r.role@ == "member"@
}

/// The identity of a user signed in through OIDC.
pub open spec fn oidc_identity(r: Identity) -> bool {
    &&& r.user_id@ == "oidc-user"@
    &&& r.tenant_id@ == "oidc-tenant"@
    &&& r.role@ == "member"@
}

/// The `Bearer ` prefix of an authorization header.
pub open spec fn bearer_prefix() -> Seq<char> {
    seq!['B', 'e', 'a', 'r', 'e', 'r', ' ']
}

fn starts_with_bearer(h: &str) -> (r: bool)
    ensures
        r == (h@.len() >= 7 && h@.take(7) == bearer_prefix()),
{
    let n = h.unicode_len();
    if n < 7 {
        return false;
    }
    let ok = h.get_char(0) == 'B' && h.get_char(1) == 'e' && h.get_char(2) == 'a' && h.get_char(3) == 'r'
        && h.get_char(4) == 'e' && h.get_char(5) == 'r' && h.get_char(6) == ' ';
    proof {
        if ok {
            assert(h@.take(7) =~= bearer_prefix());
        } else {
            if h@.take(7) == bearer_prefix() {
                assert(h@.take(7)[0] == 'B' && h@.take(7)[1] == 'e' && h@.take(7)[2] == 'a');
                assert(h@.take(7)[3] == 'r' && h@.take(7)[4] == 'e' && h@.take(7)[5] == 'r');
                assert(h@.take(7)[6] == ' ');
            }
        }
    }
    ok
}

/// Authenticates a request from its `X-Orionis-Api-Key`, `X-Tenant-Id` and `Authorization`
/// headers (each when present and readable as text):
/// - the configured API key makes the caller an agent of the named tenant (`default` if none);
/// - without an authorization header, the request is refused when authentication is enforced
///   and let through anonymously otherwise;
/// - an authorization header that is not `Bearer ` and a token is refused;
/// - a token whose header names a key is an OIDC token, accepted when OIDC is on;
/// - any other token is to be verified with the secret (`VerifyJwt`).
pub fn authenticate(
    cfg: &AuthConfig,
    api_key: Option<&str>,
    tenant: Option<&str>,
    authorization: Option<&str>,
) -> (r: AuthStep)
    ensures
        ({
            let key_ok = match api_key {
                Some(k) => k@ == cfg.api_key@,
                None => false,
            };
            if key_ok {
                r matches AuthStep::Done(AuthOutcome::Pass(Some(id))) && agent_identity(
                    id,
                    match tenant {
                        Some(t) => Some(t@),
                        None => None,
                    },
                )
            } else {
                match authorization {
                    None => if cfg.enforce_auth {
                        r matches AuthStep::Done(AuthOutcome::Unauthorized)
                    } else {
                        r matches AuthStep::Done(AuthOutcome::Pass(None))
                    },
                    Some(h) => if !(h@.len() >= 7 && h@.take(7) == bearer_prefix()) {
                        r matches AuthStep::Done(AuthOutcome::Unauthorized)
                    } else if jwt_header_kid(h@.skip(7)) is Some && cfg.oidc_enabled {
                        r matches AuthStep::Done(AuthOutcome::Pass(Some(id))) && oidc_identity(id)
                    } else {
                        r matches AuthStep::VerifyJwt(token) && token@ == h@.skip(7)
                    },
                }
            }
        }),
{
    let key_ok = match api_key {
        Some(k) => {
            let given = String::from_str(k);
            given == cfg.api_key
        },
        None => false,
    };
    if key_ok {
        let tenant_id = match tenant {
            Some(t) => String::from_str(t),
            None => String::from_str("default"),
        };
        return AuthStep::Done(
            AuthOutcome::Pass(
                Some(
                    Identity { user_id: String::from_str("agent"), tenant_id, role: String::from_str("member") },
                ),
            ),
        );
    }
    match authorization {
        None => {
            if cfg.enforce_auth {
                AuthStep::Done(AuthOutcome::Unauthorized)
            } else {
                AuthStep::Done(AuthOutcome::Pass(None))
            }
        },
        Some(h) => {
            if !starts_with_bearer(h) {
                return AuthStep::Done(AuthOutcome::Unauthorized);
            }
            let n = h.unicode_len();
            let token = h.substring_char(7, n);
            assert(token@ =~= h@.skip(7));
            if token_kid(token).is_some() && cfg.oidc_enabled {
                return AuthStep::Done(
                    AuthOutcome::Pass(
                        Some(
                            Identity {
                                user_id: String::from_str("oidc-user"),
                                tenant_id: String::from_str("oidc-tenant"),
                                role: String::from_str("member"),
                            },
                        ),
                    ),
                );
            }
            AuthStep::VerifyJwt(String::from_str(token))
        },
    }
}

/// Finishes authentication with the claims of the verified token (`None` when the token did
/// not verify): the caller is the token's subject, with its tenant and role.
pub fn identity_from_claims(claims: Option<Claims>) -> (r: AuthOutcome)
    ensures
        match claims {
            Some(c) => r matches AuthOutcome::Pass(Some(id)) && id.user_id == c.sub && id.tenant_id == c.tenant_id
                && id.role == c.role,
            None => r matches AuthOutcome::Unauthorized,
        },
{
    match claims {
        Some(c) => AuthOutcome::Pass(Some(Identity { user_id: c.sub, tenant_id: c.tenant_id, role: c.role })),
        None => AuthOutcome::Unauthorized,
    }
}

/// Whether a caller may clear a tenant's data: admins always; anyone while authentication is
/// not enforced. A request without a caller counts as a viewer.
pub fn may_clear(caller: &Option<Identity>, enforce_auth: bool) -> (r: bool)
    ensures
        r == (match caller {
            Some(id) => id.role@ == "admin"@,
            None => false,
        } || !enforce_auth),
{
    let is_admin = match caller {
        Some(id) => {
            let admin = String::from_str("admin");
            id.role == admin
        },
        None => false,
    };
    is_admin || !enforce_auth
}

} // verus!
