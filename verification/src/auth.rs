use vstd::prelude::*;

use crate::names::{chars_to_string, trim_ascii, trimmed};

verus! {

// Credential handling up to, but not including, the network: account-id
// normalization and the decision of how an access token is obtained. The
// OAuth exchange itself is plain HTTP work that the caller performs with
// the request this module prepares.

/// The credential material a caller may supply.
#[derive(Clone, Debug)]
pub struct AuthConfig {
    pub access_token: Option<String>,
    pub client_id: Option<String>,
    pub client_secret: Option<String>,
    pub refresh_token: Option<String>,
}

pub ghost struct AuthConfigModel {
    pub access_token: Option<Seq<char>>,
    pub client_id: Option<Seq<char>>,
    pub client_secret: Option<Seq<char>>,
    pub refresh_token: Option<Seq<char>>,
}

impl View for AuthConfig {
    type V = AuthConfigModel;

    open spec fn view(&self) -> AuthConfigModel {
        AuthConfigModel {
            access_token: match self.access_token {
                Option::Some(ref s) => Option::Some(s@),
                Option::None => Option::None,
            },
            client_id: match self.client_id {
                Option::Some(ref s) => Option::Some(s@),
                Option::None => Option::None,
            },
            client_secret: match self.client_secret {
                Option::Some(ref s) => Option::Some(s@),
                Option::None => Option::None,
            },
            refresh_token: match self.refresh_token {
                Option::Some(ref s) => Option::Some(s@),
                Option::None => Option::None,
            },
        }
    }
}

/// A credential field that the token decision found missing.
#[derive(Clone, Copy, Debug, PartialEq, Eq, Structural)]
pub enum AuthError {
    MissingClientId,
    MissingClientSecret,
    MissingRefreshToken,
}

impl AuthError {
    pub fn message(&self) -> (r: String)
        ensures
            match self {
                AuthError::MissingClientId => r@ == "GOOGLE_ADS_CLIENT_ID missing"@,
                AuthError::MissingClientSecret => r@ == "GOOGLE_ADS_CLIENT_SECRET missing"@,
                AuthError::MissingRefreshToken => r@ == "GOOGLE_ADS_REFRESH_TOKEN missing"@,
            },
    {
        match self {
            AuthError::MissingClientId => String::from_str("GOOGLE_ADS_CLIENT_ID missing"),
            AuthError::MissingClientSecret => String::from_str("GOOGLE_ADS_CLIENT_SECRET missing"),
            AuthError::MissingRefreshToken => String::from_str("GOOGLE_ADS_REFRESH_TOKEN missing"),
        }
    }
}

/// How an access token is to be obtained: use the supplied token as it
/// stands, or exchange a refresh token over the token endpoint.
#[derive(Debug)]
pub enum TokenPlan {
    /// The supplied token, trimmed, is used directly.
    Cached(String),
    /// The token endpoint is asked for a fresh token with these form
    /// parameters.
    Refresh { client_id: String, client_secret: String, refresh_token: String },
}

pub ghost enum TokenPlanModel {
    Cached(Seq<char>),
    Refresh { client_id: Seq<char>, client_secret: Seq<char>, refresh_token: Seq<char> },
}

impl View for TokenPlan {
    type V = TokenPlanModel;

    open spec fn view(&self) -> TokenPlanModel {
        match self {
            TokenPlan::Cached(t) => TokenPlanModel::Cached(t@),
            TokenPlan::Refresh { client_id, client_secret, refresh_token } => {
                TokenPlanModel::Refresh {
                    client_id: client_id@,
                    client_secret: client_secret@,
                    refresh_token: refresh_token@,
                }
            },
        }
    }
}

/// Strips every character that is not an ASCII digit from an account
/// identifier, keeping the digits in order.
pub fn normalize_customer_id(value: &str) -> (r: String)
    ensures
        r@ == value@.filter(|c: char| '0' <= c && c <= '9'),
{
    let n: usize = value.unicode_len();
    let mut out: Vec<char> = Vec::new();
    let mut i: usize = 0;
    while i < n
        invariant
            n == value@.len(),
            i <= n,
            out@ == value@.take(i as int).filter(|c: char| '0' <= c && c <= '9'),
        decreases n - i,
    {
        let c = value.get_char(i);
        proof {
            let t0 = value@.take(i as int);
            let t1 = value@.take(i + 1);
            assert(t1.drop_last() =~= t0);
            assert(t1.last() == value@[i as int]);
            reveal(Seq::filter);
        }
        if '0' <= c && c <= '9' {
            out.push(c);
        }
        i += 1;
    }
    proof {
        assert(value@.take(n as int) =~= value@);
    }
    chars_to_string(&out)
}

/// The token decision: a supplied token that is not blank is used as it
/// stands, trimmed; otherwise a refresh exchange is prepared, and the
/// first missing credential field is reported.
pub open spec fn token_plan_of(c: AuthConfigModel) -> Result<TokenPlanModel, AuthError> {
    let usable = match c.access_token {
        Option::Some(t) => trimmed(t).len() > 0,
        Option::None => false,
    };
    if usable {
        Result::Ok(TokenPlanModel::Cached(trimmed(c.access_token->0)))
    } else {
        match (c.client_id, c.client_secret, c.refresh_token) {
            (Option::None, _, _) => Result::Err(AuthError::MissingClientId),
            (Option::Some(_), Option::None, _) => Result::Err(AuthError::MissingClientSecret),
            (Option::Some(_), Option::Some(_), Option::None) => Result::Err(
                AuthError::MissingRefreshToken,
            ),
            (Option::Some(ci), Option::Some(cs), Option::Some(rt)) => Result::Ok(
                TokenPlanModel::Refresh {
                    client_id: ci,
                    client_secret: cs,
                    refresh_token: rt,
                },
            ),
        }
    }
}

/// Decides how the access token is obtained, exactly as `token_plan_of`
/// states.
pub fn resolve_token_plan(config: &AuthConfig) -> (r: Result<TokenPlan, AuthError>)
    ensures
        match r {
            Result::Ok(p) => token_plan_of(config@) == Result::<TokenPlanModel, AuthError>::Ok(
                p@,
            ),
            Result::Err(e) => token_plan_of(config@) == Result::<TokenPlanModel, AuthError>::Err(
                e,
            ),
        },
{
    if let Some(token) = &config.access_token {
        let t = trim_ascii(token.as_str());
        if t.as_str().unicode_len() > 0 {
            return Ok(TokenPlan::Cached(t));
        }
    }
    let client_id = match &config.client_id {
        Some(v) => v.clone(),
        None => {
            return Err(AuthError::MissingClientId);
        },
    };
    let client_secret = match &config.client_secret {
        Some(v) => v.clone(),
        None => {
            return Err(AuthError::MissingClientSecret);
        },
    };
    let refresh_token = match &config.refresh_token {
        Some(v) => v.clone(),
        None => {
            return Err(AuthError::MissingRefreshToken);
        },
    };
    Ok(TokenPlan::Refresh { client_id, client_secret, refresh_token })
}

} // verus!
