use vstd::prelude::*;

verus! {

/// Why a request's API key was refused.
#[derive(Debug, Clone, Copy, PartialEq, Eq, Structural)]
pub enum ApiKeyError {
    /// More than one key was presented.
    BadCount,
    /// No key was presented.
    Missing,
    /// The key presented is not the configured one.
    Invalid,
    /// No key is configured.
    NotSet,
}

/// A key that matched the configured one.
pub struct ApiKey(pub String);

/// HTTP status codes that a refusal is answered with.
pub const STATUS_BAD_REQUEST: u16 = 400;
pub const STATUS_UNAUTHORIZED: u16 = 401;
pub const STATUS_INTERNAL_SERVER_ERROR: u16 = 500;

impl ApiKeyError {
    /// The HTTP status that answers this refusal.
    pub fn status_code(&self) -> (r: u16)
        ensures
            r == match self {
                ApiKeyError::BadCount => STATUS_BAD_REQUEST,
                ApiKeyError::Missing => STATUS_UNAUTHORIZED,
                ApiKeyError::Invalid => STATUS_UNAUTHORIZED,
                ApiKeyError::NotSet => STATUS_INTERNAL_SERVER_ERROR,
            },
    {
        match self {
            ApiKeyError::BadCount => STATUS_BAD_REQUEST,
            ApiKeyError::Missing => STATUS_UNAUTHORIZED,
            ApiKeyError::Invalid => STATUS_UNAUTHORIZED,
            ApiKeyError::NotSet => STATUS_INTERNAL_SERVER_ERROR,
        }
    }
}

/// Checks the keys a request presents against the configured key, where
/// one is configured. The configured key is only consulted when exactly one
/// key is presented.
pub fn check_api_key(presented: &Vec<String>, configured: &Option<String>) -> (r: Result<
    ApiKey,
    ApiKeyError,
>)
    ensures
        presented.len() == 0 ==> r == Err::<ApiKey, ApiKeyError>(ApiKeyError::Missing),
        presented.len() > 1 ==> r == Err::<ApiKey, ApiKeyError>(ApiKeyError::BadCount),
        presented.len() == 1 ==> match configured {
            None => r == Err::<ApiKey, ApiKeyError>(ApiKeyError::NotSet),
            Some(k) => if presented@[0]@ == k@ {
                r matches Ok(a) && a.0@ == k@
            } else {
                r == Err::<ApiKey, ApiKeyError>(ApiKeyError::Invalid)
            },
        },
{
    if presented.len() == 0 {
        Err(ApiKeyError::Missing)
    } else if presented.len() > 1 {
        Err(ApiKeyError::BadCount)
    } else {
        match configured {
            None => Err(ApiKeyError::NotSet),
            Some(k) => if presented[0] == *k {
                Ok(ApiKey(presented[0].clone()))
            } else {
                Err(ApiKeyError::Invalid)
            },
        }
    }
}

} // verus!
