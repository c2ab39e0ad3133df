//! The guard of the protected endpoints: a bearer token.
use vstd::prelude::*;
use crate::config::Config;
use crate::status::Status;

verus! {

/// Proof that a request carried the configured API token.
pub struct IsAuth;

/// The `Authorization` header that the configured token asks for.
pub open spec fn expected_header(api_token: Seq<char>) -> Seq<char> {
    "Bearer "@ + api_token
}

/// The header's text, with a missing header read as empty.
pub open spec fn header_text(authorization: Option<&str>) -> Seq<char> {
    match authorization {
        Some(h) => h@,
        None => Seq::empty(),
    }
}

/// The header a token asks for is `Bearer ` followed by the token exactly,
/// character for character; a missing header is read as empty, so it never
/// matches; a present header is compared as sent.
pub proof fn law_bearer_header(token: Seq<char>, authorization: Option<&str>)
    ensures
        expected_header(token).len() == token.len() + 7,
        expected_header(token).take(7) == "Bearer "@,
        expected_header(token).skip(7) == token,
        header_text(None) != expected_header(token),
        authorization matches Some(h) ==> header_text(authorization) == h@,
{
    reveal_strlit("Bearer ");
    assert(expected_header(token).take(7) =~= "Bearer "@);
    assert(expected_header(token).skip(7) =~= token);
    assert(header_text(None).len() == 0);
}

impl IsAuth {
    /// Admits a request whose `Authorization` header is exactly
    /// `Bearer <api_token>`; without a configuration the server fails, and
    /// any other header is unauthorized.
    pub fn authorize(config: Option<&Config>, authorization: Option<&str>) -> (r: Result<
        IsAuth,
        Status,
    >)
        ensures
            match config {
                None => r matches Err(e) && e == Status::InternalServerError,
                Some(c) => if header_text(authorization) == expected_header(c.api_token@) {
                    r is Ok
                } else {
                    r matches Err(e) && e == Status::Unauthorized
                },
            },
    {
        let config = match config {
            Some(c) => c,
            None => return Err(Status::InternalServerError),
        };
        let header = match authorization {
            Some(h) => h.to_owned(),
            None => String::new(),
        };
        let mut expected = String::from_str("Bearer ");
        expected.append(config.api_token.as_str());
        if header == expected {
            Ok(IsAuth)
        } else {
            Err(Status::Unauthorized)
        }
    }
}

} // verus!
