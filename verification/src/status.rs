use vstd::prelude::*;

verus! {

/// The HTTP error statuses that the server's decisions produce.
#[derive(Debug, Clone, Copy, PartialEq, Eq, Structural)]
pub enum Status {
    BadRequest,
    Unauthorized,
    NotFound,
    InternalServerError,
}

impl Status {
    /// The numeric HTTP status code.
    pub fn code(&self) -> (c: u16)
        ensures
            c == status_code(*self),
    {
        match self {
            Status::BadRequest => 400,
            Status::Unauthorized => 401,
            Status::NotFound => 404,
            Status::InternalServerError => 500,
        }
    }
}

/// The numeric HTTP status code of each status.
pub open spec fn status_code(s: Status) -> u16 {
    match s {
        Status::BadRequest => 400,
        Status::Unauthorized => 401,
        Status::NotFound => 404,
        Status::InternalServerError => 500,
    }
}

/// The HTTP codes: 400 for a bad request, 401 for an unauthorized one, 404
/// for what is not found, 500 for a server error.
pub proof fn law_status_codes()
    ensures
        status_code(Status::BadRequest) == 400,
        status_code(Status::Unauthorized) == 401,
        status_code(Status::NotFound) == 404,
        status_code(Status::InternalServerError) == 500,
{
}

} // verus!
