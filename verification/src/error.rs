//! The service's error answers: an HTTP status and a JSON body
//! `{"error": <code>, "message": <text>}` whose `message` may be absent.

use vstd::prelude::*;

verus! {

/// The body of every error answer.
#[derive(Debug)]
pub struct ErrorBody {
    pub error: &'static str,
    pub message: Option<String>,
}

/// An error answer: the HTTP status code and the body.
#[derive(Debug)]
pub struct ErrorResponse {
    pub status: u16,
    pub body: ErrorBody,
}

/// `e` has the given status, code and message.
pub open spec fn is_error(e: ErrorResponse, status: u16, code: Seq<char>, message: Seq<char>) -> bool {
    &&& e.status == status
    &&& e.body.error@ == code
    &&& e.body.message is Some
    &&& e.body.message->0@ == message
}

pub open spec fn is_unauthorized(e: ErrorResponse) -> bool {
    is_error(e, 401, "Unauthorized"@, "invalid or missing Authorization header"@)
}

pub open spec fn is_not_found(e: ErrorResponse) -> bool {
    is_error(e, 404, "NotFound"@, "object not found"@)
}

pub open spec fn is_invalid_key(e: ErrorResponse) -> bool {
    is_error(e, 400, "InvalidKey"@, "key must not be empty, start with /, or contain .."@)
}

pub open spec fn is_server_error(e: ErrorResponse, message: Seq<char>) -> bool {
    is_error(e, 500, "InternalError"@, message)
}

pub open spec fn is_conflict(e: ErrorResponse, message: Seq<char>) -> bool {
    is_error(e, 409, "Conflict"@, message)
}

/// Builds an error answer with the given status, code and optional message.
pub fn error_resp(status: u16, code: &'static str, message: Option<&str>) -> (r: ErrorResponse)
    ensures
        r.status == status,
        r.body.error == code,
        match message {
            Some(m) => r.body.message is Some && r.body.message->0@ == m@,
            None => r.body.message is None,
        },
{
    let message = match message {
        Some(m) => Some(String::from_str(m)),
        None => None,
    };
    ErrorResponse { status, body: ErrorBody { error: code, message } }
}

/// 401: the `Authorization` header is missing or does not match.
pub fn unauthorized() -> (r: ErrorResponse)
    ensures
        is_unauthorized(r),
{
    error_resp(401, "Unauthorized", Some("invalid or missing Authorization header"))
}

/// 404: no object is stored under the key.
pub fn not_found() -> (r: ErrorResponse)
    ensures
        is_not_found(r),
{
    error_resp(404, "NotFound", Some("object not found"))
}

/// 400: the key is empty, starts with `/` or contains `..`.
pub fn invalid_key() -> (r: ErrorResponse)
    ensures
        is_invalid_key(r),
{
    error_resp(400, "InvalidKey", Some("key must not be empty, start with /, or contain .."))
}

/// 500: an internal failure, described by `message`.
pub fn server_error(message: &str) -> (r: ErrorResponse)
    ensures
        is_server_error(r, message@),
{
    error_resp(500, "InternalError", Some(message))
}

/// 409: the destination of a copy or move exists and may not be replaced.
pub fn conflict(message: &str) -> (r: ErrorResponse)
    ensures
        is_conflict(r, message@),
{
    error_resp(409, "Conflict", Some(message))
}

} // verus!
