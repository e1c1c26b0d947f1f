//! What the agent answers a request that it does not carry out.

use vstd::prelude::*;

verus! {

/// An answer other than success: an HTTP status and a message.
#[derive(Debug)]
pub struct ApiError {
    pub status: u16,
    pub message: String,
}

/// Status and message of an answer.
pub open spec fn answer(status: int, message: Seq<char>) -> (int, Seq<char>) {
    (status, message)
}

impl View for ApiError {
    type V = (int, Seq<char>);

    open spec fn view(&self) -> (int, Seq<char>) {
        (self.status as int, self.message@)
    }
}

pub open spec fn unauthorized_answer() -> (int, Seq<char>) {
    answer(401, "unauthorized"@)
}

pub open spec fn csrf_answer() -> (int, Seq<char>) {
    answer(403, "csrf validation failed"@)
}

impl ApiError {
    /// The caller is not who may call.
    pub fn unauthorized() -> (res: ApiError)
        ensures
            res@ == unauthorized_answer(),
    {
        ApiError { status: 401, message: "unauthorized".to_owned() }
    }

    /// The request did not come from the page that it claims to come from.
    pub fn csrf_failed() -> (res: ApiError)
        ensures
            res@ == csrf_answer(),
    {
        ApiError { status: 403, message: "csrf validation failed".to_owned() }
    }

    /// The request makes no sense.
    pub fn bad_request(message: &str) -> (res: ApiError)
        ensures
            res@ == answer(400, message@),
    {
        ApiError { status: 400, message: message.to_owned() }
    }

    /// Something went wrong inside.
    pub fn internal(message: &str) -> (res: ApiError)
        ensures
            res@ == answer(500, message@),
    {
        ApiError { status: 500, message: message.to_owned() }
    }

    /// The value of the `WWW-Authenticate` header, which goes with a missing authorization
    /// alone.
    pub fn www_authenticate(&self) -> (res: Option<&'static str>)
        ensures
            match res {
                Some(v) => self@.0 == 401 && v@ == "Basic realm=\"dnsmasq-agent\""@,
                None => self@.0 != 401,
            },
    {
        if self.status == 401 {
            Some("Basic realm=\"dnsmasq-agent\"")
        } else {
            None
        }
    }
}

} // verus!
