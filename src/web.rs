//! Requests and responses of the HTTP helpers, and the choice of method.
use std::collections::HashMap;
use vstd::prelude::*;
use vstd::string::*;
use crate::classify::{upper_of, uppercase};
use crate::text::str_eq;

verus! {

/// The timeout of a request that names none, in seconds.
pub const DEFAULT_TIMEOUT_SECS: u64 = 30;

/// An HTTP request to make.
#[derive(Clone, Debug)]
pub struct HttpRequest {
    pub url: String,
    pub method: String,
    pub headers: Option<HashMap<String, String>>,
    pub body: Option<String>,
    pub timeout_seconds: Option<u64>,
}

/// What came back from an HTTP request.
#[derive(Clone, Debug)]
pub struct HttpResponse {
    pub status: u16,
    pub headers: HashMap<String, String>,
    pub body: String,
    pub success: bool,
    pub error: Option<String>,
}

/// The methods a request may use.
#[derive(Clone, Copy, Debug, PartialEq, Eq, Structural)]
pub enum HttpMethod {
    Get,
    Post,
    Put,
    Delete,
}

/// The method an upper-case method name stands for.
pub open spec fn method_named(upper: Seq<char>) -> Option<HttpMethod> {
    if upper == "GET"@ {
        Some(HttpMethod::Get)
    } else if upper == "POST"@ {
        Some(HttpMethod::Post)
    } else if upper == "PUT"@ {
        Some(HttpMethod::Put)
    } else if upper == "DELETE"@ {
        Some(HttpMethod::Delete)
    } else {
        None
    }
}

/// The method an upper-case method name stands for.
pub fn method_from_upper(upper: &str) -> (r: Option<HttpMethod>)
    ensures
        r == method_named(upper@),
{
    if str_eq(upper, "GET") {
        Some(HttpMethod::Get)
    } else if str_eq(upper, "POST") {
        Some(HttpMethod::Post)
    } else if str_eq(upper, "PUT") {
        Some(HttpMethod::Put)
    } else if str_eq(upper, "DELETE") {
        Some(HttpMethod::Delete)
    } else {
        None
    }
}

/// The method a request names, in any case; an error for any other name.
pub fn parse_http_method(method: &str) -> (r: Result<HttpMethod, String>)
    ensures
        match method_named(upper_of(method@)) {
            Some(m) => r == Ok::<HttpMethod, String>(m),
            None => r is Err && r->Err_0@ == "Unsupported HTTP method"@,
        },
{
    let upper = uppercase(method);
    match method_from_upper(upper.as_str()) {
        Some(m) => Ok(m),
        None => Err(String::from_str("Unsupported HTTP method")),
    }
}

/// The timeout of a request, in seconds: its own, else the default.
pub fn request_timeout(request: &HttpRequest) -> (r: u64)
    ensures
        r == match request.timeout_seconds {
            Some(t) => t,
            None => DEFAULT_TIMEOUT_SECS,
        },
{
    match request.timeout_seconds {
        Some(t) => t,
        None => DEFAULT_TIMEOUT_SECS,
    }
}

} // verus!
