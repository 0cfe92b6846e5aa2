//! What the providers ask of the HTTP layer, and what it reports back.
//!
//! A provider operation runs as a sequence of steps: the provider says what
//! to do next (a [`Step`]), the caller does it and reports what happened (an
//! [`Event`]), and the provider decides the next step.

use vstd::prelude::*;

verus! {

/// The HTTP client that a provider sends its requests with.
#[verifier::external_type_specification]
#[verifier::external_body]
pub struct ExHttpClient(reqwest::Client);

/// Cloning the HTTP client (reqwest's `Client::clone`): the copy shares the
/// connection pool. Nothing is stated of the result.
pub assume_specification[ <reqwest::Client as Clone>::clone ](client: &reqwest::Client) -> reqwest::Client;

/// A failure of the HTTP client: the request could not be sent, or the
/// reply could not be read.
#[verifier::external_type_specification]
#[verifier::external_body]
pub struct ExHttpError(reqwest::Error);

/// HTTP methods the providers use.
#[derive(Clone, Copy, Debug, PartialEq, Eq, Structural)]
pub enum HttpMethod {
    /// WebDAV `REPORT`.
    Report,
    Put,
    Post,
}

/// How a request authenticates.
#[derive(Clone, Debug)]
pub enum Auth {
    /// HTTP basic authentication.
    Basic { username: String, password: String },
    /// A bearer token.
    Bearer { token: String },
}

/// A request for the HTTP layer to send.
#[derive(Clone, Debug)]
pub struct HttpRequest<B> {
    pub method: HttpMethod,
    pub url: String,
    pub auth: Auth,
    /// Header names and values, in order.
    pub headers: Vec<(String, String)>,
    pub body: B,
}

/// What a provider operation needs next.
#[derive(Debug)]
pub enum Step<B, T> {
    /// Send the request; report its status, or the failure.
    Send(HttpRequest<B>),
    /// Read the body of the last reply; report it, or the failure.
    ReadBody,
    /// The operation is over with this result.
    Finish(T),
    /// A time step left the representable range, where the computation
    /// cannot go on.
    Overflow,
}

/// What the HTTP layer reports back.
#[derive(Debug)]
pub enum Event<R> {
    /// The reply arrived with this status code.
    Replied(u16),
    /// The body of the reply, read.
    Body(R),
    /// Sending the request or reading the reply failed.
    Failed(reqwest::Error),
}

/// The status code reports success (200 to 299).
pub open spec fn is_success(status: u16) -> bool {
    200 <= status <= 299
}

/// Whether the status code reports success.
pub fn status_is_success(status: u16) -> (r: bool)
    ensures
        r == is_success(status),
{
    200 <= status && status <= 299
}

/// Status code 401.
pub const UNAUTHORIZED: u16 = 401;

/// Status code 403.
pub const FORBIDDEN: u16 = 403;

/// Status code 201.
pub const CREATED: u16 = 201;

/// Status code 207.
pub const MULTI_STATUS: u16 = 207;

/// Status code 409.
pub const CONFLICT: u16 = 409;

/// An owned copy of `s`.
pub fn owned(s: &str) -> (r: String)
    ensures
        r@ == s@,
{
    let mut r = String::new();
    r.append(s);
    r
}

/// Header names and values as text.
pub open spec fn header_views(hs: Seq<(String, String)>) -> Seq<(Seq<char>, Seq<char>)> {
    hs.map_values(|h: (String, String)| (h.0@, h.1@))
}

/// Basic authentication with these credentials.
pub open spec fn is_basic(auth: Auth, username: Seq<char>, password: Seq<char>) -> bool {
    auth matches Auth::Basic { username: u, password: p } && u@ == username && p@ == password
}

/// Bearer authentication with this token.
pub open spec fn is_bearer(auth: Auth, token: Seq<char>) -> bool {
    auth matches Auth::Bearer { token: t } && t@ == token
}

} // verus!
