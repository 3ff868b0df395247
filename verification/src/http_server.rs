use crate::http_parser::{
    assoc_put, get_pair, pairs_view, parse, parse_request, lossy_text, put_pair, HttpMethod,
    HttpRequest,
};
use crate::json::{int_text, write_u128};
use crate::radix_tree::{inserted, route_of, RadixTree};
use crate::text::{chars_of, string_of};
use vstd::prelude::*;
use vstd::utf8::{decode_utf8, encode_utf8, valid_utf8};

verus! {

broadcast use vstd::string::group_string_axioms;

/// The status codes of responses.
#[derive(Debug, PartialEq, Eq, PartialOrd, Ord, Copy, Clone, Structural)]
pub enum HttpStatusCode {
    Continue,
    SwitchingProtocols,
    Processing,
    OK,
    Created,
    Accepted,
    NonAuthoritativeInformation,
    NoContent,
    ResetContent,
    PartialContent,
    MultiStatus,
    AlreadyReported,
    IMUsed,
    MultipleChoices,
    MovedPermanently,
    Found,
    SeeOther,
    NotModified,
    UseProxy,
    TemporaryRedirect,
    PermanentRedirect,
    BadRequest,
    Unauthorized,
    PaymentRequired,
    Forbidden,
    NotFound,
    MethodNotAllowed,
    NotAcceptable,
    ProxyAuthenticationRequired,
    RequestTimeout,
    Conflict,
    Gone,
    LengthRequired,
    PreconditionFailed,
    PayloadTooLarge,
    URITooLong,
    UnsupportedMediaType,
    RangeNotSatisfiable,
    ExpectationFailed,
    ImATeapot,
    MisdirectedRequest,
    UnprocessableEntity,
    Locked,
    FailedDependency,
    TooEarly,
    UpgradeRequired,
    PreconditionRequired,
    TooManyRequests,
    RequestHeaderFieldsTooLarge,
    UnavailableForLegalReasons,
    InternalServerError,
    NotImplemented,
    BadGateway,
    ServiceUnavailable,
    GatewayTimeout,
    HTTPVersionNotSupported,
    VariantAlsoNegotiates,
    InsufficientStorage,
    LoopDetected,
    NotExtended,
    NetworkAuthenticationRequired,
}

/// The number of a status code.
pub open spec fn status_number(s: HttpStatusCode) -> u16 {
    match s {
        HttpStatusCode::Continue => 100,
        HttpStatusCode::SwitchingProtocols => 101,
        HttpStatusCode::Processing => 102,
        HttpStatusCode::OK => 200,
        HttpStatusCode::Created => 201,
        HttpStatusCode::Accepted => 202,
        HttpStatusCode::NonAuthoritativeInformation => 203,
        HttpStatusCode::NoContent => 204,
        HttpStatusCode::ResetContent => 205,
        HttpStatusCode::PartialContent => 206,
        HttpStatusCode::MultiStatus => 207,
        HttpStatusCode::AlreadyReported => 208,
        HttpStatusCode::IMUsed => 226,
        HttpStatusCode::MultipleChoices => 300,
        HttpStatusCode::MovedPermanently => 301,
        HttpStatusCode::Found => 302,
        HttpStatusCode::SeeOther => 303,
        HttpStatusCode::NotModified => 304,
        HttpStatusCode::UseProxy => 305,
        HttpStatusCode::TemporaryRedirect => 307,
        HttpStatusCode::PermanentRedirect => 308,
        HttpStatusCode::BadRequest => 400,
        HttpStatusCode::Unauthorized => 401,
        HttpStatusCode::PaymentRequired => 402,
        HttpStatusCode::Forbidden => 403,
        HttpStatusCode::NotFound => 404,
        HttpStatusCode::MethodNotAllowed => 405,
        HttpStatusCode::NotAcceptable => 406,
        HttpStatusCode::ProxyAuthenticationRequired => 407,
        HttpStatusCode::RequestTimeout => 408,
        HttpStatusCode::Conflict => 409,
        HttpStatusCode::Gone => 410,
        HttpStatusCode::LengthRequired => 411,
        HttpStatusCode::PreconditionFailed => 412,
        HttpStatusCode::PayloadTooLarge => 413,
        HttpStatusCode::URITooLong => 414,
        HttpStatusCode::UnsupportedMediaType => 415,
        HttpStatusCode::RangeNotSatisfiable => 416,
        HttpStatusCode::ExpectationFailed => 417,
        HttpStatusCode::ImATeapot => 418,
        HttpStatusCode::MisdirectedRequest => 421,
        HttpStatusCode::UnprocessableEntity => 422,
        HttpStatusCode::Locked => 423,
        HttpStatusCode::FailedDependency => 424,
        HttpStatusCode::TooEarly => 425,
        HttpStatusCode::UpgradeRequired => 426,
        HttpStatusCode::PreconditionRequired => 428,
        HttpStatusCode::TooManyRequests => 429,
        HttpStatusCode::RequestHeaderFieldsTooLarge => 431,
        HttpStatusCode::UnavailableForLegalReasons => 451,
        HttpStatusCode::InternalServerError => 500,
        HttpStatusCode::NotImplemented => 501,
        HttpStatusCode::BadGateway => 502,
        HttpStatusCode::ServiceUnavailable => 503,
        HttpStatusCode::GatewayTimeout => 504,
        HttpStatusCode::HTTPVersionNotSupported => 505,
        HttpStatusCode::VariantAlsoNegotiates => 506,
        HttpStatusCode::InsufficientStorage => 507,
        HttpStatusCode::LoopDetected => 508,
        HttpStatusCode::NotExtended => 510,
        HttpStatusCode::NetworkAuthenticationRequired => 511,
    }
}

/// The reason phrase of a status code.
pub open spec fn status_reason(s: HttpStatusCode) -> Seq<char> {
    match s {
        HttpStatusCode::Continue => "Continue"@,
        HttpStatusCode::SwitchingProtocols => "Switching Protocols"@,
        HttpStatusCode::Processing => "Processing"@,
        HttpStatusCode::OK => "OK"@,
        HttpStatusCode::Created => "Created"@,
        HttpStatusCode::Accepted => "Accepted"@,
        HttpStatusCode::NonAuthoritativeInformation => "Non-Authoritative Information"@,
        HttpStatusCode::NoContent => "No Content"@,
        HttpStatusCode::ResetContent => "Reset Content"@,
        HttpStatusCode::PartialContent => "Partial Content"@,
        HttpStatusCode::MultiStatus => "Multi-Status"@,
        HttpStatusCode::AlreadyReported => "Already Reported"@,
        HttpStatusCode::IMUsed => "IM Used"@,
        HttpStatusCode::MultipleChoices => "Multiple Choices"@,
        HttpStatusCode::MovedPermanently => "Moved Permanently"@,
        HttpStatusCode::Found => "Found"@,
        HttpStatusCode::SeeOther => "See Other"@,
        HttpStatusCode::NotModified => "Not Modified"@,
        HttpStatusCode::UseProxy => "Use Proxy"@,
        HttpStatusCode::TemporaryRedirect => "Temporary Redirect"@,
        HttpStatusCode::PermanentRedirect => "Permanent Redirect"@,
        HttpStatusCode::BadRequest => "Bad Request"@,
        HttpStatusCode::Unauthorized => "Unauthorized"@,
        HttpStatusCode::PaymentRequired => "Payment Required"@,
        HttpStatusCode::Forbidden => "Forbidden"@,
        HttpStatusCode::NotFound => "Not Found"@,
        HttpStatusCode::MethodNotAllowed => "Method Not Allowed"@,
        HttpStatusCode::NotAcceptable => "Not Acceptable"@,
        HttpStatusCode::ProxyAuthenticationRequired => "Proxy Authentication Required"@,
        HttpStatusCode::RequestTimeout => "Request Timeout"@,
        HttpStatusCode::Conflict => "Conflict"@,
        HttpStatusCode::Gone => "Gone"@,
        HttpStatusCode::LengthRequired => "Length Required"@,
        HttpStatusCode::PreconditionFailed => "Precondition Failed"@,
        HttpStatusCode::PayloadTooLarge => "Payload Too Large"@,
        HttpStatusCode::URITooLong => "URI Too Long"@,
        HttpStatusCode::UnsupportedMediaType => "Unsupported Media Type"@,
        HttpStatusCode::RangeNotSatisfiable => "Range Not Satisfiable"@,
        HttpStatusCode::ExpectationFailed => "Expectation Failed"@,
        HttpStatusCode::ImATeapot => "I'm a Teapot"@,
        HttpStatusCode::MisdirectedRequest => "Misdirected Request"@,
        HttpStatusCode::UnprocessableEntity => "Unprocessable Entity"@,
        HttpStatusCode::Locked => "Locked"@,
        HttpStatusCode::FailedDependency => "Failed Dependency"@,
        HttpStatusCode::TooEarly => "Too Early"@,
        HttpStatusCode::UpgradeRequired => "Upgrade Required"@,
        HttpStatusCode::PreconditionRequired => "Precondition Required"@,
        HttpStatusCode::TooManyRequests => "Too Many Requests"@,
        HttpStatusCode::RequestHeaderFieldsTooLarge => "Request Header Fields Too Large"@,
        HttpStatusCode::UnavailableForLegalReasons => "Unavailable For Legal Reasons"@,
        HttpStatusCode::InternalServerError => "Internal Server Error"@,
        HttpStatusCode::NotImplemented => "Not Implemented"@,
        HttpStatusCode::BadGateway => "Bad Gateway"@,
        HttpStatusCode::ServiceUnavailable => "Service Unavailable"@,
        HttpStatusCode::GatewayTimeout => "Gateway Timeout"@,
        HttpStatusCode::HTTPVersionNotSupported => "HTTP Version Not Supported"@,
        HttpStatusCode::VariantAlsoNegotiates => "Variant Also Negotiates"@,
        HttpStatusCode::InsufficientStorage => "Insufficient Storage"@,
        HttpStatusCode::LoopDetected => "Loop Detected"@,
        HttpStatusCode::NotExtended => "Not Extended"@,
        HttpStatusCode::NetworkAuthenticationRequired => "Network Authentication Required"@,
    }
}

impl HttpStatusCode {
    /// The number of the status code.
    pub fn code(&self) -> (c: u16)
        ensures
            c == status_number(*self),
    {
        match self {
            HttpStatusCode::Continue => 100,
            HttpStatusCode::SwitchingProtocols => 101,
            HttpStatusCode::Processing => 102,
            HttpStatusCode::OK => 200,
            HttpStatusCode::Created => 201,
            HttpStatusCode::Accepted => 202,
            HttpStatusCode::NonAuthoritativeInformation => 203,
            HttpStatusCode::NoContent => 204,
            HttpStatusCode::ResetContent => 205,
            HttpStatusCode::PartialContent => 206,
            HttpStatusCode::MultiStatus => 207,
            HttpStatusCode::AlreadyReported => 208,
            HttpStatusCode::IMUsed => 226,
            HttpStatusCode::MultipleChoices => 300,
            HttpStatusCode::MovedPermanently => 301,
            HttpStatusCode::Found => 302,
            HttpStatusCode::SeeOther => 303,
            HttpStatusCode::NotModified => 304,
            HttpStatusCode::UseProxy => 305,
            HttpStatusCode::TemporaryRedirect => 307,
            HttpStatusCode::PermanentRedirect => 308,
            HttpStatusCode::BadRequest => 400,
            HttpStatusCode::Unauthorized => 401,
            HttpStatusCode::PaymentRequired => 402,
            HttpStatusCode::Forbidden => 403,
            HttpStatusCode::NotFound => 404,
            HttpStatusCode::MethodNotAllowed => 405,
            HttpStatusCode::NotAcceptable => 406,
            HttpStatusCode::ProxyAuthenticationRequired => 407,
            HttpStatusCode::RequestTimeout => 408,
            HttpStatusCode::Conflict => 409,
            HttpStatusCode::Gone => 410,
            HttpStatusCode::LengthRequired => 411,
            HttpStatusCode::PreconditionFailed => 412,
            HttpStatusCode::PayloadTooLarge => 413,
            HttpStatusCode::URITooLong => 414,
            HttpStatusCode::UnsupportedMediaType => 415,
            HttpStatusCode::RangeNotSatisfiable => 416,
            HttpStatusCode::ExpectationFailed => 417,
            HttpStatusCode::ImATeapot => 418,
            HttpStatusCode::MisdirectedRequest => 421,
            HttpStatusCode::UnprocessableEntity => 422,
            HttpStatusCode::Locked => 423,
            HttpStatusCode::FailedDependency => 424,
            HttpStatusCode::TooEarly => 425,
            HttpStatusCode::UpgradeRequired => 426,
            HttpStatusCode::PreconditionRequired => 428,
            HttpStatusCode::TooManyRequests => 429,
            HttpStatusCode::RequestHeaderFieldsTooLarge => 431,
            HttpStatusCode::UnavailableForLegalReasons => 451,
            HttpStatusCode::InternalServerError => 500,
            HttpStatusCode::NotImplemented => 501,
            HttpStatusCode::BadGateway => 502,
            HttpStatusCode::ServiceUnavailable => 503,
            HttpStatusCode::GatewayTimeout => 504,
            HttpStatusCode::HTTPVersionNotSupported => 505,
            HttpStatusCode::VariantAlsoNegotiates => 506,
            HttpStatusCode::InsufficientStorage => 507,
            HttpStatusCode::LoopDetected => 508,
            HttpStatusCode::NotExtended => 510,
            HttpStatusCode::NetworkAuthenticationRequired => 511,
        }
    }

    /// The reason phrase of the status code.
    pub fn reason_phrase(&self) -> (s: &'static str)
        ensures
            s@ == status_reason(*self),
    {
        match self {
            HttpStatusCode::Continue => "Continue",
            HttpStatusCode::SwitchingProtocols => "Switching Protocols",
            HttpStatusCode::Processing => "Processing",
            HttpStatusCode::OK => "OK",
            HttpStatusCode::Created => "Created",
            HttpStatusCode::Accepted => "Accepted",
            HttpStatusCode::NonAuthoritativeInformation => "Non-Authoritative Information",
            HttpStatusCode::NoContent => "No Content",
            HttpStatusCode::ResetContent => "Reset Content",
            HttpStatusCode::PartialContent => "Partial Content",
            HttpStatusCode::MultiStatus => "Multi-Status",
            HttpStatusCode::AlreadyReported => "Already Reported",
            HttpStatusCode::IMUsed => "IM Used",
            HttpStatusCode::MultipleChoices => "Multiple Choices",
            HttpStatusCode::MovedPermanently => "Moved Permanently",
            HttpStatusCode::Found => "Found",
            HttpStatusCode::SeeOther => "See Other",
            HttpStatusCode::NotModified => "Not Modified",
            HttpStatusCode::UseProxy => "Use Proxy",
            HttpStatusCode::TemporaryRedirect => "Temporary Redirect",
            HttpStatusCode::PermanentRedirect => "Permanent Redirect",
            HttpStatusCode::BadRequest => "Bad Request",
            HttpStatusCode::Unauthorized => "Unauthorized",
            HttpStatusCode::PaymentRequired => "Payment Required",
            HttpStatusCode::Forbidden => "Forbidden",
            HttpStatusCode::NotFound => "Not Found",
            HttpStatusCode::MethodNotAllowed => "Method Not Allowed",
            HttpStatusCode::NotAcceptable => "Not Acceptable",
            HttpStatusCode::ProxyAuthenticationRequired => "Proxy Authentication Required",
            HttpStatusCode::RequestTimeout => "Request Timeout",
            HttpStatusCode::Conflict => "Conflict",
            HttpStatusCode::Gone => "Gone",
            HttpStatusCode::LengthRequired => "Length Required",
            HttpStatusCode::PreconditionFailed => "Precondition Failed",
            HttpStatusCode::PayloadTooLarge => "Payload Too Large",
            HttpStatusCode::URITooLong => "URI Too Long",
            HttpStatusCode::UnsupportedMediaType => "Unsupported Media Type",
            HttpStatusCode::RangeNotSatisfiable => "Range Not Satisfiable",
            HttpStatusCode::ExpectationFailed => "Expectation Failed",
            HttpStatusCode::ImATeapot => "I'm a Teapot",
            HttpStatusCode::MisdirectedRequest => "Misdirected Request",
            HttpStatusCode::UnprocessableEntity => "Unprocessable Entity",
            HttpStatusCode::Locked => "Locked",
            HttpStatusCode::FailedDependency => "Failed Dependency",
            HttpStatusCode::TooEarly => "Too Early",
            HttpStatusCode::UpgradeRequired => "Upgrade Required",
            HttpStatusCode::PreconditionRequired => "Precondition Required",
            HttpStatusCode::TooManyRequests => "Too Many Requests",
            HttpStatusCode::RequestHeaderFieldsTooLarge => "Request Header Fields Too Large",
            HttpStatusCode::UnavailableForLegalReasons => "Unavailable For Legal Reasons",
            HttpStatusCode::InternalServerError => "Internal Server Error",
            HttpStatusCode::NotImplemented => "Not Implemented",
            HttpStatusCode::BadGateway => "Bad Gateway",
            HttpStatusCode::ServiceUnavailable => "Service Unavailable",
            HttpStatusCode::GatewayTimeout => "Gateway Timeout",
            HttpStatusCode::HTTPVersionNotSupported => "HTTP Version Not Supported",
            HttpStatusCode::VariantAlsoNegotiates => "Variant Also Negotiates",
            HttpStatusCode::InsufficientStorage => "Insufficient Storage",
            HttpStatusCode::LoopDetected => "Loop Detected",
            HttpStatusCode::NotExtended => "Not Extended",
            HttpStatusCode::NetworkAuthenticationRequired => "Network Authentication Required",
        }
    }
}

/// A response as values.
pub struct ResponseModel {
    pub status: HttpStatusCode,
    pub headers: Seq<(Seq<char>, Seq<char>)>,
    pub body: Option<Seq<char>>,
}

/// A response.
pub struct HttpResponse {
    status_code: HttpStatusCode,
    headers: Vec<(String, String)>,
    body: Option<String>,
}

impl View for HttpResponse {
    type V = ResponseModel;

    closed spec fn view(&self) -> ResponseModel {
        ResponseModel {
            status: self.status_code,
            headers: pairs_view(self.headers@),
            body: match self.body {
                Some(b) => Some(b@),
                None => None,
            },
        }
    }
}

/// The header that lets any origin read a response.
pub open spec fn open_origin() -> (Seq<char>, Seq<char>) {
    ("Access-Control-Allow-Origin"@, "*"@)
}

/// The headers of a response with a typed body: its type, its length in bytes, and the
/// open origin, stored in turn.
pub open spec fn content_headers(kind: Seq<char>, length: int) -> Seq<(Seq<char>, Seq<char>)> {
    assoc_put(
        assoc_put(assoc_put(Seq::empty(), "Content-Type"@, kind), "Content-Length"@, int_text(length)),
        "Access-Control-Allow-Origin"@,
        "*"@,
    )
}

/// The header lines of a response.
pub open spec fn header_text(h: Seq<(Seq<char>, Seq<char>)>) -> Seq<char>
    decreases h.len(),
{
    if h.len() == 0 {
        Seq::empty()
    } else {
        header_text(h.drop_last()) + h.last().0 + seq![':'] + h.last().1 + seq!['\r', '\n']
    }
}

/// The text of a response: the status line, the header lines, an empty line and another
/// line break, then the body.
pub open spec fn response_text(m: ResponseModel) -> Seq<char> {
    "HTTP/1.1 "@ + int_text(status_number(m.status) as int) + seq![' '] + status_reason(m.status)
        + seq!['\r', '\n'] + header_text(m.headers) + seq!['\r', '\n', '\r', '\n'] + match m.body {
        Some(b) => b,
        None => Seq::empty(),
    }
}

/// Appends the characters of a text.
fn push_text(out: &mut Vec<char>, s: &str)
    ensures
        final(out)@ == old(out)@ + s@,
{
    let v = chars_of(s);
    let mut i: usize = 0;
    while i < v.len()
        invariant
            i <= v.len(),
            out@ == old(out)@ + v@.take(i as int),
        decreases v.len() - i,
    {
        out.push(v[i]);
        assert(v@.take(i + 1) == v@.take(i as int).push(v@[i as int]));
        i += 1;
    }
    assert(v@.take(v.len() as int) == v@);
}

/// The length in bytes of a text, written in decimal.
fn byte_length_text(s: &String, extra: u128) -> (r: String)
    requires
        extra <= 2,
    ensures
        r@ == int_text(encode_utf8(s@).len() + extra),
{
    let n = s.as_str().as_bytes().len();
    let digits = write_u128(n as u128 + extra);
    string_of(digits.as_slice())
}

impl HttpResponse {
    /// The status of the response.
    pub fn status(&self) -> (s: HttpStatusCode)
        ensures
            s == self@.status,
    {
        self.status_code
    }

    /// The header under `key`.
    pub fn header(&self, key: &str) -> (r: Option<&String>)
        ensures
            match r {
                Some(v) => crate::http_parser::assoc_get(self@.headers, key@) == Some(v@),
                None => crate::http_parser::assoc_get(self@.headers, key@) is None,
            },
    {
        get_pair(&self.headers, key)
    }

    /// The body of the response.
    pub fn body(&self) -> (r: Option<&String>)
        ensures
            match r {
                Some(b) => self@.body == Some(b@),
                None => self@.body is None,
            },
    {
        match &self.body {
            Some(b) => Some(b),
            None => None,
        }
    }

    /// A response with a status, the open-origin header, and no body (the body given is
    /// not kept).
    pub fn new(status_code: HttpStatusCode, body: Option<String>) -> (r: HttpResponse)
        ensures
            r@ == (ResponseModel { status: status_code, headers: seq![open_origin()], body: None }),
    {
        let mut headers: Vec<(String, String)> = Vec::new();
        headers.push(("Access-Control-Allow-Origin".to_owned(), "*".to_owned()));
        let r = HttpResponse { status_code, headers, body: None };
        assert(r@.headers =~= seq![open_origin()]);
        r
    }

    /// A response with a body of the given type: type, length and open-origin headers.
    fn with_content(status_code: HttpStatusCode, kind: &str, content: String, extra: u128) -> (r:
        HttpResponse)
        requires
            extra <= 2,
        ensures
            r@ == (ResponseModel {
                status: status_code,
                headers: content_headers(kind@, encode_utf8(content@).len() + extra as int),
                body: Some(content@),
            }),
    {
        let length = byte_length_text(&content, extra);
        let mut headers: Vec<(String, String)> = Vec::new();
        assert(pairs_view(headers@) =~= Seq::<(Seq<char>, Seq<char>)>::empty());
        put_pair(&mut headers, "Content-Type".to_owned(), kind.to_owned());
        put_pair(&mut headers, "Content-Length".to_owned(), length);
        put_pair(&mut headers, "Access-Control-Allow-Origin".to_owned(), "*".to_owned());
        HttpResponse { status_code, headers, body: Some(content) }
    }

    /// A response with an HTML page as its body.
    pub fn new_from_html(status_code: HttpStatusCode, page: String) -> (r: HttpResponse)
        ensures
            r@ == (ResponseModel {
                status: status_code,
                headers: content_headers("text/html"@, encode_utf8(page@).len() as int),
                body: Some(page@),
            }),
    {
        Self::with_content(status_code, "text/html", page, 0)
    }

    /// A response with a JSON text as its body; its length is given as two more than the
    /// text's.
    pub fn new_from_json(status_code: HttpStatusCode, json: String) -> (r: HttpResponse)
        ensures
            r@ == (ResponseModel {
                status: status_code,
                headers: content_headers("application/json"@, encode_utf8(json@).len() + 2int),
                body: Some(json@),
            }),
    {
        Self::with_content(status_code, "application/json", json, 2)
    }

    /// The internal-error response, with its page.
    pub fn new_internal_error(page: String) -> (r: HttpResponse)
        ensures
            r@ == (ResponseModel {
                status: HttpStatusCode::InternalServerError,
                headers: content_headers("text/html"@, encode_utf8(page@).len() as int),
                body: Some(page@),
            }),
    {
        Self::new_from_html(HttpStatusCode::InternalServerError, page)
    }

    /// The not-found response, with its page.
    pub fn new_not_found(page: String) -> (r: HttpResponse)
        ensures
            r@ == (ResponseModel {
                status: HttpStatusCode::NotFound,
                headers: content_headers("text/html"@, encode_utf8(page@).len() as int),
                body: Some(page@),
            }),
    {
        Self::new_from_html(HttpStatusCode::NotFound, page)
    }

    /// An empty success response.
    pub fn ok() -> (r: HttpResponse)
        ensures
            r@ == (ResponseModel { status: HttpStatusCode::OK, headers: seq![open_origin()], body: None }),
    {
        Self::new(HttpStatusCode::OK, None)
    }

    /// The bytes of the response as sent.
    pub fn serialize_response(http_response: HttpResponse) -> (r: Vec<u8>)
        ensures
            r@ == encode_utf8(response_text(http_response@)),
    {
        let mut out: Vec<char> = Vec::new();
        push_text(&mut out, "HTTP/1.1 ");
        let code = write_u128(http_response.status_code.code() as u128);
        let mut i: usize = 0;
        let ghost start = out@;
        while i < code.len()
            invariant
                i <= code.len(),
                out@ == start + code@.take(i as int),
            decreases code.len() - i,
        {
            out.push(code[i]);
            assert(code@.take(i + 1) == code@.take(i as int).push(code@[i as int]));
            i += 1;
        }
        assert(code@.take(code.len() as int) == code@);
        out.push(' ');
        push_text(&mut out, http_response.status_code.reason_phrase());
        out.push('\r');
        out.push('\n');
        let ghost head = out@;
        let h = &http_response.headers;
        let ghost hv = pairs_view(h@);
        let mut j: usize = 0;
        assert(hv.take(0) =~= Seq::<(Seq<char>, Seq<char>)>::empty());
        assert(head + header_text(hv.take(0)) =~= head);
        while j < h.len()
            invariant
                j <= h.len(),
                hv == pairs_view(h@),
                out@ == head + header_text(hv.take(j as int)),
            decreases h.len() - j,
        {
            assert(hv.take(j + 1).drop_last() =~= hv.take(j as int));
            assert(hv.take(j + 1).last() == (h@[j as int].0@, h@[j as int].1@));
            push_text(&mut out, h[j].0.as_str());
            out.push(':');
            push_text(&mut out, h[j].1.as_str());
            out.push('\r');
            out.push('\n');
            assert(out@ =~= head + header_text(hv.take(j + 1)));
            j += 1;
        }
        assert(hv.take(h.len() as int) =~= hv);
        out.push('\r');
        out.push('\n');
        out.push('\r');
        out.push('\n');
        match &http_response.body {
            Some(b) => push_text(&mut out, b.as_str()),
            None => {},
        }
        proof {
            reveal_strlit("HTTP/1.1 ");
        }
        assert(out@ =~= response_text(http_response@));
        let text = string_of(out.as_slice());
        let bytes = text.as_str().as_bytes();
        let mut r: Vec<u8> = Vec::new();
        let mut k: usize = 0;
        while k < bytes.len()
            invariant
                k <= bytes.len(),
                r@ == bytes@.take(k as int),
            decreases bytes.len() - k,
        {
            r.push(bytes[k]);
            assert(bytes@.take(k + 1) == bytes@.take(k as int).push(bytes@[k as int]));
            k += 1;
        }
        assert(bytes@.take(bytes.len() as int) == bytes@);
        r
    }
}


/// The position of the route tree of a method.
pub open spec fn method_position<H>(router: Seq<(HttpMethod, RadixTree<H>)>, m: HttpMethod) -> Option<
    int,
> {
    if exists|i: int| 0 <= i < router.len() && (#[trigger] router[i]).0 == m {
        Some(choose|i: int| 0 <= i < router.len() && (#[trigger] router[i]).0 == m)
    } else {
        None
    }
}

/// Each method has at most one route tree.
pub open spec fn methods_distinct<H>(router: Seq<(HttpMethod, RadixTree<H>)>) -> bool {
    forall|i: int, j: int| 0 <= i < j < router.len() ==> (#[trigger] router[i]).0 != (#[trigger] router[j]).0
}

/// A route tree with no route yet.
pub open spec fn empty_tree<H>(t: RadixTree<H>) -> bool {
    t.nodes@.len() == 0 && t.key@ == "/"@ && t.handler is None && !t.is_wild_card
}

/// The handler a method and path lead to.
pub open spec fn route_for<H>(router: Seq<(HttpMethod, RadixTree<H>)>, m: HttpMethod, p: Seq<char>) -> Option<H> {
    match method_position(router, m) {
        Some(i) => route_of(router[i].1, p),
        None => None,
    }
}

/// What is to be done with the bytes of a request: call the handler its route leads to, or
/// answer that nothing is found there, or that the request did not read.
pub enum Dispatch<'a, H> {
    Handle(&'a H, HttpRequest),
    NotFound,
    InternalError,
}

/// A server's routes, port and host.
pub struct HttpServer<H> {
    router: Vec<(HttpMethod, RadixTree<H>)>,
    port: u16,
    host: String,
}

impl<H> HttpServer<H> {
    /// The route trees by method.
    pub closed spec fn routes(&self) -> Seq<(HttpMethod, RadixTree<H>)> {
        self.router@
    }

    /// The port.
    pub closed spec fn port_number(&self) -> u16 {
        self.port
    }

    /// The host.
    pub closed spec fn host_name(&self) -> Seq<char> {
        self.host@
    }

    /// The server is well formed: one route tree per method.
    pub open spec fn wf(&self) -> bool {
        methods_distinct(self.routes())
    }

    /// A server with no route.
    pub fn new(port: u16, host: String) -> (r: HttpServer<H>)
        ensures
            r.routes().len() == 0,
            r.port_number() == port,
            r.host_name() == host@,
            r.wf(),
    {
        HttpServer { router: Vec::new(), port, host }
    }

    /// A server on the local host.
    pub fn new_localhost(port: u16) -> (r: HttpServer<H>)
        ensures
            r.routes().len() == 0,
            r.port_number() == port,
            r.host_name() == "127.0.0.1"@,
            r.wf(),
    {
        Self::new(port, "127.0.0.1".to_owned())
    }

    /// The port.
    pub fn port(&self) -> (p: u16)
        ensures
            p == self.port_number(),
    {
        self.port
    }

    /// The host.
    pub fn host(&self) -> (h: &String)
        ensures
            h@ == self.host_name(),
    {
        &self.host
    }

    fn find_method(&self, method: HttpMethod) -> (r: Option<usize>)
        requires
            self.wf(),
        ensures
            match r {
                Some(i) => method_position(self.routes(), method) == Some(i as int),
                None => method_position(self.routes(), method) is None,
            },
    {
        let mut i: usize = 0;
        while i < self.router.len()
            invariant
                i <= self.router.len(),
                self.wf(),
                forall|k: int| 0 <= k < i ==> (#[trigger] self.router@[k]).0 != method,
            decreases self.router.len() - i,
        {
            if self.router[i].0 == method {
                proof {
                    let c = choose|k: int|
                        0 <= k < self.router@.len() && (#[trigger] self.router@[k]).0 == method;
                    assert(self.router@[i as int].0 == method);
                    if c != i as int {
                        assert(self.router@[c].0 == self.router@[i as int].0);
                    }
                }
                return Some(i);
            }
            i += 1;
        }
        None
    }

    /// Adds a route: the handler at the path under the method's route tree, which is made
    /// (rooted at `/`) when the method has none yet.
    pub fn add_route(&mut self, method: HttpMethod, path: &str, handler: H)
        requires
            old(self).wf(),
        ensures
            final(self).wf(),
            final(self).port_number() == old(self).port_number(),
            final(self).host_name() == old(self).host_name(),
            match method_position(old(self).routes(), method) {
                Some(i) => {
                    &&& final(self).routes().len() == old(self).routes().len()
                    &&& final(self).routes()[i].0 == method
                    &&& inserted(old(self).routes()[i].1, final(self).routes()[i].1, path@, handler)
                    &&& forall|k: int|
                        0 <= k < old(self).routes().len() && k != i ==> final(self).routes()[k]
                            == old(self).routes()[k]
                },
                None => {
                    &&& final(self).routes().len() == old(self).routes().len() + 1
                    &&& final(self).routes().subrange(0, old(self).routes().len() as int)
                        == old(self).routes()
                    &&& final(self).routes().last().0 == method
                    &&& exists|t: RadixTree<H>|
                        empty_tree(t) && inserted(t, final(self).routes().last().1, path@, handler)
                },
            },
    {
        match self.find_method(method) {
            Some(i) => {
                let ghost before = self.router@;
                let (m, mut tree) = self.router.remove(i);
                assert((m, tree) == before[i as int]);
                tree.insert(path, handler);
                self.router.insert(i, (m, tree));
                assert forall|a: int, b: int|
                    0 <= a < b < self.router@.len() implies (#[trigger] self.router@[a]).0
                    != (#[trigger] self.router@[b]).0 by {
                    assert(self.router@[a].0 == before[a].0);
                    assert(self.router@[b].0 == before[b].0);
                }
                assert forall|k: int|
                    0 <= k < before.len() && k != i implies self.router@[k] == before[k] by {}
            },
            None => {
                let ghost before = self.router@;
                let mut tree = RadixTree::new("/");
                let ghost fresh = tree;
                proof {
                    reveal_strlit("/");
                    assert(!("/"@[0] == '{'));
                }
                tree.insert(path, handler);
                self.router.push((method, tree));
                assert(self.router@.subrange(0, before.len() as int) =~= before);
                assert(empty_tree(fresh));
                assert forall|a: int, b: int|
                    0 <= a < b < self.router@.len() implies (#[trigger] self.router@[a]).0
                    != (#[trigger] self.router@[b]).0 by {
                    if b == before.len() {
                        assert(self.router@[a] == before[a]);
                    } else {
                        assert(self.router@[a] == before[a]);
                        assert(self.router@[b] == before[b]);
                    }
                }
            },
        }
    }

    /// The handler a method and path lead to.
    pub fn route(&self, method: HttpMethod, path: &str) -> (r: Option<&H>)
        requires
            self.wf(),
        ensures
            match r {
                Some(h) => route_for(self.routes(), method, path@) == Some(*h),
                None => route_for(self.routes(), method, path@) is None,
            },
    {
        match self.find_method(method) {
            Some(i) => self.router[i].1.get(path),
            None => None,
        }
    }

    /// What to do with the bytes of a request received: the handler its method and path
    /// lead to, with the request; not found when they lead nowhere; an internal error when
    /// the request does not read.
    pub fn dispatch(&self, buffer: &[u8]) -> (r: Dispatch<'_, H>)
        requires
            self.wf(),
        ensures
            match parse_request(lossy_text(buffer@)) {
                Err(_) => r is InternalError,
                Ok(m) => match route_for(self.routes(), m.method, m.path) {
                    Some(h) => r matches Dispatch::Handle(rh, req) && *rh == h && req@ == m,
                    None => r is NotFound,
                },
            },
            valid_utf8(buffer@) ==> lossy_text(buffer@) == decode_utf8(buffer@),
    {
        match parse(buffer) {
            Ok(request) => match self.route(request.method, request.path.as_str()) {
                Some(h) => Dispatch::Handle(h, request),
                None => Dispatch::NotFound,
            },
            Err(_) => Dispatch::InternalError,
        }
    }
}

} // verus!
