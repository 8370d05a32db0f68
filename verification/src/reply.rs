//! HTTP replies as plain values: status, headers and body.
use vstd::prelude::*;
use vstd::string::*;

verus! {

/// 200 OK.
pub const STATUS_OK: u16 = 200;

/// 201 Created.
pub const STATUS_CREATED: u16 = 201;

/// 304 Not Modified.
pub const STATUS_NOT_MODIFIED: u16 = 304;

/// 401 Unauthorized.
pub const STATUS_UNAUTHORIZED: u16 = 401;

/// 404 Not Found.
pub const STATUS_NOT_FOUND: u16 = 404;

/// 500 Internal Server Error.
pub const STATUS_INTERNAL_SERVER_ERROR: u16 = 500;

/// The response headers this service sets.
#[derive(Clone, Copy, Debug, PartialEq, Eq, Structural)]
pub enum ReplyHeader {
    /// `ETag`
    ETag,
    /// `Last-Modified`
    LastModified,
    /// `Cache-Control`
    CacheControl,
}

/// The body of a reply.
#[derive(Debug)]
pub enum ReplyBody {
    /// No body at all.
    Empty,
    /// A text body.
    Text(String),
    /// A binary body.
    Bytes(Vec<u8>),
}

/// The body of a reply, as a mathematical value.
pub enum BodyView {
    /// No body at all.
    Empty,
    /// A text body.
    Text(Seq<char>),
    /// A binary body.
    Bytes(Seq<u8>),
}

impl View for ReplyBody {
    type V = BodyView;

    open spec fn view(&self) -> BodyView {
        match self {
            ReplyBody::Empty => BodyView::Empty,
            ReplyBody::Text(s) => BodyView::Text(s@),
            ReplyBody::Bytes(b) => BodyView::Bytes(b@),
        }
    }
}

/// A complete HTTP reply: what the server sends back for one request.
#[derive(Debug)]
pub struct HttpReply {
    /// The status code.
    pub status: u16,
    /// The headers, in the order they are set.
    pub headers: Vec<(ReplyHeader, Vec<u8>)>,
    /// The body.
    pub body: ReplyBody,
}

/// An HTTP reply as a mathematical value.
pub struct ReplyView {
    /// The status code.
    pub status: u16,
    /// The headers, in the order they are set, each with its value's bytes.
    pub headers: Seq<(ReplyHeader, Seq<u8>)>,
    /// The body.
    pub body: BodyView,
}

impl View for HttpReply {
    type V = ReplyView;

    open spec fn view(&self) -> ReplyView {
        ReplyView {
            status: self.status,
            headers: self.headers@.map_values(|h: (ReplyHeader, Vec<u8>)| (h.0, h.1@)),
            body: self.body@,
        }
    }
}

/// A reply with the given status, no headers and a text body.
pub open spec fn text_reply(status: u16, text: Seq<char>) -> ReplyView {
    ReplyView { status, headers: Seq::empty(), body: BodyView::Text(text) }
}

/// Builds a reply with no headers and a text body.
pub fn text_response(status: u16, text: String) -> (r: HttpReply)
    ensures
        r@ == text_reply(status, text@),
{
    let r = HttpReply { status, headers: Vec::new(), body: ReplyBody::Text(text) };
    assert(r@.headers =~= Seq::<(ReplyHeader, Seq<u8>)>::empty());
    r
}

/// The reply of the health check: the service is up.
pub fn health_check() -> (r: HttpReply)
    ensures
        r@ == text_reply(STATUS_OK, "OK"@),
{
    text_response(STATUS_OK, String::from_str("OK"))
}

} // verus!
