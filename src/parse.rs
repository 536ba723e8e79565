//! The message parser: finds a complete request head in the bytes received
//! so far, or says that more are needed, or that the head is malformed.
use vstd::prelude::*;
use crate::framing::{HeaderField, headers_view};

verus! {

/// How many header fields a request head may carry.
pub const MAX_HEADERS: usize = 100;

/// A parsed request start-line and header block.
#[derive(Clone, Debug)]
pub struct RequestHead {
    pub method: Vec<u8>,
    pub target: Vec<u8>,
    /// The minor HTTP version: 1 for HTTP/1.1.
    pub minor_version: u8,
    pub headers: Vec<HeaderField>,
}

pub struct RequestHeadView {
    pub method: Seq<u8>,
    pub target: Seq<u8>,
    pub minor_version: u8,
    pub headers: Seq<(Seq<u8>, Seq<u8>)>,
}

impl View for RequestHead {
    type V = RequestHeadView;

    open spec fn view(&self) -> RequestHeadView {
        RequestHeadView {
            method: self.method@,
            target: self.target@,
            minor_version: self.minor_version,
            headers: headers_view(self.headers@),
        }
    }
}

/// What the head scanner reports on a buffer.
#[derive(Debug)]
pub enum HeadScan {
    /// No complete head yet, and nothing invalid so far.
    Partial,
    /// A complete head, and the length of the bytes it took.
    Complete(RequestHead, usize),
    /// The bytes break the request grammar.
    Invalid,
}

pub enum HeadScanView {
    Partial,
    Complete(RequestHeadView, nat),
    Invalid,
}

impl View for HeadScan {
    type V = HeadScanView;

    open spec fn view(&self) -> HeadScanView {
        match self {
            HeadScan::Partial => HeadScanView::Partial,
            HeadScan::Complete(h, n) => HeadScanView::Complete(h@, *n as nat),
            HeadScan::Invalid => HeadScanView::Invalid,
        }
    }
}

/// What httparse's request parser makes of a buffer, given `MAX_HEADERS`
/// header slots: a head with more fields than that parses as `Invalid`.
pub uninterp spec fn httparse_request_of(buf: Seq<u8>) -> HeadScanView;

/// Relies on `httparse::Request::parse`: its outcome depends on the buffer
/// alone, and a complete head is reported with the offset where the body
/// starts, which lies within the buffer.
#[verifier::external_body]
fn scan_request(buf: &[u8]) -> (r: HeadScan)
    ensures
        r@ == httparse_request_of(buf@),
        r matches HeadScan::Complete(_, n) ==> n <= buf@.len(),
{
    let mut hs = [httparse::EMPTY_HEADER; MAX_HEADERS];
    let mut req = httparse::Request::new(&mut hs);
    match req.parse(buf) {
        Ok(httparse::Status::Complete(n)) => HeadScan::Complete(RequestHead {
            method: req.method.unwrap_or("").into(),
            target: req.path.unwrap_or("").into(),
            minor_version: req.version.unwrap_or(1),
            headers: req.headers.iter().map(|h| HeaderField { name: h.name.into(), value: h.value.into() }).collect(),
        }, n),
        Ok(httparse::Status::Partial) => HeadScan::Partial,
        Err(_) => HeadScan::Invalid,
    }
}

/// Why a head was refused.
#[derive(Clone, Copy, Debug, PartialEq, Eq)]
pub enum Malformed {
    /// The bytes open with the HTTP/2 client preface: close, do not respond.
    Http2Preface,
    /// The start-line or a header field breaks the grammar.
    Syntax,
}

/// The outcome of parsing the bytes received so far.
#[derive(Debug)]
pub enum ParseStatus {
    NeedMoreData,
    /// The head, and the offset at which the body begins.
    Parsed(RequestHead, usize),
    Malformed(Malformed),
}

pub enum ParseStatusView {
    NeedMoreData,
    Parsed(RequestHeadView, nat),
    Malformed(Malformed),
}

impl View for ParseStatus {
    type V = ParseStatusView;

    open spec fn view(&self) -> ParseStatusView {
        match self {
            ParseStatus::NeedMoreData => ParseStatusView::NeedMoreData,
            ParseStatus::Parsed(h, n) => ParseStatusView::Parsed(h@, *n as nat),
            ParseStatus::Malformed(m) => ParseStatusView::Malformed(*m),
        }
    }
}

/// `PRI * HTTP/2`, the start of the HTTP/2 client preface.
pub open spec fn h2_preface() -> Seq<u8> {
    seq![80u8, 82, 73, 32, 42, 32, 72, 84, 84, 80, 47, 50]
}

pub open spec fn starts_with(b: Seq<u8>, p: Seq<u8>) -> bool {
    b.len() >= p.len() && b.take(p.len() as int) == p
}

/// The parse of a buffer: the HTTP/2 preface is refused, anything else is
/// as the request grammar has it.
pub open spec fn parse_spec(buf: Seq<u8>) -> ParseStatusView {
    if starts_with(buf, h2_preface()) {
        ParseStatusView::Malformed(Malformed::Http2Preface)
    } else {
        match httparse_request_of(buf) {
            HeadScanView::Partial => ParseStatusView::NeedMoreData,
            HeadScanView::Complete(h, n) => ParseStatusView::Parsed(h, n),
            HeadScanView::Invalid => ParseStatusView::Malformed(Malformed::Syntax),
        }
    }
}

pub fn starts_with_h2_preface(buf: &[u8]) -> (r: bool)
    ensures
        r == starts_with(buf@, h2_preface()),
{
    let p: [u8; 12] = [80, 82, 73, 32, 42, 32, 72, 84, 84, 80, 47, 50];
    proof {
        assert(p@ =~= h2_preface());
    }
    if buf.len() < 12 {
        return false;
    }
    let mut i: usize = 0;
    while i < 12
        invariant
            i <= 12,
            buf@.len() >= 12,
            p@ == h2_preface(),
            forall|j: int| 0 <= j < i ==> buf@[j] == p@[j],
        decreases 12 - i,
    {
        if buf[i] != p[i] {
            proof {
                assert(buf@.take(12)[i as int] != h2_preface()[i as int]);
            }
            return false;
        }
        i = i + 1;
    }
    proof {
        assert(buf@.take(12) =~= h2_preface());
    }
    true
}

/// Parses the request head at the start of `buf`.
pub fn parse_request(buf: &[u8]) -> (r: ParseStatus)
    ensures
        r@ == parse_spec(buf@),
        r matches ParseStatus::Parsed(_, n) ==> n <= buf@.len(),
{
    if starts_with_h2_preface(buf) {
        return ParseStatus::Malformed(Malformed::Http2Preface);
    }
    match scan_request(buf) {
        HeadScan::Partial => ParseStatus::NeedMoreData,
        HeadScan::Complete(h, n) => ParseStatus::Parsed(h, n),
        HeadScan::Invalid => ParseStatus::Malformed(Malformed::Syntax),
    }
}

/// A request as a server's handler sees it.
#[derive(Debug)]
pub struct Request {
    /// The method, such as `GET`.
    pub method: Vec<u8>,
    /// The header fields.
    pub headers: Vec<HeaderField>,
    /// The request target.
    pub uri: Vec<u8>,
    /// The minor HTTP version.
    pub version: u8,
}

impl Request {
    /// A request made of a parsed head.
    pub fn new(incoming: RequestHead) -> (r: Request)
        ensures
            r.method@ == incoming.method@,
            r.uri@ == incoming.target@,
            r.version == incoming.minor_version,
            headers_view(r.headers@) == headers_view(incoming.headers@),
    {
        let RequestHead { method, target, minor_version, headers } = incoming;
        Request { method, headers, uri: target, version: minor_version }
    }
}

} // verus!
