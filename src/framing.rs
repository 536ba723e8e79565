//! Body framing: which strategy delimits a message body, decided from the
//! method or status and the `Content-Length` / `Transfer-Encoding` headers.
use vstd::prelude::*;

verus! {

/// A header field as it stood in the message; the name is matched without
/// regard to ASCII case.
#[derive(Clone, Debug)]
pub struct HeaderField {
    pub name: Vec<u8>,
    pub value: Vec<u8>,
}

impl View for HeaderField {
    type V = (Seq<u8>, Seq<u8>);

    open spec fn view(&self) -> (Seq<u8>, Seq<u8>) {
        (self.name@, self.value@)
    }
}

pub open spec fn headers_view(h: Seq<HeaderField>) -> Seq<(Seq<u8>, Seq<u8>)> {
    h.map_values(|f: HeaderField| f@)
}

/// How the extent of a body is determined.
#[derive(Clone, Copy, Debug, PartialEq, Eq)]
pub enum BodyFraming {
    /// No body.
    Empty,
    /// A body of exactly this many bytes.
    Sized(u64),
    /// A body in the chunked transfer-coding.
    Chunked,
    /// A body that ends when the connection does.
    ReadUntilClose,
}

/// The headers do not determine a body length.
#[derive(Clone, Copy, Debug, PartialEq, Eq)]
pub enum FramingError {
    /// A `Content-Length` that is not a decimal number that fits in 64 bits,
    /// or more than one `Content-Length` field.
    InvalidContentLength,
}

pub open spec fn lower(b: u8) -> u8 {
    if 65 <= b <= 90 {
        (b + 32) as u8
    } else {
        b
    }
}

/// `name` equals the lowercase `lit` up to ASCII case.
pub open spec fn name_matches(name: Seq<u8>, lit: Seq<u8>) -> bool {
    name.len() == lit.len() && forall|i: int| 0 <= i < name.len() ==> lower(#[trigger] name[i]) == lit[i]
}

/// The values of the fields named `lit`, in order.
pub open spec fn named_values(h: Seq<(Seq<u8>, Seq<u8>)>, lit: Seq<u8>) -> Seq<Seq<u8>>
    decreases h.len(),
{
    if h.len() == 0 {
        seq![]
    } else if name_matches(h.last().0, lit) {
        named_values(h.drop_last(), lit).push(h.last().1)
    } else {
        named_values(h.drop_last(), lit)
    }
}

pub open spec fn content_length_name() -> Seq<u8> {
    seq![99u8, 111, 110, 116, 101, 110, 116, 45, 108, 101, 110, 103, 116, 104]
}

pub open spec fn transfer_encoding_name() -> Seq<u8> {
    seq![116u8, 114, 97, 110, 115, 102, 101, 114, 45, 101, 110, 99, 111, 100, 105, 110, 103]
}

pub open spec fn chunked_name() -> Seq<u8> {
    seq![99u8, 104, 117, 110, 107, 101, 100]
}

pub open spec fn is_digit(b: u8) -> bool {
    48 <= b <= 57
}

pub open spec fn decimal_value(s: Seq<u8>) -> int
    decreases s.len(),
{
    if s.len() == 0 {
        0
    } else {
        decimal_value(s.drop_last()) * 10 + (s.last() - 48)
    }
}

/// A non-empty run of decimal digits whose value fits in 64 bits.
pub open spec fn decimal_ok(s: Seq<u8>) -> bool {
    &&& s.len() > 0
    &&& forall|i: int| 0 <= i < s.len() ==> is_digit(#[trigger] s[i])
    &&& decimal_value(s) <= u64::MAX
}

/// What the `Content-Length` fields say: `None` when there is none.
pub open spec fn content_length_spec(h: Seq<(Seq<u8>, Seq<u8>)>) -> Option<Result<u64, FramingError>> {
    let vs = named_values(h, content_length_name());
    if vs.len() == 0 {
        None
    } else if vs.len() == 1 && decimal_ok(vs[0]) {
        Some(Ok(decimal_value(vs[0]) as u64))
    } else {
        Some(Err(FramingError::InvalidContentLength))
    }
}

pub open spec fn is_ows(b: u8) -> bool {
    b == 32 || b == 9
}

pub open spec fn trim_end(s: Seq<u8>) -> Seq<u8>
    decreases s.len(),
{
    if s.len() > 0 && is_ows(s.last()) {
        trim_end(s.drop_last())
    } else {
        s
    }
}

/// The last coding of a comma-separated list is `chunked`, in any case.
pub open spec fn last_coding_chunked(v: Seq<u8>) -> bool {
    let t = trim_end(v);
    let n = t.len();
    &&& n >= 7
    &&& name_matches(t.subrange(n - 7, n as int), chunked_name())
    &&& ({
        let pre = trim_end(t.subrange(0, n - 7));
        pre.len() == 0 || pre.last() == 44
    })
}

/// The final transfer-coding of the message is `chunked`.
pub open spec fn transfer_chunked(h: Seq<(Seq<u8>, Seq<u8>)>) -> bool {
    let vs = named_values(h, transfer_encoding_name());
    vs.len() > 0 && last_coding_chunked(vs.last())
}

pub open spec fn is_get_or_head(m: Seq<u8>) -> bool {
    m == seq![71u8, 69, 84] || m == seq![72u8, 69, 65, 68]
}

pub open spec fn is_head(m: Seq<u8>) -> bool {
    m == seq![72u8, 69, 65, 68]
}

pub open spec fn is_connect(m: Seq<u8>) -> bool {
    m == seq![67u8, 79, 78, 78, 69, 67, 84]
}

/// Whether a response to a request with `method` and with `status` may carry
/// a body.
pub open spec fn response_may_have_body(method: Seq<u8>, status: u16) -> bool {
    !(is_head(method) || (100 <= status <= 199) || status == 204 || status == 304 || (is_connect(
        method,
    ) && 200 <= status <= 299))
}

/// Framing of a request body.
pub open spec fn request_framing(method: Seq<u8>, h: Seq<(Seq<u8>, Seq<u8>)>) -> Result<BodyFraming, FramingError> {
    if is_get_or_head(method) {
        Ok(BodyFraming::Empty)
    } else if transfer_chunked(h) {
        Ok(BodyFraming::Chunked)
    } else {
        match content_length_spec(h) {
            None => Ok(BodyFraming::Empty),
            Some(Ok(n)) => Ok(BodyFraming::Sized(n)),
            Some(Err(e)) => Err(e),
        }
    }
}

/// Framing of a response body, given the method of its request.
pub open spec fn response_framing(method: Seq<u8>, status: u16, h: Seq<(Seq<u8>, Seq<u8>)>) -> Result<BodyFraming, FramingError> {
    if !response_may_have_body(method, status) {
        Ok(BodyFraming::Empty)
    } else if transfer_chunked(h) {
        Ok(BodyFraming::Chunked)
    } else {
        match content_length_spec(h) {
            None => Ok(BodyFraming::ReadUntilClose),
            Some(Ok(n)) => Ok(BodyFraming::Sized(n)),
            Some(Err(e)) => Err(e),
        }
    }
}

/// The framing decision depends on its inputs alone: equal method (or status)
/// and equal header fields give equal framing.
pub proof fn lemma_framing_deterministic(
    m1: Seq<u8>,
    m2: Seq<u8>,
    s1: u16,
    s2: u16,
    h1: Seq<(Seq<u8>, Seq<u8>)>,
    h2: Seq<(Seq<u8>, Seq<u8>)>,
)
    requires
        m1 == m2,
        s1 == s2,
        h1 == h2,
    ensures
        request_framing(m1, h1) == request_framing(m2, h2),
        response_framing(m1, s1, h1) == response_framing(m2, s2, h2),
{
}

pub fn lower_byte(b: u8) -> (r: u8)
    ensures
        r == lower(b),
{
    if 65 <= b && b <= 90 {
        b + 32
    } else {
        b
    }
}

/// Compares a field name with a lowercase literal, ignoring ASCII case.
pub fn name_is(name: &[u8], lit: &[u8]) -> (r: bool)
    ensures
        r == name_matches(name@, lit@),
{
    if name.len() != lit.len() {
        return false;
    }
    let mut i: usize = 0;
    while i < name.len()
        invariant
            i <= name.len(),
            name.len() == lit.len(),
            forall|j: int| 0 <= j < i ==> lower(#[trigger] name@[j]) == lit@[j],
        decreases name.len() - i,
    {
        if lower_byte(name[i]) != lit[i] {
            return false;
        }
        i = i + 1;
    }
    true
}

/// Counts the fields named `lit` and finds the last of them.
pub fn find_named(h: &Vec<HeaderField>, lit: &[u8]) -> (r: (usize, Option<usize>))
    ensures
        r.0 == named_values(headers_view(h@), lit@).len(),
        match r.1 {
            None => r.0 == 0,
            Some(k) => k < h@.len() && r.0 > 0 && h@[k as int].value@ == named_values(headers_view(h@), lit@).last(),
        },
{
    let mut count: usize = 0;
    let mut last: Option<usize> = None;
    let mut i: usize = 0;
    while i < h.len()
        invariant
            i <= h@.len(),
            count == named_values(headers_view(h@).take(i as int), lit@).len(),
            count <= i,
            match last {
                None => count == 0,
                Some(k) => k < i && count > 0 && h@[k as int].value@ == named_values(
                    headers_view(h@).take(i as int),
                    lit@,
                ).last(),
            },
        decreases h@.len() - i,
    {
        proof {
            let hv = headers_view(h@);
            assert(hv.take(i + 1).drop_last() =~= hv.take(i as int));
            assert(hv.take(i + 1).last() == h@[i as int]@);
        }
        if name_is(h[i].name.as_slice(), lit) {
            count = count + 1;
            last = Some(i);
        }
        i = i + 1;
    }
    proof {
        assert(headers_view(h@).take(i as int) =~= headers_view(h@));
    }
    (count, last)
}

/// Reads a decimal number of at most 64 bits.
pub fn parse_decimal(v: &[u8]) -> (r: Option<u64>)
    ensures
        r == (if decimal_ok(v@) { Some(decimal_value(v@) as u64) } else { None }),
{
    if v.len() == 0 {
        return None;
    }
    let mut acc: u64 = 0;
    let mut i: usize = 0;
    while i < v.len()
        invariant
            i <= v@.len(),
            v@.len() > 0,
            forall|j: int| 0 <= j < i ==> is_digit(#[trigger] v@[j]),
            acc == decimal_value(v@.take(i as int)),
        decreases v@.len() - i,
    {
        proof {
            assert(v@.take(i + 1).drop_last() =~= v@.take(i as int));
        }
        let b = v[i];
        if b < 48 || b > 57 {
            return None;
        }
        let d = (b - 48) as u64;
        if acc > (u64::MAX - d) / 10 {
            proof {
                lemma_decimal_prefix_bound(v@, i + 1);
            }
            return None;
        }
        acc = acc * 10 + d;
        i = i + 1;
    }
    proof {
        assert(v@.take(i as int) =~= v@);
    }
    Some(acc)
}

/// The value of a run of digits is at least that of any prefix.
proof fn lemma_decimal_prefix_bound(s: Seq<u8>, k: int)
    requires
        0 <= k <= s.len(),
        forall|j: int| 0 <= j < s.len() ==> is_digit(#[trigger] s[j]) || j >= k,
    ensures
        decimal_value(s.take(k)) <= decimal_value(s) || exists|j: int| k <= j < s.len() && !is_digit(s[j]),
    decreases s.len(),
{
    if s.len() > k {
        if is_digit(s.last()) {
            lemma_decimal_prefix_bound(s.drop_last(), k);
            assert(s.drop_last().take(k) =~= s.take(k));
            if exists|j: int| k <= j < s.drop_last().len() && !is_digit(s.drop_last()[j]) {
                let j = choose|j: int| k <= j < s.drop_last().len() && !is_digit(s.drop_last()[j]);
                assert(!is_digit(s[j]));
            } else {
                assert(decimal_value(s.drop_last()) >= 0) by {
                    lemma_decimal_nonneg(s.drop_last());
                }
            }
        } else {
            assert(!is_digit(s[s.len() - 1]));
        }
    } else {
        assert(s.take(k) =~= s);
    }
}

proof fn lemma_decimal_nonneg(s: Seq<u8>)
    requires
        forall|j: int| 0 <= j < s.len() ==> is_digit(#[trigger] s[j]),
    ensures
        decimal_value(s) >= 0,
    decreases s.len(),
{
    if s.len() > 0 {
        lemma_decimal_nonneg(s.drop_last());
    }
}

/// The length of `v` without its trailing spaces and tabs.
fn trimmed_len(v: &[u8], end: usize) -> (r: usize)
    requires
        end <= v@.len(),
    ensures
        r <= end,
        v@.take(r as int) == trim_end(v@.take(end as int)),
{
    let mut e: usize = end;
    while e > 0 && (v[e - 1] == 32 || v[e - 1] == 9)
        invariant
            e <= end,
            end <= v@.len(),
            trim_end(v@.take(e as int)) == trim_end(v@.take(end as int)),
        decreases e,
    {
        proof {
            assert(v@.take(e as int).drop_last() =~= v@.take(e - 1));
        }
        e = e - 1;
    }
    e
}

/// Whether the last coding of a `Transfer-Encoding` value is `chunked`.
pub fn ends_in_chunked(v: &[u8]) -> (r: bool)
    ensures
        r == last_coding_chunked(v@),
{
    let n = trimmed_len(v, v.len());
    proof {
        assert(v@.take(v@.len() as int) =~= v@);
    }
    if n < 7 {
        return false;
    }
    let ghost t = v@.take(n as int);
    let lit: [u8; 7] = [99, 104, 117, 110, 107, 101, 100];
    let mut i: usize = 0;
    while i < 7
        invariant
            i <= 7,
            7 <= n <= v@.len(),
            t == v@.take(n as int),
            t == trim_end(v@),
            t.len() == n,
            lit@ == chunked_name(),
            forall|j: int| 0 <= j < i ==> lower(#[trigger] t.subrange(n - 7, n as int)[j]) == lit@[j],
        decreases 7 - i,
    {
        if lower_byte(v[n - 7 + i]) != lit[i] {
            proof {
                assert(t.subrange(n - 7, n as int)[i as int] == v@[n - 7 + i]);
                assert(lower(t.subrange(n - 7, n as int)[i as int]) != chunked_name()[i as int]);
                assert(!name_matches(t.subrange(n - 7, n as int), chunked_name()));
            }
            return false;
        }
        proof {
            assert(t.subrange(n - 7, n as int)[i as int] == v@[n - 7 + i]);
        }
        i = i + 1;
    }
    let m = trimmed_len(v, n - 7);
    proof {
        assert(t.subrange(0, n - 7) =~= v@.take(n - 7));
        assert(name_matches(t.subrange(n - 7, n as int), chunked_name()));
        let pre = trim_end(t.subrange(0, n - 7));
        assert(pre == v@.take(m as int));
        if m > 0 {
            assert(pre.last() == v@[m - 1]);
        }
    }
    m == 0 || v[m - 1] == 44
}

/// Whether the message's final transfer-coding is `chunked`.
pub fn is_transfer_chunked(h: &Vec<HeaderField>) -> (r: bool)
    ensures
        r == transfer_chunked(headers_view(h@)),
{
    let te: [u8; 17] = [116, 114, 97, 110, 115, 102, 101, 114, 45, 101, 110, 99, 111, 100, 105, 110, 103];
    proof {
        assert(te@ =~= transfer_encoding_name());
    }
    let (_, last) = find_named(h, &te);
    match last {
        None => false,
        Some(k) => ends_in_chunked(h[k].value.as_slice()),
    }
}

/// What the `Content-Length` fields say.
pub fn content_length(h: &Vec<HeaderField>) -> (r: Option<Result<u64, FramingError>>)
    ensures
        r == content_length_spec(headers_view(h@)),
{
    let cl: [u8; 14] = [99, 111, 110, 116, 101, 110, 116, 45, 108, 101, 110, 103, 116, 104];
    proof {
        assert(cl@ =~= content_length_name());
    }
    let (count, last) = find_named(h, &cl);
    match last {
        None => None,
        Some(k) => {
            if count != 1 {
                return Some(Err(FramingError::InvalidContentLength));
            }
            proof {
                let vs = named_values(headers_view(h@), content_length_name());
                assert(vs.last() == vs[0]);
            }
            match parse_decimal(h[k].value.as_slice()) {
                Some(n) => Some(Ok(n)),
                None => Some(Err(FramingError::InvalidContentLength)),
            }
        },
    }
}

pub fn bytes_eq(a: &[u8], b: &[u8]) -> (r: bool)
    ensures
        r == (a@ == b@),
{
    if a.len() != b.len() {
        return false;
    }
    let mut i: usize = 0;
    while i < a.len()
        invariant
            i <= a@.len(),
            a@.len() == b@.len(),
            forall|j: int| 0 <= j < i ==> a@[j] == b@[j],
        decreases a@.len() - i,
    {
        if a[i] != b[i] {
            return false;
        }
        i = i + 1;
    }
    proof {
        assert(a@ =~= b@);
    }
    true
}

/// Whether a response to `method` with `status` may carry a body (HEAD,
/// 1xx, 204, 304 and a 2xx answer to CONNECT may not).
pub fn should_have_response_body(method: &[u8], status: u16) -> (r: bool)
    ensures
        r == response_may_have_body(method@, status),
{
    let head: [u8; 4] = [72, 69, 65, 68];
    let connect: [u8; 7] = [67, 79, 78, 78, 69, 67, 84];
    proof {
        assert(head@ =~= seq![72u8, 69, 65, 68]);
        assert(connect@ =~= seq![67u8, 79, 78, 78, 69, 67, 84]);
    }
    if bytes_eq(method, &head) {
        return false;
    }
    if 100 <= status && status <= 199 || status == 204 || status == 304 {
        return false;
    }
    !(bytes_eq(method, &connect) && 200 <= status && status <= 299)
}

/// Decides the framing of a request body: none for GET and HEAD, chunked
/// when the last transfer-coding is `chunked`, else the `Content-Length`,
/// else none.
pub fn resolve_request(method: &[u8], h: &Vec<HeaderField>) -> (r: Result<BodyFraming, FramingError>)
    ensures
        r == request_framing(method@, headers_view(h@)),
{
    let get: [u8; 3] = [71, 69, 84];
    let head: [u8; 4] = [72, 69, 65, 68];
    proof {
        assert(get@ =~= seq![71u8, 69, 84]);
        assert(head@ =~= seq![72u8, 69, 65, 68]);
    }
    if bytes_eq(method, &get) || bytes_eq(method, &head) {
        return Ok(BodyFraming::Empty);
    }
    if is_transfer_chunked(h) {
        return Ok(BodyFraming::Chunked);
    }
    match content_length(h) {
        None => Ok(BodyFraming::Empty),
        Some(Ok(n)) => Ok(BodyFraming::Sized(n)),
        Some(Err(e)) => Err(e),
    }
}

/// Decides the framing of a response body: none where the status or the
/// request's method rules a body out, chunked when the last transfer-coding
/// is `chunked`, else the `Content-Length`, else until the connection closes.
pub fn resolve_response(method: &[u8], status: u16, h: &Vec<HeaderField>) -> (r: Result<BodyFraming, FramingError>)
    ensures
        r == response_framing(method@, status, headers_view(h@)),
{
    if !should_have_response_body(method, status) {
        return Ok(BodyFraming::Empty);
    }
    if is_transfer_chunked(h) {
        return Ok(BodyFraming::Chunked);
    }
    match content_length(h) {
        None => Ok(BodyFraming::ReadUntilClose),
        Some(Ok(n)) => Ok(BodyFraming::Sized(n)),
        Some(Err(e)) => Err(e),
    }
}

} // verus!
