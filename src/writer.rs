//! Outgoing messages: a `Transfer` takes the head once and then becomes a
//! `StreamingTransfer` that frames the body as the head declared it.
use vstd::prelude::*;
use crate::chunked::{
    chunk_frame, concat, decode_spec, encode_chunk, encode_last_chunk, encode_spec, frames, initial_state,
    last_chunk, lemma_chunked_round_trip, ChunkState, DecodeRun,
};
use crate::framing::{
    BodyFraming, FramingError, HeaderField, content_length, content_length_spec, headers_view,
    is_get_or_head, is_transfer_chunked, bytes_eq, name_matches, content_length_name, transfer_encoding_name, named_values, transfer_chunked, find_named,
};
use crate::reader::append;
use core::marker::PhantomData;

verus! {

/// How the body of an outgoing message is framed.
#[derive(Clone, Copy, Debug, PartialEq, Eq)]
pub enum BodyWriter {
    /// This many body bytes are still owed.
    Sized { remaining: u64 },
    /// Chunked; `finished` once the closing chunk went out.
    Chunked { finished: bool },
}

/// A write that the framing does not allow.
#[derive(Clone, Copy, Debug, PartialEq, Eq)]
pub enum WriteError {
    /// More bytes than the declared length, or than a chunk can carry.
    TooLong,
    /// The body was finished before the declared length was written.
    TooShort,
    /// A write after the closing chunk.
    Finished,
}

/// What a write does: the writer after it and the bytes it emits, or the
/// error (which changes nothing).
pub open spec fn write_spec(w: BodyWriter, data: Seq<u8>) -> Result<(BodyWriter, Seq<u8>), WriteError> {
    match w {
        BodyWriter::Sized { remaining } => {
            if data.len() > remaining {
                Err(WriteError::TooLong)
            } else {
                Ok((BodyWriter::Sized { remaining: (remaining - data.len()) as u64 }, data))
            }
        },
        BodyWriter::Chunked { finished } => {
            if finished {
                Err(WriteError::Finished)
            } else if data.len() > u64::MAX {
                Err(WriteError::TooLong)
            } else {
                Ok((w, chunk_frame(data)))
            }
        },
    }
}

/// What finishing does: a sized body must be complete; a chunked one gets
/// its closing chunk, once.
pub open spec fn finish_spec(w: BodyWriter) -> Result<(BodyWriter, Seq<u8>), WriteError> {
    match w {
        BodyWriter::Sized { remaining } => {
            if remaining == 0 {
                Ok((w, seq![]))
            } else {
                Err(WriteError::TooShort)
            }
        },
        BodyWriter::Chunked { finished } => {
            if finished {
                Ok((w, seq![]))
            } else {
                Ok((BodyWriter::Chunked { finished: true }, last_chunk()))
            }
        },
    }
}

/// A sized writer refuses more bytes than declared; written exactly, its
/// body finishes with nothing added after the data.
pub proof fn lemma_sized_enforcement(n: u64, data: Seq<u8>)
    ensures
        data.len() > n ==> write_spec(BodyWriter::Sized { remaining: n }, data) == Err::<(BodyWriter, Seq<u8>), WriteError>(WriteError::TooLong),
        data.len() == n ==> ({
            let w = write_spec(BodyWriter::Sized { remaining: n }, data);
            &&& w == Ok::<(BodyWriter, Seq<u8>), WriteError>((BodyWriter::Sized { remaining: 0 }, data))
            &&& finish_spec(w->Ok_0.0) == Ok::<(BodyWriter, Seq<u8>), WriteError>((BodyWriter::Sized { remaining: 0 }, Seq::<u8>::empty()))
        }),
{
}

impl BodyWriter {
    pub fn new(f: BodyFraming) -> (r: BodyWriter)
        requires
            f is Sized || f is Chunked,
        ensures
            r == (match f {
                BodyFraming::Sized(n) => BodyWriter::Sized { remaining: n },
                _ => BodyWriter::Chunked { finished: false },
            }),
    {
        match f {
            BodyFraming::Sized(n) => BodyWriter::Sized { remaining: n },
            _ => BodyWriter::Chunked { finished: false },
        }
    }

    /// Writes body bytes to `out`, framed.
    pub fn write(&mut self, data: &[u8], out: &mut Vec<u8>) -> (r: Result<(), WriteError>)
        ensures
            match write_spec(*old(self), data@) {
                Ok((w, bytes)) => r is Ok && *final(self) == w && final(out)@ == old(out)@ + bytes,
                Err(e) => r == Err::<(), WriteError>(e) && *final(self) == *old(self) && final(out)@ == old(out)@,
            },
    {
        match *self {
            BodyWriter::Sized { remaining } => {
                if data.len() as u64 > remaining {
                    return Err(WriteError::TooLong);
                }
                append(out, data, data.len());
                proof {
                    assert(data@.take(data@.len() as int) =~= data@);
                }
                *self = BodyWriter::Sized { remaining: remaining - data.len() as u64 };
                Ok(())
            },
            BodyWriter::Chunked { finished } => {
                if finished {
                    return Err(WriteError::Finished);
                }
                if data.len() as u128 > u64::MAX as u128 {
                    return Err(WriteError::TooLong);
                }
                encode_chunk(data, out);
                Ok(())
            },
        }
    }

    /// Ends the body: checks a sized body is complete, or emits the closing
    /// chunk of a chunked one the first time.
    pub fn finish(&mut self, out: &mut Vec<u8>) -> (r: Result<(), WriteError>)
        ensures
            match finish_spec(*old(self)) {
                Ok((w, bytes)) => r is Ok && *final(self) == w && final(out)@ == old(out)@ + bytes,
                Err(e) => r == Err::<(), WriteError>(e) && *final(self) == *old(self) && final(out)@ == old(out)@,
            },
    {
        match *self {
            BodyWriter::Sized { remaining } => {
                if remaining != 0 {
                    return Err(WriteError::TooShort);
                }
                proof {
                    assert(old(out)@ + Seq::<u8>::empty() =~= old(out)@);
                }
                Ok(())
            },
            BodyWriter::Chunked { finished } => {
                if finished {
                    proof {
                        assert(old(out)@ + Seq::<u8>::empty() =~= old(out)@);
                    }
                    return Ok(());
                }
                encode_last_chunk(out);
                *self = BodyWriter::Chunked { finished: true };
                Ok(())
            },
        }
    }
}

pub open spec fn crlf() -> Seq<u8> {
    seq![13u8, 10]
}

/// The header fields as they go on the wire, each `name: value` CRLF.
pub open spec fn fields_bytes(h: Seq<(Seq<u8>, Seq<u8>)>) -> Seq<u8>
    decreases h.len(),
{
    if h.len() == 0 {
        seq![]
    } else {
        fields_bytes(h.drop_last()) + h.last().0 + seq![58u8, 32] + h.last().1 + crlf()
    }
}

/// The decimal digits of `n`, most significant first.
pub open spec fn dec_digits(n: nat) -> Seq<u8>
    decreases n,
{
    if n < 10 {
        seq![(48 + n) as u8]
    } else {
        dec_digits(n / 10).push((48 + n % 10) as u8)
    }
}

/// `HTTP/1.x`.
pub open spec fn version_bytes(minor: u8) -> Seq<u8> {
    seq![72u8, 84, 84, 80, 47, 49, 46, (48 + minor) as u8]
}

pub open spec fn status_line(minor: u8, status: u16, reason: Seq<u8>) -> Seq<u8> {
    version_bytes(minor) + seq![32u8] + dec_digits(status as nat) + seq![32u8] + reason + crlf()
}

pub open spec fn request_line(method: Seq<u8>, target: Seq<u8>) -> Seq<u8> {
    method + seq![32u8] + target + seq![32u8] + version_bytes(1) + crlf()
}

pub open spec fn date_name() -> Seq<u8> {
    seq![100u8, 97, 116, 101]
}

/// The headers with a `Date` field added when they have none.
pub open spec fn with_date(h: Seq<(Seq<u8>, Seq<u8>)>, date: Seq<u8>) -> Seq<(Seq<u8>, Seq<u8>)> {
    if named_values(h, date_name()).len() == 0 {
        h.push((seq![68u8, 97, 116, 101], date))
    } else {
        h
    }
}

/// The headers with `chunked` appended as the last transfer-coding, in a
/// field of its own after any earlier `Transfer-Encoding`, unless it is
/// the last coding already.
pub open spec fn with_chunked(h: Seq<(Seq<u8>, Seq<u8>)>) -> Seq<(Seq<u8>, Seq<u8>)> {
    if transfer_chunked(h) {
        h
    } else {
        h.push((
            seq![84u8, 114, 97, 110, 115, 102, 101, 114, 45, 69, 110, 99, 111, 100, 105, 110, 103],
            seq![99u8, 104, 117, 110, 107, 101, 100],
        ))
    }
}

/// The headers and body framing an outgoing message goes out with: a valid
/// `Content-Length` makes it sized; without one it is chunked.
pub open spec fn outgoing(h: Seq<(Seq<u8>, Seq<u8>)>) -> Result<(Seq<(Seq<u8>, Seq<u8>)>, BodyWriter), FramingError> {
    match content_length_spec(h) {
        Some(Ok(n)) => Ok((h, BodyWriter::Sized { remaining: n })),
        Some(Err(e)) => Err(e),
        None => Ok((with_chunked(h), BodyWriter::Chunked { finished: false })),
    }
}

/// Statuses whose responses carry no body: 1xx, 204 and 304.
pub open spec fn status_bodiless(status: u16) -> bool {
    (100 <= status <= 199) || status == 204 || status == 304
}

/// Outgoing response headers and framing: a status that rules out a body
/// gets an empty one and no added coding.
pub open spec fn outgoing_response(status: u16, h: Seq<(Seq<u8>, Seq<u8>)>) -> Result<(Seq<(Seq<u8>, Seq<u8>)>, BodyWriter), FramingError> {
    if status_bodiless(status) {
        Ok((h, BodyWriter::Sized { remaining: 0 }))
    } else {
        outgoing(h)
    }
}

/// Outgoing request headers and framing: GET and HEAD carry no body.
pub open spec fn outgoing_request(method: Seq<u8>, h: Seq<(Seq<u8>, Seq<u8>)>) -> Result<(Seq<(Seq<u8>, Seq<u8>)>, BodyWriter), FramingError> {
    if is_get_or_head(method) {
        Ok((h, BodyWriter::Sized { remaining: 0 }))
    } else {
        outgoing(h)
    }
}

/// Marks a transfer that carries a request.
pub struct Request;

/// Marks a transfer that carries a response.
pub struct Response;

/// Marks a transfer whose head is not written yet.
pub struct Fresh;

/// Marks a transfer whose head is written and whose body is being written.
pub struct Streaming;

/// A writer of one outgoing message. `T` is its role; `S` its phase: a
/// `Fresh` transfer can only start, which writes the head and gives the
/// `Streaming` transfer that writes the body.
pub struct Transfer<T, S> {
    /// The bytes written and not yet taken by the transport.
    pub out: Vec<u8>,
    /// The body framing; `None` while the head is not written.
    pub body: Option<BodyWriter>,
    pub role: PhantomData<T>,
    pub phase: PhantomData<S>,
}

/// A fresh transfer with nothing written.
pub fn transfer<T>() -> (r: Transfer<T, Fresh>)
    ensures
        r.out@ == Seq::<u8>::empty(),
        r.body is None,
{
    Transfer { out: Vec::new(), body: None, role: PhantomData, phase: PhantomData }
}

/// Relies on `time::now_utc` and `Tm::rfc822`: the current time, formatted
/// for a `Date` field. Nothing is known of the value.
#[verifier::external_body]
fn http_date_now() -> (r: Vec<u8>) {
    format!("{}", time::now_utc().rfc822()).into_bytes()
}

/// Appends the decimal digits of `n`.
fn push_decimal(n: u64, out: &mut Vec<u8>)
    ensures
        final(out)@ == old(out)@ + dec_digits(n as nat),
    decreases n,
{
    if n >= 10 {
        push_decimal(n / 10, out);
    }
    let c: u8 = 48 + (n % 10) as u8;
    out.push(c);
    proof {
        if n >= 10 {
            assert(old(out)@ + dec_digits((n / 10) as nat) + seq![c] =~= old(out)@ + dec_digits(n as nat));
        } else {
            assert(old(out)@.push(c) =~= old(out)@ + dec_digits(n as nat));
        }
    }
}

fn push_bytes(out: &mut Vec<u8>, data: &[u8])
    ensures
        final(out)@ == old(out)@ + data@,
{
    append(out, data, data.len());
    proof {
        assert(data@.take(data@.len() as int) =~= data@);
    }
}

fn push_version(out: &mut Vec<u8>, minor: u8)
    requires
        minor <= 9,
    ensures
        final(out)@ == old(out)@ + version_bytes(minor),
{
    let v: [u8; 7] = [72, 84, 84, 80, 47, 49, 46];
    push_bytes(out, &v);
    out.push(48 + minor);
    proof {
        assert(final(out)@ =~= old(out)@ + version_bytes(minor));
    }
}

/// Appends the header fields, then the empty line that ends the head.
fn push_fields(out: &mut Vec<u8>, h: &Vec<HeaderField>)
    ensures
        final(out)@ == old(out)@ + fields_bytes(headers_view(h@)) + crlf(),
{
    let mut i: usize = 0;
    while i < h.len()
        invariant
            i <= h@.len(),
            out@ == old(out)@ + fields_bytes(headers_view(h@).take(i as int)),
        decreases h@.len() - i,
    {
        let ghost before = out@;
        push_bytes(out, h[i].name.as_slice());
        out.push(58);
        out.push(32);
        push_bytes(out, h[i].value.as_slice());
        out.push(13);
        out.push(10);
        proof {
            let hv = headers_view(h@);
            assert(hv.take(i + 1).drop_last() =~= hv.take(i as int));
            assert(hv.take(i + 1).last() == h@[i as int]@);
            assert(out@ =~= before + h@[i as int].name@ + seq![58u8, 32] + h@[i as int].value@ + crlf());
            assert(out@ =~= old(out)@ + fields_bytes(hv.take(i + 1)));
        }
        i = i + 1;
    }
    out.push(13);
    out.push(10);
    proof {
        assert(headers_view(h@).take(i as int) =~= headers_view(h@));
        assert(final(out)@ =~= old(out)@ + fields_bytes(headers_view(h@)) + crlf());
    }
}

fn field(name: &[u8], value: &[u8]) -> (r: HeaderField)
    ensures
        r@ == (name@, value@),
{
    let mut n: Vec<u8> = Vec::new();
    push_bytes(&mut n, name);
    let mut v: Vec<u8> = Vec::new();
    push_bytes(&mut v, value);
    proof {
        assert(n@ =~= name@);
        assert(v@ =~= value@);
    }
    HeaderField { name: n, value: v }
}

/// Adds a `Date` field when `h` has none.
fn add_date(h: &mut Vec<HeaderField>, date: &[u8])
    ensures
        headers_view(final(h)@) == with_date(headers_view(old(h)@), date@),
{
    let lit: [u8; 4] = [100, 97, 116, 101];
    proof {
        assert(lit@ =~= date_name());
    }
    let (count, _) = find_named(h, &lit);
    if count == 0 {
        let d: [u8; 4] = [68, 97, 116, 101];
        let f = field(&d, date);
        h.push(f);
        proof {
            assert(d@ =~= seq![68u8, 97, 116, 101]);
            assert(headers_view(final(h)@) =~= headers_view(old(h)@).push((d@, date@)));
        }
    }
}

/// Decides the framing of an outgoing body, adding `Transfer-Encoding:
/// chunked` where no length is declared.
fn frame_outgoing(h: &mut Vec<HeaderField>) -> (r: Result<BodyWriter, FramingError>)
    ensures
        match outgoing(headers_view(old(h)@)) {
            Ok((hs, w)) => r == Ok::<BodyWriter, FramingError>(w) && headers_view(final(h)@) == hs,
            Err(e) => r == Err::<BodyWriter, FramingError>(e) && final(h)@ == old(h)@,
        },
{
    match content_length(h) {
        Some(Ok(n)) => Ok(BodyWriter::Sized { remaining: n }),
        Some(Err(e)) => Err(e),
        None => {
            if !is_transfer_chunked(h) {
                let te: [u8; 17] = [84, 114, 97, 110, 115, 102, 101, 114, 45, 69, 110, 99, 111, 100, 105, 110, 103];
                let ch: [u8; 7] = [99, 104, 117, 110, 107, 101, 100];
                let f = field(&te, &ch);
                h.push(f);
                proof {
                    assert(te@ =~= seq![84u8, 114, 97, 110, 115, 102, 101, 114, 45, 69, 110, 99, 111, 100, 105, 110, 103]);
                    assert(ch@ =~= seq![99u8, 104, 117, 110, 107, 101, 100]);
                    assert(headers_view(final(h)@) =~= headers_view(old(h)@).push((te@, ch@)));
                }
            }
            Ok(BodyWriter::Chunked { finished: false })
        },
    }
}

impl Transfer<Response, Fresh> {
    /// Writes the status line and the head with the given `Date` value,
    /// which is added when the headers have no `Date`. A 1xx, 204 or 304
    /// response has no body; otherwise the body is sized by a valid
    /// `Content-Length`, and chunked without one.
    pub fn start_at(self, minor: u8, status: u16, reason: &[u8], headers: &mut Vec<HeaderField>, date: &[u8]) -> (r: Result<Transfer<Response, Streaming>, FramingError>)
        requires
            minor <= 9,
        ensures
            ({
                let dated = with_date(headers_view(old(headers)@), date@);
                match outgoing_response(status, dated) {
                    Ok((hs, w)) => r matches Ok(t) && t.body == Some(w) && headers_view(final(headers)@) == hs
                        && t.out@ == self.out@ + status_line(minor, status, reason@) + fields_bytes(hs) + crlf(),
                    Err(e) => r == Err::<Transfer<Response, Streaming>, FramingError>(e)
                        && headers_view(final(headers)@) == dated,
                }
            }),
    {
        let mut out = self.out;
        add_date(headers, date);
        let w = if 100 <= status && status <= 199 || status == 204 || status == 304 {
            BodyWriter::Sized { remaining: 0 }
        } else {
            match frame_outgoing(headers) {
                Ok(w) => w,
                Err(e) => return Err(e),
            }
        };
        let ghost start = out@;
        push_version(&mut out, minor);
        out.push(32);
        push_decimal(status as u64, &mut out);
        out.push(32);
        push_bytes(&mut out, reason);
        out.push(13);
        out.push(10);
        proof {
            assert(out@ =~= start + status_line(minor, status, reason@));
        }
        push_fields(&mut out, headers);
        Ok(Transfer { out, body: Some(w), role: PhantomData, phase: PhantomData })
    }

    /// Writes the head as `start_at` does, with the current time as `Date`.
    pub fn start(self, minor: u8, status: u16, reason: &[u8], headers: &mut Vec<HeaderField>) -> (r: Result<Transfer<Response, Streaming>, FramingError>)
        requires
            minor <= 9,
        ensures
            exists|date: Seq<u8>|
                match #[trigger] outgoing_response(status, with_date(headers_view(old(headers)@), date)) {
                    Ok((hs, w)) => r matches Ok(t) && t.body == Some(w) && headers_view(final(headers)@) == hs
                        && t.out@ == self.out@ + status_line(minor, status, reason@) + fields_bytes(hs) + crlf(),
                    Err(e) => r == Err::<Transfer<Response, Streaming>, FramingError>(e)
                        && headers_view(final(headers)@) == with_date(headers_view(old(headers)@), date),
                },
    {
        let date = http_date_now();
        self.start_at(minor, status, reason, headers, date.as_slice())
    }
}

impl Transfer<Request, Fresh> {
    /// Writes the request line `method target HTTP/1.1` and the head. GET and
    /// HEAD carry no body; otherwise a valid `Content-Length` sizes it and
    /// without one it is chunked.
    pub fn start(self, method: &[u8], target: &[u8], headers: &mut Vec<HeaderField>) -> (r: Result<Transfer<Request, Streaming>, FramingError>)
        ensures
            match outgoing_request(method@, headers_view(old(headers)@)) {
                Ok((hs, w)) => r matches Ok(t) && t.body == Some(w) && headers_view(final(headers)@) == hs
                    && t.out@ == self.out@ + request_line(method@, target@) + fields_bytes(hs) + crlf(),
                Err(e) => r == Err::<Transfer<Request, Streaming>, FramingError>(e)
                    && final(headers)@ == old(headers)@,
            },
    {
        let mut out = self.out;
        let get: [u8; 3] = [71, 69, 84];
        let head: [u8; 4] = [72, 69, 65, 68];
        proof {
            assert(get@ =~= seq![71u8, 69, 84]);
            assert(head@ =~= seq![72u8, 69, 65, 68]);
        }
        let w = if bytes_eq(method, &get) || bytes_eq(method, &head) {
            BodyWriter::Sized { remaining: 0 }
        } else {
            match frame_outgoing(headers) {
                Ok(w) => w,
                Err(e) => return Err(e),
            }
        };
        let ghost start = out@;
        push_bytes(&mut out, method);
        out.push(32);
        push_bytes(&mut out, target);
        out.push(32);
        push_version(&mut out, 1);
        out.push(13);
        out.push(10);
        proof {
            assert(out@ =~= start + request_line(method@, target@));
        }
        push_fields(&mut out, headers);
        Ok(Transfer { out, body: Some(w), role: PhantomData, phase: PhantomData })
    }
}

impl<T> Transfer<T, Streaming> {
    /// Writes body bytes, framed as the head declared.
    pub fn write(&mut self, data: &[u8]) -> (r: Result<(), WriteError>)
        requires
            old(self).body is Some,
        ensures
            final(self).body is Some,
            match write_spec(old(self).body->Some_0, data@) {
                Ok((w, bytes)) => r is Ok && final(self).body == Some(w) && final(self).out@ == old(self).out@ + bytes,
                Err(e) => r == Err::<(), WriteError>(e) && final(self).body == old(self).body && final(self).out@ == old(self).out@,
            },
    {
        let mut w = self.body.unwrap();
        let r = w.write(data, &mut self.out);
        self.body = Some(w);
        r
    }

    /// Ends the body.
    pub fn finish(&mut self) -> (r: Result<(), WriteError>)
        requires
            old(self).body is Some,
        ensures
            final(self).body is Some,
            match finish_spec(old(self).body->Some_0) {
                Ok((w, bytes)) => r is Ok && final(self).body == Some(w) && final(self).out@ == old(self).out@ + bytes,
                Err(e) => r == Err::<(), WriteError>(e) && final(self).body == old(self).body && final(self).out@ == old(self).out@,
            },
    {
        let mut w = self.body.unwrap();
        let r = w.finish(&mut self.out);
        self.body = Some(w);
        r
    }

    /// Hands the written bytes to the transport, leaving none behind.
    pub fn take_output(&mut self) -> (r: Vec<u8>)
        ensures
            r@ == old(self).out@,
            final(self).out@ == Seq::<u8>::empty(),
            final(self).body == old(self).body,
    {
        let mut r: Vec<u8> = Vec::new();
        core::mem::swap(&mut self.out, &mut r);
        r
    }
}

/// Writes each of `ds` in turn: the writer after them and the bytes emitted,
/// or the first error.
pub open spec fn write_all(w: BodyWriter, ds: Seq<Seq<u8>>) -> Result<(BodyWriter, Seq<u8>), WriteError>
    decreases ds.len(),
{
    if ds.len() == 0 {
        Ok((w, seq![]))
    } else {
        match write_all(w, ds.drop_last()) {
            Err(e) => Err(e),
            Ok((w1, bytes)) => match write_spec(w1, ds.last()) {
                Err(e) => Err(e),
                Ok((w2, more)) => Ok((w2, bytes + more)),
            },
        }
    }
}

pub open spec fn total_len(ds: Seq<Seq<u8>>) -> nat
    decreases ds.len(),
{
    if ds.len() == 0 {
        0
    } else {
        total_len(ds.drop_last()) + ds.last().len()
    }
}

proof fn lemma_sized_writes(n: u64, ds: Seq<Seq<u8>>)
    requires
        total_len(ds) <= n,
    ensures
        write_all(BodyWriter::Sized { remaining: n }, ds) == Ok::<(BodyWriter, Seq<u8>), WriteError>(
            (BodyWriter::Sized { remaining: (n - total_len(ds)) as u64 }, concat(ds)),
        ),
    decreases ds.len(),
{
    if ds.len() > 0 {
        lemma_sized_writes(n, ds.drop_last());
    }
}

/// A sized writer given several writes whose lengths add up to its declared
/// length accepts them all, emits exactly their bytes joined in order, and
/// finishes with nothing added.
pub proof fn lemma_sized_writes_then_finish(n: u64, ds: Seq<Seq<u8>>)
    requires
        total_len(ds) == n,
    ensures
        write_all(BodyWriter::Sized { remaining: n }, ds) == Ok::<(BodyWriter, Seq<u8>), WriteError>(
            (BodyWriter::Sized { remaining: 0 }, concat(ds)),
        ),
        finish_spec(BodyWriter::Sized { remaining: 0 }) == Ok::<(BodyWriter, Seq<u8>), WriteError>(
            (BodyWriter::Sized { remaining: 0 }, Seq::<u8>::empty()),
        ),
{
    lemma_sized_writes(n, ds);
}

proof fn lemma_chunked_writes(ps: Seq<Seq<u8>>)
    requires
        forall|i: int| 0 <= i < ps.len() ==> (#[trigger] ps[i]).len() <= u64::MAX,
    ensures
        write_all(BodyWriter::Chunked { finished: false }, ps) == Ok::<(BodyWriter, Seq<u8>), WriteError>(
            (BodyWriter::Chunked { finished: false }, frames(ps)),
        ),
    decreases ps.len(),
{
    if ps.len() > 0 {
        let init = ps.drop_last();
        assert forall|i: int| 0 <= i < init.len() implies (#[trigger] init[i]).len() <= u64::MAX by {
            assert(init[i] == ps[i]);
        }
        lemma_chunked_writes(init);
        assert(ps[ps.len() - 1] == ps.last());
    }
}

/// A chunked writer given any payloads and then finished emits their
/// chunked encoding, the closing chunk once and last; decoding those bytes
/// yields the payloads joined in order and takes every byte.
pub proof fn lemma_chunked_writes_round_trip(ps: Seq<Seq<u8>>)
    requires
        forall|i: int| 0 <= i < ps.len() ==> (#[trigger] ps[i]).len() <= u64::MAX,
    ensures
        write_all(BodyWriter::Chunked { finished: false }, ps) == Ok::<(BodyWriter, Seq<u8>), WriteError>(
            (BodyWriter::Chunked { finished: false }, frames(ps)),
        ),
        finish_spec(BodyWriter::Chunked { finished: false }) == Ok::<(BodyWriter, Seq<u8>), WriteError>(
            (BodyWriter::Chunked { finished: true }, last_chunk()),
        ),
        frames(ps) + last_chunk() == encode_spec(ps),
        decode_spec(initial_state(), frames(ps) + last_chunk()) == (DecodeRun {
            state: Some(ChunkState::Done),
            out: concat(ps),
            used: (frames(ps) + last_chunk()).len(),
        }),
{
    lemma_chunked_writes(ps);
    lemma_chunked_round_trip(ps);
}

proof fn lemma_date_field_unrelated(h: Seq<(Seq<u8>, Seq<u8>)>, d: Seq<u8>, lit: Seq<u8>)
    requires
        lit.len() != 4,
    ensures
        named_values(h.push((seq![68u8, 97, 116, 101], d)), lit) == named_values(h, lit),
{
    let h2 = h.push((seq![68u8, 97, 116, 101], d));
    assert(h2.drop_last() =~= h);
    assert(!name_matches(h2.last().0, lit));
}

/// Starting a response does not depend on the `Date` value: with equal
/// status and equal headers, two dates give the same framing, or the same
/// error, and header fields that differ at most in the value of `Date`.
pub proof fn lemma_start_deterministic(status: u16, h1: Seq<(Seq<u8>, Seq<u8>)>, h2: Seq<(Seq<u8>, Seq<u8>)>, d1: Seq<u8>, d2: Seq<u8>)
    requires
        h1 == h2,
    ensures
        ({
            let o1 = outgoing_response(status, with_date(h1, d1));
            let o2 = outgoing_response(status, with_date(h2, d2));
            match (o1, o2) {
                (Ok((hs1, w1)), Ok((hs2, w2))) => w1 == w2 && hs1.len() == hs2.len() && forall|i: int|
                    0 <= i < hs1.len() ==> (#[trigger] hs1[i]).0 == hs2[i].0 && (hs1[i].1 == hs2[i].1
                        || name_matches(hs1[i].0, date_name())),
                (Err(e1), Err(e2)) => e1 == e2,
                _ => false,
            }
        }),
{
    let h = h1;
    if named_values(h, date_name()).len() == 0 {
        let a = with_date(h, d1);
        let b = with_date(h, d2);
        lemma_date_field_unrelated(h, d1, content_length_name());
        lemma_date_field_unrelated(h, d2, content_length_name());
        lemma_date_field_unrelated(h, d1, transfer_encoding_name());
        lemma_date_field_unrelated(h, d2, transfer_encoding_name());
        assert(a.last().0 =~= seq![68u8, 97, 116, 101]);
        assert(name_matches(a.last().0, date_name()));
        assert forall|i: int| 0 <= i < a.len() implies (#[trigger] a[i]).0 == b[i].0 && (a[i].1 == b[i].1
            || name_matches(a[i].0, date_name())) by {
            if i == a.len() - 1 {
                assert(a[i] == a.last());
            }
        }
        if !status_bodiless(status) && content_length_spec(a) is None {
            let ca = with_chunked(a);
            let cb = with_chunked(b);
            if !transfer_chunked(a) {
                assert forall|i: int| 0 <= i < ca.len() implies (#[trigger] ca[i]).0 == cb[i].0 && (ca[i].1 == cb[i].1
                    || name_matches(ca[i].0, date_name())) by {
                    if i < a.len() {
                        assert(ca[i] == a[i]);
                        assert(cb[i] == b[i]);
                    }
                }
            }
        }
    }
}

} // verus!
