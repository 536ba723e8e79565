//! The body reader: a cursor that takes body bytes off the input according
//! to the resolved framing.
use vstd::prelude::*;
use crate::chunked::{ChunkDecoder, ChunkState, MalformedChunk, decode_spec, lemma_decode_concat, lemma_decode_takes_all, lemma_decode_used_le};
use crate::framing::BodyFraming;

verus! {

/// Where a body reader stands.
#[derive(Clone, Copy, Debug)]
pub enum BodyReader {
    /// This many body bytes are still due; always positive.
    Sized(u64),
    /// A chunked body, not yet complete.
    Chunked(ChunkDecoder),
    /// Everything up to the end of the stream is body.
    UntilClose,
    /// The body is complete.
    Done,
}

/// What reading a slice does: the reader after it (`None` on a broken chunk
/// grammar), the body bytes, and how many input bytes were taken.
pub struct ReadRun {
    pub reader: Option<BodyReader>,
    pub out: Seq<u8>,
    pub used: nat,
}

pub open spec fn reader_for(f: BodyFraming) -> BodyReader {
    match f {
        BodyFraming::Empty => BodyReader::Done,
        BodyFraming::Sized(n) => if n == 0 { BodyReader::Done } else { BodyReader::Sized(n) },
        BodyFraming::Chunked => BodyReader::Chunked(ChunkDecoder { state: ChunkState::SizeDigits { size: 0, any: false } }),
        BodyFraming::ReadUntilClose => BodyReader::UntilClose,
    }
}

pub open spec fn read_spec(r: BodyReader, data: Seq<u8>) -> ReadRun {
    match r {
        BodyReader::Sized(n) => {
            if data.len() >= n {
                ReadRun { reader: Some(BodyReader::Done), out: data.take(n as int), used: n as nat }
            } else {
                ReadRun {
                    reader: Some(BodyReader::Sized((n - data.len()) as u64)),
                    out: data,
                    used: data.len(),
                }
            }
        },
        BodyReader::Chunked(d) => {
            let run = decode_spec(d.state, data);
            ReadRun {
                reader: match run.state {
                    None => None,
                    Some(s) => Some(
                        if s == ChunkState::Done {
                            BodyReader::Done
                        } else {
                            BodyReader::Chunked(ChunkDecoder { state: s })
                        },
                    ),
                },
                out: run.out,
                used: run.used,
            }
        },
        BodyReader::UntilClose => ReadRun { reader: Some(BodyReader::UntilClose), out: data, used: data.len() },
        BodyReader::Done => ReadRun { reader: Some(BodyReader::Done), out: seq![], used: 0 },
    }
}

/// The well-formed readers: a sized one has bytes left, a chunked one is
/// not complete.
pub open spec fn reader_wf(r: BodyReader) -> bool {
    match r {
        BodyReader::Sized(n) => n > 0,
        BodyReader::Chunked(d) => d.state != ChunkState::Done,
        _ => true,
    }
}

impl BodyReader {
    /// A reader for a body with framing `f`.
    pub fn new(f: BodyFraming) -> (r: BodyReader)
        ensures
            r == reader_for(f),
            reader_wf(r),
    {
        match f {
            BodyFraming::Empty => BodyReader::Done,
            BodyFraming::Sized(n) => if n == 0 { BodyReader::Done } else { BodyReader::Sized(n) },
            BodyFraming::Chunked => BodyReader::Chunked(ChunkDecoder::new()),
            BodyFraming::ReadUntilClose => BodyReader::UntilClose,
        }
    }

    pub fn is_complete(&self) -> (r: bool)
        ensures
            r == (*self matches BodyReader::Done),
    {
        matches!(self, BodyReader::Done)
    }

    /// Takes the body bytes that `data` holds, appends them to `out`, and
    /// returns how many bytes of `data` were taken; the rest follows the body.
    pub fn read_available(&mut self, data: &[u8], out: &mut Vec<u8>) -> (r: Result<usize, MalformedChunk>)
        requires
            reader_wf(*old(self)),
        ensures
            ({
                let run = read_spec(*old(self), data@);
                match r {
                    Ok(n) => run.reader == Some(*final(self)) && n == run.used
                        && final(out)@ == old(out)@ + run.out,
                    Err(_) => run.reader is None && final(out)@ == old(out)@ + run.out,
                }
            }),
            r is Ok ==> reader_wf(*final(self)),
            r matches Ok(n) ==> n <= data@.len(),
    {
        match self {
            BodyReader::Sized(n) => {
                let n = *n;
                if data.len() as u64 >= n {
                    let k = n as usize;
                    append(out, data, k);
                    *self = BodyReader::Done;
                    Ok(k)
                } else {
                    append(out, data, data.len());
                    proof {
                        assert(data@.take(data@.len() as int) =~= data@);
                    }
                    *self = BodyReader::Sized(n - data.len() as u64);
                    Ok(data.len())
                }
            },
            BodyReader::Chunked(d) => {
                let mut dec = *d;
                let r = dec.feed(data, out);
                match r {
                    Ok(k) => {
                        if dec.is_done() {
                            *self = BodyReader::Done;
                        } else {
                            *self = BodyReader::Chunked(dec);
                        }
                        Ok(k)
                    },
                    Err(e) => Err(e),
                }
            },
            BodyReader::UntilClose => {
                append(out, data, data.len());
                proof {
                    assert(data@.take(data@.len() as int) =~= data@);
                }
                Ok(data.len())
            },
            BodyReader::Done => {
                proof {
                    assert(old(out)@ + Seq::<u8>::empty() =~= old(out)@);
                }
                Ok(0)
            },
        }
    }

    /// The stream has ended: a body read until close is then complete.
    /// Returns whether the body is complete.
    pub fn on_eof(&mut self) -> (r: bool)
        ensures
            r == (*old(self) matches BodyReader::UntilClose || *old(self) matches BodyReader::Done),
            *final(self) == (if r { BodyReader::Done } else { *old(self) }),
    {
        match self {
            BodyReader::UntilClose => {
                *self = BodyReader::Done;
                true
            },
            BodyReader::Done => true,
            _ => false,
        }
    }
}

/// Appends the first `k` bytes of `data` to `out`.
pub fn append(out: &mut Vec<u8>, data: &[u8], k: usize)
    requires
        k <= data@.len(),
    ensures
        final(out)@ == old(out)@ + data@.take(k as int),
{
    let mut i: usize = 0;
    while i < k
        invariant
            i <= k,
            k <= data@.len(),
            out@ == old(out)@ + data@.take(i as int),
        decreases k - i,
    {
        out.push(data[i]);
        proof {
            assert(data@.take(i as int).push(data@[i as int]) =~= data@.take(i + 1));
            assert((old(out)@ + data@.take(i as int)).push(data@[i as int]) =~= old(out)@ + data@.take(i + 1));
        }
        i = i + 1;
    }
}

/// Body bytes split across deliveries: reading `a` and then `b` takes the
/// same bytes and yields the same body as reading `a + b` at once, while the
/// body is not complete after `a`.
pub proof fn lemma_read_split(r: BodyReader, a: Seq<u8>, b: Seq<u8>)
    requires
        reader_wf(r),
        read_spec(r, a).reader matches Some(r1) && !(r1 is Done),
    ensures
        ({
            let ra = read_spec(r, a);
            let rb = read_spec(ra.reader->Some_0, b);
            read_spec(r, a + b) == (ReadRun { reader: rb.reader, out: ra.out + rb.out, used: ra.used + rb.used })
        }),
{
    let ra = read_spec(r, a);
    let r1 = ra.reader->Some_0;
    match r {
        BodyReader::Sized(n) => {
            let rb = read_spec(r1, b);
            if a.len() + b.len() >= n {
                assert((a + b).take(n as int) =~= a + b.take(n - a.len()));
            } else {
                assert(a + b =~= ra.out + rb.out);
            }
        },
        BodyReader::Chunked(d) => {
            lemma_decode_concat(d.state, a, b);
        },
        BodyReader::UntilClose => {},
        BodyReader::Done => {},
    }
}

/// A reader never takes more bytes than it is given.
pub proof fn lemma_read_used_le(r: BodyReader, data: Seq<u8>)
    ensures
        read_spec(r, data).used <= data.len(),
{
    if let BodyReader::Chunked(d) = r {
        lemma_decode_used_le(d.state, data);
    }
}

/// While the body is not complete, a reader takes every byte given to it.
pub proof fn lemma_read_takes_all(r: BodyReader, data: Seq<u8>)
    requires
        reader_wf(r),
        read_spec(r, data).reader matches Some(r1) && !(r1 is Done),
    ensures
        read_spec(r, data).used == data.len(),
{
    if let BodyReader::Chunked(d) = r {
        lemma_decode_takes_all(d.state, data);
    }
}

} // verus!
