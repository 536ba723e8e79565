//! The chunked transfer-coding: an encoder of size-prefixed chunks and an
//! incremental decoder that advances one byte at a time.
use vstd::prelude::*;

verus! {

pub const CR: u8 = 13;

pub const LF: u8 = 10;

/// State of the chunked decoder.
#[derive(Clone, Copy, Debug, PartialEq, Eq)]
pub enum ChunkState {
    /// Reading the hexadecimal size; `any` is set once a digit was seen.
    SizeDigits { size: u64, any: bool },
    /// Whitespace after the size: more of it, `;` or CR may follow.
    SizeWs { size: u64 },
    /// Skipping a chunk extension up to the size line's CR.
    SizeExt { size: u64 },
    /// The size line's CR was read; its LF must follow.
    SizeLf { size: u64 },
    /// Reading chunk data; `remaining` is positive.
    Data { remaining: u64 },
    /// The CR that closes a chunk's data is due.
    DataCr,
    /// The LF that closes a chunk's data is due.
    DataLf,
    /// At the start of a trailer line, after the last chunk.
    TrailerStart,
    /// Inside a trailer line, which is discarded.
    TrailerLine,
    /// The LF that ends a trailer line is due.
    TrailerLineLf,
    /// The LF of the final empty line is due.
    FinalLf,
    /// The body is complete.
    Done,
}

/// Outcome of feeding one byte to the decoder.
#[derive(Clone, Copy, Debug, PartialEq, Eq)]
pub enum ChunkStep {
    /// The next state, and whether the byte is body data.
    Next { state: ChunkState, emit: bool },
    /// The byte breaks the chunk grammar.
    Malformed,
}

/// The chunked body does not follow the grammar.
#[derive(Clone, Copy, Debug, PartialEq, Eq)]
pub struct MalformedChunk;

pub open spec fn hex_value(b: u8) -> int {
    if 48 <= b <= 57 {
        b - 48
    } else if 97 <= b <= 102 {
        b - 87
    } else if 65 <= b <= 70 {
        b - 55
    } else {
        -1
    }
}

pub open spec fn hex_char(d: nat) -> u8 {
    if d < 10 {
        (48 + d) as u8
    } else {
        (87 + d) as u8
    }
}

/// The lowercase hexadecimal digits of `n`, most significant first.
pub open spec fn hex_digits(n: nat) -> Seq<u8>
    decreases n,
{
    if n < 16 {
        seq![hex_char(n)]
    } else {
        hex_digits(n / 16).push(hex_char(n % 16))
    }
}

/// The transition function of the decoder.
pub open spec fn step_spec(s: ChunkState, b: u8) -> ChunkStep {
    let next = |t: ChunkState| ChunkStep::Next { state: t, emit: false };
    match s {
        ChunkState::SizeDigits { size, any } => {
            if hex_value(b) >= 0 {
                if size * 16 + hex_value(b) <= u64::MAX {
                    next(ChunkState::SizeDigits { size: (size * 16 + hex_value(b)) as u64, any: true })
                } else {
                    ChunkStep::Malformed
                }
            } else if any && b == 59 {
                next(ChunkState::SizeExt { size })
            } else if any && (b == 32 || b == 9) {
                next(ChunkState::SizeWs { size })
            } else if any && b == CR {
                next(ChunkState::SizeLf { size })
            } else {
                ChunkStep::Malformed
            }
        },
        ChunkState::SizeWs { size } => {
            if b == 59 {
                next(ChunkState::SizeExt { size })
            } else if b == 32 || b == 9 {
                next(ChunkState::SizeWs { size })
            } else if b == CR {
                next(ChunkState::SizeLf { size })
            } else {
                ChunkStep::Malformed
            }
        },
        ChunkState::SizeExt { size } => {
            if b == CR {
                next(ChunkState::SizeLf { size })
            } else {
                next(ChunkState::SizeExt { size })
            }
        },
        ChunkState::SizeLf { size } => {
            if b != LF {
                ChunkStep::Malformed
            } else if size == 0 {
                next(ChunkState::TrailerStart)
            } else {
                next(ChunkState::Data { remaining: size })
            }
        },
        ChunkState::Data { remaining } => {
            if remaining <= 1 {
                ChunkStep::Next { state: ChunkState::DataCr, emit: true }
            } else {
                ChunkStep::Next {
                    state: ChunkState::Data { remaining: (remaining - 1) as u64 },
                    emit: true,
                }
            }
        },
        ChunkState::DataCr => {
            if b == CR {
                next(ChunkState::DataLf)
            } else {
                ChunkStep::Malformed
            }
        },
        ChunkState::DataLf => {
            if b == LF {
                next(ChunkState::SizeDigits { size: 0, any: false })
            } else {
                ChunkStep::Malformed
            }
        },
        ChunkState::TrailerStart => {
            if b == CR {
                next(ChunkState::FinalLf)
            } else {
                next(ChunkState::TrailerLine)
            }
        },
        ChunkState::TrailerLine => {
            if b == CR {
                next(ChunkState::TrailerLineLf)
            } else {
                next(ChunkState::TrailerLine)
            }
        },
        ChunkState::TrailerLineLf => {
            if b == LF {
                next(ChunkState::TrailerStart)
            } else {
                ChunkStep::Malformed
            }
        },
        ChunkState::FinalLf => {
            if b == LF {
                next(ChunkState::Done)
            } else {
                ChunkStep::Malformed
            }
        },
        ChunkState::Done => next(ChunkState::Done),
    }
}

/// What decoding a byte sequence from a state yields: the state reached
/// (`None` once the grammar is broken), the body bytes, and how many input
/// bytes were taken. Decoding stops at `Done`; later bytes are left over.
pub struct DecodeRun {
    pub state: Option<ChunkState>,
    pub out: Seq<u8>,
    pub used: nat,
}

pub open spec fn decode_spec(s: ChunkState, bs: Seq<u8>) -> DecodeRun
    decreases bs.len(),
{
    if bs.len() == 0 {
        DecodeRun { state: Some(s), out: seq![], used: 0 }
    } else {
        let r = decode_spec(s, bs.drop_last());
        match r.state {
            None => r,
            Some(t) => {
                if t == ChunkState::Done {
                    r
                } else {
                    match step_spec(t, bs.last()) {
                        ChunkStep::Malformed => DecodeRun { state: None, out: r.out, used: r.used },
                        ChunkStep::Next { state, emit } => DecodeRun {
                            state: Some(state),
                            out: if emit { r.out.push(bs.last()) } else { r.out },
                            used: r.used + 1,
                        },
                    }
                }
            },
        }
    }
}

pub open spec fn initial_state() -> ChunkState {
    ChunkState::SizeDigits { size: 0, any: false }
}

/// The frame that carries one payload; an empty payload gives no frame, since
/// a zero-size chunk would end the body.
pub open spec fn chunk_frame(p: Seq<u8>) -> Seq<u8> {
    if p.len() == 0 {
        seq![]
    } else {
        hex_digits(p.len()) + seq![CR, LF] + p + seq![CR, LF]
    }
}

/// The closing zero-size chunk with its empty trailer section.
pub open spec fn last_chunk() -> Seq<u8> {
    seq![48u8, CR, LF, CR, LF]
}

pub open spec fn frames(ps: Seq<Seq<u8>>) -> Seq<u8>
    decreases ps.len(),
{
    if ps.len() == 0 {
        seq![]
    } else {
        frames(ps.drop_last()) + chunk_frame(ps.last())
    }
}

pub open spec fn concat(ps: Seq<Seq<u8>>) -> Seq<u8>
    decreases ps.len(),
{
    if ps.len() == 0 {
        seq![]
    } else {
        concat(ps.drop_last()) + ps.last()
    }
}

/// The whole chunked encoding of a sequence of payloads.
pub open spec fn encode_spec(ps: Seq<Seq<u8>>) -> Seq<u8> {
    frames(ps) + last_chunk()
}

pub fn step(s: ChunkState, b: u8) -> (r: ChunkStep)
    ensures
        r == step_spec(s, b),
{
    let hv: i16 = if 48 <= b && b <= 57 {
        b as i16 - 48
    } else if 97 <= b && b <= 102 {
        b as i16 - 87
    } else if 65 <= b && b <= 70 {
        b as i16 - 55
    } else {
        -1
    };
    match s {
        ChunkState::SizeDigits { size, any } => {
            if hv >= 0 {
                if size <= (u64::MAX - hv as u64) / 16 {
                    ChunkStep::Next {
                        state: ChunkState::SizeDigits { size: size * 16 + hv as u64, any: true },
                        emit: false,
                    }
                } else {
                    ChunkStep::Malformed
                }
            } else if any && b == 59 {
                ChunkStep::Next { state: ChunkState::SizeExt { size }, emit: false }
            } else if any && (b == 32 || b == 9) {
                ChunkStep::Next { state: ChunkState::SizeWs { size }, emit: false }
            } else if any && b == CR {
                ChunkStep::Next { state: ChunkState::SizeLf { size }, emit: false }
            } else {
                ChunkStep::Malformed
            }
        },
        ChunkState::SizeWs { size } => {
            if b == 59 {
                ChunkStep::Next { state: ChunkState::SizeExt { size }, emit: false }
            } else if b == 32 || b == 9 {
                ChunkStep::Next { state: ChunkState::SizeWs { size }, emit: false }
            } else if b == CR {
                ChunkStep::Next { state: ChunkState::SizeLf { size }, emit: false }
            } else {
                ChunkStep::Malformed
            }
        },
        ChunkState::SizeExt { size } => {
            if b == CR {
                ChunkStep::Next { state: ChunkState::SizeLf { size }, emit: false }
            } else {
                ChunkStep::Next { state: ChunkState::SizeExt { size }, emit: false }
            }
        },
        ChunkState::SizeLf { size } => {
            if b != LF {
                ChunkStep::Malformed
            } else if size == 0 {
                ChunkStep::Next { state: ChunkState::TrailerStart, emit: false }
            } else {
                ChunkStep::Next { state: ChunkState::Data { remaining: size }, emit: false }
            }
        },
        ChunkState::Data { remaining } => {
            if remaining <= 1 {
                ChunkStep::Next { state: ChunkState::DataCr, emit: true }
            } else {
                ChunkStep::Next { state: ChunkState::Data { remaining: remaining - 1 }, emit: true }
            }
        },
        ChunkState::DataCr => {
            if b == CR {
                ChunkStep::Next { state: ChunkState::DataLf, emit: false }
            } else {
                ChunkStep::Malformed
            }
        },
        ChunkState::DataLf => {
            if b == LF {
                ChunkStep::Next { state: ChunkState::SizeDigits { size: 0, any: false }, emit: false }
            } else {
                ChunkStep::Malformed
            }
        },
        ChunkState::TrailerStart => {
            if b == CR {
                ChunkStep::Next { state: ChunkState::FinalLf, emit: false }
            } else {
                ChunkStep::Next { state: ChunkState::TrailerLine, emit: false }
            }
        },
        ChunkState::TrailerLine => {
            if b == CR {
                ChunkStep::Next { state: ChunkState::TrailerLineLf, emit: false }
            } else {
                ChunkStep::Next { state: ChunkState::TrailerLine, emit: false }
            }
        },
        ChunkState::TrailerLineLf => {
            if b == LF {
                ChunkStep::Next { state: ChunkState::TrailerStart, emit: false }
            } else {
                ChunkStep::Malformed
            }
        },
        ChunkState::FinalLf => {
            if b == LF {
                ChunkStep::Next { state: ChunkState::Done, emit: false }
            } else {
                ChunkStep::Malformed
            }
        },
        ChunkState::Done => ChunkStep::Next { state: ChunkState::Done, emit: false },
    }
}

/// Decoding the bytes of `a` and then those of `b` is decoding `a + b`.
pub proof fn lemma_decode_concat(s: ChunkState, a: Seq<u8>, b: Seq<u8>)
    ensures
        ({
            let ra = decode_spec(s, a);
            let whole = decode_spec(s, a + b);
            match ra.state {
                None => whole == ra,
                Some(t) => if t == ChunkState::Done {
                    whole == ra
                } else {
                    let rb = decode_spec(t, b);
                    whole == (DecodeRun { state: rb.state, out: ra.out + rb.out, used: ra.used + rb.used })
                },
            }
        }),
    decreases b.len(),
{
    if b.len() == 0 {
        assert(a + b =~= a);
        let ra = decode_spec(s, a);
        if let Some(t) = ra.state {
            assert(ra.out + seq![] =~= ra.out);
        }
    } else {
        lemma_decode_concat(s, a, b.drop_last());
        assert((a + b).drop_last() =~= a + b.drop_last());
        assert((a + b).last() == b.last());
        let ra = decode_spec(s, a);
        if let Some(t) = ra.state {
            if t != ChunkState::Done {
                let rb0 = decode_spec(t, b.drop_last());
                assert(ra.out + rb0.out.push(b.last()) =~= (ra.out + rb0.out).push(b.last()));
            }
        }
    }
}

/// Decoding a lone byte is one step.
pub proof fn lemma_decode_one(s: ChunkState, b: u8)
    ensures
        s != ChunkState::Done ==> decode_spec(s, seq![b]) == (match step_spec(s, b) {
            ChunkStep::Malformed => DecodeRun { state: None, out: seq![], used: 0 },
            ChunkStep::Next { state, emit } => DecodeRun {
                state: Some(state),
                out: if emit { seq![b] } else { seq![] },
                used: 1,
            },
        }),
{
    let one = seq![b];
    assert(one.drop_last() =~= Seq::<u8>::empty());
    assert(one.last() == b);
    assert(Seq::<u8>::empty().push(b) =~= one);
    let r0 = decode_spec(s, one.drop_last());
    assert(r0 == DecodeRun { state: Some(s), out: Seq::<u8>::empty(), used: 0 });
}

/// The size digits of a frame parse back to the size.
proof fn lemma_decode_hex(n: nat)
    requires
        n <= u64::MAX,
    ensures
        decode_spec(initial_state(), hex_digits(n)) == (DecodeRun {
            state: Some(ChunkState::SizeDigits { size: n as u64, any: true }),
            out: seq![],
            used: hex_digits(n).len(),
        }),
    decreases n,
{
    let d = hex_char(n % 16);
    assert(hex_value(d) == n % 16);
    if n < 16 {
        lemma_decode_one(initial_state(), d);
    } else {
        lemma_decode_hex(n / 16);
        lemma_decode_concat(initial_state(), hex_digits(n / 16), seq![d]);
        assert(hex_digits(n / 16) + seq![d] =~= hex_digits(n));
        lemma_decode_one(ChunkState::SizeDigits { size: (n / 16) as u64, any: true }, d);
        assert((n / 16) * 16 + n % 16 == n);
        assert(Seq::<u8>::empty() + Seq::<u8>::empty() =~= Seq::<u8>::empty());
    }
}

/// Chunk data is passed through unchanged.
proof fn lemma_decode_data(p: Seq<u8>, k: nat)
    requires
        0 < p.len() <= u64::MAX,
        k <= p.len(),
    ensures
        decode_spec(ChunkState::Data { remaining: p.len() as u64 }, p.take(k as int)) == (DecodeRun {
            state: Some(
                if k == p.len() {
                    ChunkState::DataCr
                } else {
                    ChunkState::Data { remaining: (p.len() - k) as u64 }
                },
            ),
            out: p.take(k as int),
            used: k,
        }),
    decreases k,
{
    if k == 0 {
        assert(p.take(0) =~= Seq::<u8>::empty());
    } else {
        lemma_decode_data(p, (k - 1) as nat);
        assert(p.take(k as int).drop_last() =~= p.take(k - 1));
        assert(p.take(k - 1).push(p[k - 1]) =~= p.take(k as int));
    }
}

/// Decoding the frame of one payload yields the payload and returns to the
/// start of a size line.
proof fn lemma_decode_frame(p: Seq<u8>)
    requires
        p.len() <= u64::MAX,
    ensures
        decode_spec(initial_state(), chunk_frame(p)) == (DecodeRun {
            state: Some(initial_state()),
            out: p,
            used: chunk_frame(p).len(),
        }),
{
    if p.len() == 0 {
        assert(chunk_frame(p) =~= Seq::<u8>::empty());
        assert(p =~= Seq::<u8>::empty());
    } else {
        let n = p.len();
        let h = hex_digits(n);
        let s0 = initial_state();
        lemma_decode_hex(n);
        let s1 = ChunkState::SizeDigits { size: n as u64, any: true };
        lemma_decode_concat(s0, h, seq![CR]);
        lemma_decode_one(s1, CR);
        let s2 = ChunkState::SizeLf { size: n as u64 };
        lemma_decode_concat(s0, h + seq![CR], seq![LF]);
        lemma_decode_one(s2, LF);
        let s3 = ChunkState::Data { remaining: n as u64 };
        let hdr = h + seq![CR] + seq![LF];
        lemma_decode_concat(s0, hdr, p);
        lemma_decode_data(p, n);
        assert(p.take(n as int) =~= p);
        lemma_decode_concat(s0, hdr + p, seq![CR]);
        lemma_decode_one(ChunkState::DataCr, CR);
        lemma_decode_concat(s0, hdr + p + seq![CR], seq![LF]);
        lemma_decode_one(ChunkState::DataLf, LF);
        assert(hdr + p + seq![CR] + seq![LF] =~= chunk_frame(p));
        assert(Seq::<u8>::empty() + Seq::<u8>::empty() =~= Seq::<u8>::empty());
        assert(Seq::<u8>::empty() + p =~= p);
        assert(p + Seq::<u8>::empty() =~= p);
    }
}

proof fn lemma_decode_frames(ps: Seq<Seq<u8>>)
    requires
        forall|i: int| 0 <= i < ps.len() ==> (#[trigger] ps[i]).len() <= u64::MAX,
    ensures
        decode_spec(initial_state(), frames(ps)) == (DecodeRun {
            state: Some(initial_state()),
            out: concat(ps),
            used: frames(ps).len(),
        }),
    decreases ps.len(),
{
    if ps.len() == 0 {
    } else {
        let init = ps.drop_last();
        assert forall|i: int| 0 <= i < init.len() implies (#[trigger] init[i]).len() <= u64::MAX by {
            assert(init[i] == ps[i]);
        }
        lemma_decode_frames(init);
        assert(ps[ps.len() - 1] == ps.last());
        lemma_decode_frame(ps.last());
        lemma_decode_concat(initial_state(), frames(init), chunk_frame(ps.last()));
    }
}

/// Decoding the closing chunk ends the body and yields nothing.
proof fn lemma_decode_last_chunk()
    ensures
        decode_spec(initial_state(), last_chunk()) == (DecodeRun {
            state: Some(ChunkState::Done),
            out: seq![],
            used: 5,
        }),
{
    let z = seq![48u8];
    let s0 = initial_state();
    lemma_decode_one(s0, 48u8);
    assert(hex_value(48u8) == 0);
    let s1 = ChunkState::SizeDigits { size: 0, any: true };
    lemma_decode_concat(s0, z, seq![CR]);
    lemma_decode_one(s1, CR);
    lemma_decode_concat(s0, z + seq![CR], seq![LF]);
    lemma_decode_one(ChunkState::SizeLf { size: 0 }, LF);
    lemma_decode_concat(s0, z + seq![CR] + seq![LF], seq![CR]);
    lemma_decode_one(ChunkState::TrailerStart, CR);
    lemma_decode_concat(s0, z + seq![CR] + seq![LF] + seq![CR], seq![LF]);
    lemma_decode_one(ChunkState::FinalLf, LF);
    assert(z + seq![CR] + seq![LF] + seq![CR] + seq![LF] =~= last_chunk());
    assert(Seq::<u8>::empty() + Seq::<u8>::empty() =~= Seq::<u8>::empty());
}

/// Round trip: decoding the chunked encoding of any payloads completes the
/// body, takes every encoded byte, and yields the payloads joined in order.
pub proof fn lemma_chunked_round_trip(ps: Seq<Seq<u8>>)
    requires
        forall|i: int| 0 <= i < ps.len() ==> (#[trigger] ps[i]).len() <= u64::MAX,
    ensures
        decode_spec(initial_state(), encode_spec(ps)) == (DecodeRun {
            state: Some(ChunkState::Done),
            out: concat(ps),
            used: encode_spec(ps).len(),
        }),
{
    lemma_decode_frames(ps);
    lemma_decode_last_chunk();
    lemma_decode_concat(initial_state(), frames(ps), last_chunk());
    assert(concat(ps) + Seq::<u8>::empty() =~= concat(ps));
}

/// Decoding never takes more bytes than it is given.
pub proof fn lemma_decode_used_le(s: ChunkState, bs: Seq<u8>)
    ensures
        decode_spec(s, bs).used <= bs.len(),
    decreases bs.len(),
{
    if bs.len() > 0 {
        lemma_decode_used_le(s, bs.drop_last());
    }
}

/// While the body is not complete, every input byte is taken.
pub proof fn lemma_decode_takes_all(s: ChunkState, bs: Seq<u8>)
    ensures
        decode_spec(s, bs).state matches Some(t) && t != ChunkState::Done ==> decode_spec(s, bs).used == bs.len(),
    decreases bs.len(),
{
    if bs.len() > 0 {
        lemma_decode_takes_all(s, bs.drop_last());
    }
}

/// Once the body is complete, further bytes are left untouched.
pub proof fn lemma_decode_after_done(s: ChunkState, a: Seq<u8>, b: Seq<u8>)
    requires
        decode_spec(s, a).state == Some(ChunkState::Done),
    ensures
        decode_spec(s, a + b) == decode_spec(s, a),
{
    lemma_decode_concat(s, a, b);
}

/// An incremental decoder of a chunked body.
#[derive(Clone, Copy, Debug)]
pub struct ChunkDecoder {
    pub state: ChunkState,
}

impl ChunkDecoder {
    pub fn new() -> (r: ChunkDecoder)
        ensures
            r.state == initial_state(),
    {
        ChunkDecoder { state: ChunkState::SizeDigits { size: 0, any: false } }
    }

    pub fn is_done(&self) -> (r: bool)
        ensures
            r == (self.state == ChunkState::Done),
    {
        matches!(self.state, ChunkState::Done)
    }

    /// Decodes as much of `input` as belongs to the body, appending body bytes
    /// to `out`, and returns how many input bytes were taken. Bytes after the
    /// end of the body are not taken.
    pub fn feed(&mut self, input: &[u8], out: &mut Vec<u8>) -> (r: Result<usize, MalformedChunk>)
        ensures
            ({
                let run = decode_spec(old(self).state, input@);
                match r {
                    Ok(n) => run.state == Some(final(self).state) && n == run.used
                        && final(out)@ == old(out)@ + run.out,
                    Err(_) => run.state is None && final(out)@ == old(out)@ + run.out,
                }
            }),
            r matches Ok(n) ==> n <= input@.len(),
    {
        let ghost s0 = self.state;
        let ghost out0 = out@;
        let mut i: usize = 0;
        proof {
            assert(input@.take(0) =~= Seq::<u8>::empty());
            assert(out@.subrange(out0.len() as int, out@.len() as int) =~= Seq::<u8>::empty());
            assert(out@.subrange(0, out0.len() as int) =~= out0);
        }
        while i < input.len()
            invariant
                i <= input.len(),
                s0 == old(self).state,
                out0 == old(out)@,
                decode_spec(s0, input@.take(i as int)) == (DecodeRun {
                    state: Some(self.state),
                    out: out@.subrange(out0.len() as int, out@.len() as int),
                    used: i as nat,
                }),
                out@.len() >= out0.len(),
                out@.subrange(0, out0.len() as int) == out0,
            decreases input.len() - i,
        {
            if matches!(self.state, ChunkState::Done) {
                proof {
                    lemma_decode_after_done(s0, input@.take(i as int), input@.skip(i as int));
                    assert(input@.take(i as int) + input@.skip(i as int) =~= input@);
                    assert(decode_spec(s0, input@) == decode_spec(s0, input@.take(i as int)));
                    assert(out@ =~= out0 + out@.subrange(out0.len() as int, out@.len() as int));
                }
                return Ok(i);
            }
            let b = input[i];
            proof {
                assert(input@.take(i + 1).drop_last() =~= input@.take(i as int));
                assert(input@.take(i + 1).last() == b);
            }
            match step(self.state, b) {
                ChunkStep::Malformed => {
                    proof {
                        assert(decode_spec(s0, input@.take(i + 1)).state is None);
                        lemma_decode_concat(s0, input@.take(i + 1), input@.skip(i + 1));
                        assert(input@.take(i + 1) + input@.skip(i + 1) =~= input@);
                        assert(out@ =~= out0 + out@.subrange(out0.len() as int, out@.len() as int));
                    }
                    return Err(MalformedChunk);
                },
                ChunkStep::Next { state, emit } => {
                    let ghost prev = out@;
                    if emit {
                        out.push(b);
                    }
                    self.state = state;
                    proof {
                        assert(out@.subrange(0, out0.len() as int) =~= prev.subrange(0, out0.len() as int));
                        if emit {
                            assert(out@.subrange(out0.len() as int, out@.len() as int) =~=
                                prev.subrange(out0.len() as int, prev.len() as int).push(b));
                        }
                    }
                },
            }
            i = i + 1;
        }
        proof {
            assert(input@.take(i as int) =~= input@);
            assert(out@ =~= out0 + out@.subrange(out0.len() as int, out@.len() as int));
        }
        Ok(i)
    }
}

/// Appends the hexadecimal digits of `n`.
pub fn push_hex(n: u64, out: &mut Vec<u8>)
    ensures
        final(out)@ == old(out)@ + hex_digits(n as nat),
    decreases n,
{
    if n >= 16 {
        push_hex(n / 16, out);
    }
    let d = n % 16;
    let c: u8 = if d < 10 { 48 + d as u8 } else { 87 + d as u8 };
    out.push(c);
    proof {
        if n >= 16 {
            assert(old(out)@ + hex_digits((n / 16) as nat) + seq![c] =~= old(out)@ + hex_digits(n as nat));
        } else {
            assert(old(out)@.push(c) =~= old(out)@ + hex_digits(n as nat));
        }
    }
}

/// Appends the chunk frame of one payload: size line, data, CRLF.
pub fn encode_chunk(data: &[u8], out: &mut Vec<u8>)
    requires
        data@.len() <= u64::MAX,
    ensures
        final(out)@ == old(out)@ + chunk_frame(data@),
{
    if data.len() == 0 {
        proof {
            assert(old(out)@ + chunk_frame(data@) =~= old(out)@);
        }
        return;
    }
    push_hex(data.len() as u64, out);
    out.push(CR);
    out.push(LF);
    let ghost mid = out@;
    let mut i: usize = 0;
    while i < data.len()
        invariant
            i <= data.len(),
            out@ == mid + data@.take(i as int),
        decreases data.len() - i,
    {
        out.push(data[i]);
        proof {
            assert(data@.take(i as int).push(data[i as int]) =~= data@.take(i + 1));
            assert((mid + data@.take(i as int)).push(data[i as int]) =~= mid + data@.take(i + 1));
        }
        i = i + 1;
    }
    out.push(CR);
    out.push(LF);
    proof {
        assert(data@.take(i as int) =~= data@);
        assert(out@ =~= old(out)@ + chunk_frame(data@));
    }
}

/// Appends the closing zero-size chunk and the final empty line.
pub fn encode_last_chunk(out: &mut Vec<u8>)
    ensures
        final(out)@ == old(out)@ + last_chunk(),
{
    out.push(48);
    out.push(CR);
    out.push(LF);
    out.push(CR);
    out.push(LF);
    proof {
        assert(final(out)@ =~= old(out)@ + last_chunk());
    }
}

} // verus!
