//! The per-connection state machine. The transport hands it bytes and
//! end-of-stream; it answers with actions for the handler and the transport.
//! Whether the body's consumer has claimed the body, or dropped it, comes in
//! with each call as the latest state polled from the rendezvous.
use vstd::prelude::*;
use crate::chunked::MalformedChunk;
use crate::framing::{BodyFraming, FramingError, resolve_request, request_framing};
use crate::parse::{Malformed, ParseStatus, ParseStatusView, RequestHead, RequestHeadView, parse_request, parse_spec};
use crate::reader::{BodyReader, read_spec, reader_for, reader_wf, append, lemma_read_split, lemma_read_takes_all, lemma_read_used_le};

verus! {

/// The bound on bytes buffered while no complete head has been found.
pub const MAX_BUFFER_SIZE: usize = 8192 + 4096 * 100;

/// The body consumer's side of the rendezvous, as last polled.
#[derive(Clone, Copy, Debug, PartialEq, Eq)]
pub enum ConsumerStatus {
    /// The consumer holds the body reader: bytes go to it.
    Claimed,
    /// The consumer has not claimed the body yet: bytes wait.
    Unclaimed,
    /// The consumer dropped its handle: the body is abandoned.
    Gone,
}

/// Why the connection asks the transport to close.
#[derive(Clone, Copy, Debug, PartialEq, Eq)]
pub enum CloseReason {
    /// The buffer reached its bound with no complete head.
    TooLarge,
    /// The head was malformed, or was the HTTP/2 preface.
    Malformed(Malformed),
    /// The headers do not determine the body's framing.
    Framing(FramingError),
    /// The chunked body broke its grammar.
    BadChunk,
}

/// What the connection asks of its collaborators.
#[derive(Debug)]
pub enum Action {
    /// A head was parsed: the handler gets it with its body framing.
    Incoming(RequestHead, BodyFraming),
    /// Body bytes for the consumer, in order.
    Body(Vec<u8>),
    /// The current body is complete.
    BodyComplete,
    /// Close the transport.
    Close(CloseReason),
    /// The stream ended in the middle of a message.
    UnexpectedEnd,
}

pub enum ActionView {
    Incoming(RequestHeadView, BodyFraming),
    Body(Seq<u8>),
    BodyComplete,
    Close(CloseReason),
    UnexpectedEnd,
}

impl View for Action {
    type V = ActionView;

    open spec fn view(&self) -> ActionView {
        match self {
            Action::Incoming(h, f) => ActionView::Incoming(h@, *f),
            Action::Body(b) => ActionView::Body(b@),
            Action::BodyComplete => ActionView::BodyComplete,
            Action::Close(r) => ActionView::Close(*r),
            Action::UnexpectedEnd => ActionView::UnexpectedEnd,
        }
    }
}

pub open spec fn actions_view(a: Seq<Action>) -> Seq<ActionView> {
    a.map_values(|x: Action| x@)
}

/// The top-level state of a connection.
#[derive(Debug)]
pub enum ConnState {
    /// Gathering bytes until a complete head is found.
    Parsing(Vec<u8>),
    /// Reading a message body; `pending` holds bytes not yet given to it.
    Streaming { reader: BodyReader, pending: Vec<u8> },
    /// Terminal.
    Closed,
}

pub enum ConnView {
    Parsing(Seq<u8>),
    Streaming(BodyReader, Seq<u8>),
    Closed,
}

impl View for ConnState {
    type V = ConnView;

    open spec fn view(&self) -> ConnView {
        match self {
            ConnState::Parsing(b) => ConnView::Parsing(b@),
            ConnState::Streaming { reader, pending } => ConnView::Streaming(*reader, pending@),
            ConnState::Closed => ConnView::Closed,
        }
    }
}

/// A parsing buffer stays under the bound; a body reader is well formed.
pub open spec fn conn_wf(s: ConnView) -> bool {
    match s {
        ConnView::Parsing(b) => b.len() < MAX_BUFFER_SIZE,
        ConnView::Streaming(r, _) => reader_wf(r),
        ConnView::Closed => true,
    }
}

/// A parsed head with framing `f`, and the bytes `t` that followed it in
/// the buffer: the handler is told of the message, and `t` is read at once
/// as the start of its body.
pub open spec fn seeded(h: RequestHeadView, f: BodyFraming, t: Seq<u8>) -> (ConnView, Seq<ActionView>) {
    let run = read_spec(reader_for(f), t);
    let incoming = seq![ActionView::Incoming(h, f)];
    match run.reader {
        None => (ConnView::Closed, incoming + body_actions(run.out) + seq![ActionView::Close(CloseReason::BadChunk)]),
        Some(r2) => {
            if r2 is Done {
                (ConnView::Streaming(r2, t.skip(run.used as int)), incoming + body_actions(run.out) + seq![ActionView::BodyComplete])
            } else {
                (ConnView::Streaming(r2, t.skip(run.used as int)), incoming + body_actions(run.out))
            }
        },
    }
}

/// What the outcome `st` of parsing the gathered bytes `buf` leads to.
pub open spec fn after_parse_spec(st: ParseStatusView, buf: Seq<u8>) -> (ConnView, Seq<ActionView>) {
    match st {
        ParseStatusView::NeedMoreData => {
            if buf.len() >= MAX_BUFFER_SIZE {
                (ConnView::Closed, seq![ActionView::Close(CloseReason::TooLarge)])
            } else {
                (ConnView::Parsing(buf), seq![])
            }
        },
        ParseStatusView::Malformed(m) => (ConnView::Closed, seq![ActionView::Close(CloseReason::Malformed(m))]),
        ParseStatusView::Parsed(h, n) => {
            match request_framing(h.method, h.headers) {
                Err(e) => (ConnView::Closed, seq![ActionView::Close(CloseReason::Framing(e))]),
                Ok(f) => seeded(h, f, buf.skip(n as int)),
            }
        },
    }
}

/// What parsing the gathered bytes `buf` leads to.
pub open spec fn parse_phase(buf: Seq<u8>) -> (ConnView, Seq<ActionView>) {
    after_parse_spec(parse_spec(buf), buf)
}

pub open spec fn body_actions(out: Seq<u8>) -> Seq<ActionView> {
    if out.len() == 0 {
        seq![]
    } else {
        seq![ActionView::Body(out)]
    }
}

/// What bytes arriving on a connection lead to.
pub open spec fn on_data_spec(s: ConnView, data: Seq<u8>, c: ConsumerStatus) -> (ConnView, Seq<ActionView>) {
    match s {
        ConnView::Closed => (ConnView::Closed, seq![]),
        ConnView::Parsing(buf) => parse_phase(buf + data),
        ConnView::Streaming(r, pending) => {
            if r is Done {
                parse_phase(pending + data)
            } else {
                match c {
                    ConsumerStatus::Gone => parse_phase(data),
                    ConsumerStatus::Unclaimed => {
                        if (pending + data).len() >= MAX_BUFFER_SIZE {
                            (ConnView::Closed, seq![ActionView::Close(CloseReason::TooLarge)])
                        } else {
                            (ConnView::Streaming(r, pending + data), seq![])
                        }
                    },
                    ConsumerStatus::Claimed => {
                        let input = pending + data;
                        let run = read_spec(r, input);
                        match run.reader {
                            None => (ConnView::Closed, body_actions(run.out) + seq![ActionView::Close(CloseReason::BadChunk)]),
                            Some(r2) => {
                                if r2 is Done {
                                    let next = parse_phase(input.skip(run.used as int));
                                    (next.0, body_actions(run.out) + seq![ActionView::BodyComplete] + next.1)
                                } else {
                                    (ConnView::Streaming(r2, input.skip(run.used as int)), body_actions(run.out))
                                }
                            },
                        }
                    },
                }
            }
        },
    }
}

/// What the end of the stream leads to: a body read until close completes;
/// anything else unfinished is an unexpected end.
pub open spec fn on_eof_spec(s: ConnView, c: ConsumerStatus) -> (ConnView, Seq<ActionView>) {
    match s {
        ConnView::Closed => (ConnView::Closed, seq![]),
        ConnView::Parsing(buf) => {
            if buf.len() == 0 {
                (ConnView::Closed, seq![])
            } else {
                (ConnView::Closed, seq![ActionView::UnexpectedEnd])
            }
        },
        ConnView::Streaming(r, pending) => {
            if r is Done || c == ConsumerStatus::Gone {
                (ConnView::Closed, seq![])
            } else {
                let run = read_spec(r, pending);
                if run.reader matches Some(r2) && (r2 is Done || r2 is UntilClose) {
                    (ConnView::Closed, body_actions(run.out) + seq![ActionView::BodyComplete])
                } else {
                    (ConnView::Closed, body_actions(run.out) + seq![ActionView::UnexpectedEnd])
                }
            }
        },
    }
}

/// A connection: its state, which it alone owns.
#[derive(Debug)]
pub struct Conn {
    pub state: ConnState,
}

/// The bytes of `data` from `start` on.
fn tail(data: &[u8], start: usize) -> (r: Vec<u8>)
    requires
        start <= data@.len(),
    ensures
        r@ == data@.skip(start as int),
{
    let mut r: Vec<u8> = Vec::new();
    let mut i: usize = start;
    while i < data.len()
        invariant
            start <= i <= data@.len(),
            r@ == data@.subrange(start as int, i as int),
        decreases data@.len() - i,
    {
        r.push(data[i]);
        proof {
            assert(data@.subrange(start as int, i as int).push(data@[i as int]) =~= data@.subrange(start as int, i + 1));
        }
        i = i + 1;
    }
    proof {
        assert(data@.subrange(start as int, i as int) =~= data@.skip(start as int));
    }
    r
}

fn joined(a: Vec<u8>, b: &[u8]) -> (r: Vec<u8>)
    ensures
        r@ == a@ + b@,
{
    let mut a = a;
    append(&mut a, b, b.len());
    proof {
        assert(b@.take(b@.len() as int) =~= b@);
    }
    a
}

fn push_body(actions: &mut Vec<Action>, out: Vec<u8>)
    ensures
        actions_view(final(actions)@) == actions_view(old(actions)@) + body_actions(out@),
{
    if out.len() > 0 {
        actions.push(Action::Body(out));
        proof {
            assert(actions_view(final(actions)@) =~= actions_view(old(actions)@) + body_actions(out@));
        }
    } else {
        proof {
            assert(actions_view(final(actions)@) =~= actions_view(old(actions)@) + body_actions(out@));
        }
    }
}

impl Conn {
    /// A connection waiting for its first head.
    pub fn new() -> (r: Conn)
        ensures
            r.state@ == ConnView::Parsing(seq![]),
    {
        Conn { state: ConnState::Parsing(Vec::new()) }
    }

    /// Moves to the state that follows the outcome `status` of parsing the
    /// gathered bytes `buf`, appending the actions that come of it. A parsed
    /// head goes to the handler, and the bytes after it are read as its body.
    pub fn after_parse(&mut self, status: ParseStatus, buf: Vec<u8>, actions: &mut Vec<Action>)
        requires
            status matches ParseStatus::Parsed(_, n) ==> n <= buf@.len(),
        ensures
            final(self).state@ == after_parse_spec(status@, buf@).0,
            actions_view(final(actions)@) == actions_view(old(actions)@) + after_parse_spec(status@, buf@).1,
            conn_wf(final(self).state@),
    {
        let ghost a0 = actions@;
        let ghost sv = status@;
        match status {
            ParseStatus::NeedMoreData => {
                if buf.len() >= MAX_BUFFER_SIZE {
                    self.state = ConnState::Closed;
                    actions.push(Action::Close(CloseReason::TooLarge));
                } else {
                    self.state = ConnState::Parsing(buf);
                }
                proof {
                    assert(actions_view(actions@) =~= actions_view(a0) + after_parse_spec(sv, buf@).1);
                }
            },
            ParseStatus::Malformed(m) => {
                self.state = ConnState::Closed;
                actions.push(Action::Close(CloseReason::Malformed(m)));
                proof {
                    assert(actions_view(actions@) =~= actions_view(a0) + after_parse_spec(sv, buf@).1);
                }
            },
            ParseStatus::Parsed(head, n) => {
                match resolve_request(head.method.as_slice(), &head.headers) {
                    Err(e) => {
                        self.state = ConnState::Closed;
                        actions.push(Action::Close(CloseReason::Framing(e)));
                        proof {
                            assert(actions_view(actions@) =~= actions_view(a0) + after_parse_spec(sv, buf@).1);
                        }
                    },
                    Ok(f) => {
                        let ghost hv = head@;
                        let mut reader = BodyReader::new(f);
                        let ghost r0 = reader;
                        let t = tail(buf.as_slice(), n);
                        actions.push(Action::Incoming(head, f));
                        let ghost a1 = actions@;
                        proof {
                            assert(actions_view(a1) =~= actions_view(a0) + seq![ActionView::Incoming(hv, f)]);
                        }
                        let mut out: Vec<u8> = Vec::new();
                        match reader.read_available(t.as_slice(), &mut out) {
                            Err(_) => {
                                proof {
                                    assert(out@ =~= read_spec(r0, t@).out);
                                }
                                push_body(actions, out);
                                let ghost a2 = actions@;
                                actions.push(Action::Close(CloseReason::BadChunk));
                                self.state = ConnState::Closed;
                                proof {
                                    assert(actions_view(actions@) =~= actions_view(a2) + seq![ActionView::Close(CloseReason::BadChunk)]);
                                    assert(actions_view(actions@) =~= actions_view(a0) + after_parse_spec(sv, buf@).1);
                                }
                            },
                            Ok(used) => {
                                proof {
                                    assert(out@ =~= read_spec(r0, t@).out);
                                }
                                push_body(actions, out);
                                let ghost a2 = actions@;
                                let rest = tail(t.as_slice(), used);
                                if reader.is_complete() {
                                    actions.push(Action::BodyComplete);
                                    proof {
                                        assert(actions_view(actions@) =~= actions_view(a2) + seq![ActionView::BodyComplete]);
                                    }
                                }
                                self.state = ConnState::Streaming { reader, pending: rest };
                                proof {
                                    assert(actions_view(actions@) =~= actions_view(a0) + after_parse_spec(sv, buf@).1);
                                }
                            },
                        }
                    },
                }
            },
        }
    }

    /// Parses the gathered bytes and moves to the state that follows.
    fn parse_buffer(&mut self, buf: Vec<u8>, actions: &mut Vec<Action>)
        ensures
            final(self).state@ == parse_phase(buf@).0,
            actions_view(final(actions)@) == actions_view(old(actions)@) + parse_phase(buf@).1,
            conn_wf(final(self).state@),
    {
        let status = parse_request(buf.as_slice());
        self.after_parse(status, buf, actions);
    }

    /// Bytes arrived from the transport. Returns the actions they lead to.
    pub fn on_data(&mut self, data: &[u8], consumer: ConsumerStatus) -> (r: Vec<Action>)
        requires
            conn_wf(old(self).state@),
        ensures
            (final(self).state@, actions_view(r@)) == on_data_spec(old(self).state@, data@, consumer),
            conn_wf(final(self).state@),
    {
        let mut actions: Vec<Action> = Vec::new();
        let mut state = ConnState::Closed;
        core::mem::swap(&mut self.state, &mut state);
        match state {
            ConnState::Closed => {
                proof {
                    assert(actions_view(actions@) =~= Seq::<ActionView>::empty());
                }
            },
            ConnState::Parsing(buf) => {
                let buf = joined(buf, data);
                self.parse_buffer(buf, &mut actions);
                proof {
                    assert(actions_view(actions@) =~= Seq::<ActionView>::empty() + actions_view(actions@));
                }
            },
            ConnState::Streaming { reader, pending } => {
                if reader.is_complete() {
                    let buf = joined(pending, data);
                    self.parse_buffer(buf, &mut actions);
                    proof {
                        assert(actions_view(actions@) =~= Seq::<ActionView>::empty() + actions_view(actions@));
                    }
                } else {
                    match consumer {
                        ConsumerStatus::Gone => {
                            let buf = tail(data, 0);
                            proof {
                                assert(data@.skip(0) =~= data@);
                            }
                            self.parse_buffer(buf, &mut actions);
                            proof {
                                assert(actions_view(actions@) =~= Seq::<ActionView>::empty() + actions_view(actions@));
                            }
                        },
                        ConsumerStatus::Unclaimed => {
                            let p = joined(pending, data);
                            if p.len() >= MAX_BUFFER_SIZE {
                                actions.push(Action::Close(CloseReason::TooLarge));
                                proof {
                                    assert(actions_view(actions@) =~= seq![ActionView::Close(CloseReason::TooLarge)]);
                                }
                            } else {
                                self.state = ConnState::Streaming { reader, pending: p };
                                proof {
                                    assert(actions_view(actions@) =~= Seq::<ActionView>::empty());
                                }
                            }
                        },
                        ConsumerStatus::Claimed => {
                            let input = joined(pending, data);
                            let mut r2 = reader;
                            let mut out: Vec<u8> = Vec::new();
                            match r2.read_available(input.as_slice(), &mut out) {
                                Err(_) => {
                                    proof {
                                        assert(out@ =~= read_spec(reader, input@).out);
                                        assert(actions_view(actions@) =~= Seq::<ActionView>::empty());
                                    }
                                    push_body(&mut actions, out);
                                    let ghost a1 = actions@;
                                    actions.push(Action::Close(CloseReason::BadChunk));
                                    proof {
                                        assert(actions_view(actions@) =~= actions_view(a1) + seq![ActionView::Close(CloseReason::BadChunk)]);
                                    }
                                },
                                Ok(used) => {
                                    proof {
                                        assert(out@ =~= read_spec(reader, input@).out);
                                        assert(actions_view(actions@) =~= Seq::<ActionView>::empty());
                                    }
                                    push_body(&mut actions, out);
                                    let rest = tail(input.as_slice(), used);
                                    if r2.is_complete() {
                                        actions.push(Action::BodyComplete);
                                        let ghost a1 = actions@;
                                        self.parse_buffer(rest, &mut actions);
                                        proof {
                                            assert(actions_view(a1) =~= body_actions(read_spec(reader, input@).out) + seq![ActionView::BodyComplete]);
                                        }
                                    } else {
                                        self.state = ConnState::Streaming { reader: r2, pending: rest };
                                    }
                                },
                            }
                        },
                    }
                }
            },
        }
        actions
    }

    /// The transport reports the end of the stream.
    pub fn on_eof(&mut self, consumer: ConsumerStatus) -> (r: Vec<Action>)
        requires
            conn_wf(old(self).state@),
        ensures
            (final(self).state@, actions_view(r@)) == on_eof_spec(old(self).state@, consumer),
    {
        let mut actions: Vec<Action> = Vec::new();
        let mut state = ConnState::Closed;
        core::mem::swap(&mut self.state, &mut state);
        match state {
            ConnState::Closed => {},
            ConnState::Parsing(buf) => {
                if buf.len() > 0 {
                    actions.push(Action::UnexpectedEnd);
                }
            },
            ConnState::Streaming { reader, pending } => {
                let mut r = reader;
                if reader.is_complete() || matches!(consumer, ConsumerStatus::Gone) {
                } else {
                    let mut out: Vec<u8> = Vec::new();
                    let res = r.read_available(pending.as_slice(), &mut out);
                    proof {
                        assert(out@ =~= read_spec(reader, pending@).out);
                        assert(actions_view(actions@) =~= Seq::<ActionView>::empty());
                    }
                    push_body(&mut actions, out);
                    let ghost a1 = actions@;
                    if res.is_ok() && (r.is_complete() || matches!(r, BodyReader::UntilClose)) {
                        actions.push(Action::BodyComplete);
                        proof {
                            assert(actions_view(actions@) =~= actions_view(a1) + seq![ActionView::BodyComplete]);
                        }
                    } else {
                        actions.push(Action::UnexpectedEnd);
                        proof {
                            assert(actions_view(actions@) =~= actions_view(a1) + seq![ActionView::UnexpectedEnd]);
                        }
                    }
                }
            },
        }
        proof {
            assert(actions_view(actions@) =~= on_eof_spec(old(self).state@, consumer).1);
        }
        actions
    }

    /// The transport failed or ended the connection: nothing more is read.
    pub fn on_end(&mut self)
        ensures
            final(self).state@ == ConnView::Closed,
    {
        self.state = ConnState::Closed;
    }

    pub fn is_closed(&self) -> (r: bool)
        ensures
            r == (self.state@ is Closed),
    {
        matches!(self.state, ConnState::Closed)
    }
}

/// Delivers the fragments one call at a time, gathering the actions.
pub open spec fn feed_all(s: ConnView, frags: Seq<Seq<u8>>, c: ConsumerStatus) -> (ConnView, Seq<ActionView>)
    decreases frags.len(),
{
    if frags.len() == 0 {
        (s, seq![])
    } else {
        let before = feed_all(s, frags.drop_last(), c);
        let after = on_data_spec(before.0, frags.last(), c);
        (after.0, before.1 + after.1)
    }
}

pub open spec fn joined_frags(frags: Seq<Seq<u8>>) -> Seq<u8>
    decreases frags.len(),
{
    if frags.len() == 0 {
        seq![]
    } else {
        joined_frags(frags.drop_last()) + frags.last()
    }
}

/// A head is still incomplete at this point of the input, and under the
/// buffer bound.
pub open spec fn still_incomplete(b: Seq<u8>) -> bool {
    parse_spec(b) == ParseStatusView::NeedMoreData && b.len() < MAX_BUFFER_SIZE
}

/// Incremental parsing: delivering a message in fragments, where the head is
/// not yet complete at any boundary between them, gives the same state and
/// the same actions as delivering all its bytes at once.
pub proof fn lemma_incremental_parsing(frags: Seq<Seq<u8>>, c: ConsumerStatus)
    requires
        frags.len() > 0,
        forall|k: int| 0 < k < frags.len() ==> still_incomplete(#[trigger] joined_frags(frags.take(k))),
    ensures
        feed_all(ConnView::Parsing(seq![]), frags, c) == on_data_spec(ConnView::Parsing(seq![]), joined_frags(frags), c),
    decreases frags.len(),
{
    let init = frags.drop_last();
    assert(frags.take(frags.len() - 1) =~= init);
    if init.len() == 0 {
        assert(feed_all(ConnView::Parsing(seq![]), init, c) == (ConnView::Parsing(seq![]), Seq::<ActionView>::empty()));
        assert(joined_frags(init) =~= Seq::<u8>::empty());
        assert(joined_frags(frags) == Seq::<u8>::empty() + frags.last());
        assert(Seq::<ActionView>::empty() + on_data_spec(ConnView::Parsing(seq![]), frags.last(), c).1
            =~= on_data_spec(ConnView::Parsing(seq![]), frags.last(), c).1);
    } else {
        assert forall|k: int| 0 < k < init.len() implies still_incomplete(#[trigger] joined_frags(init.take(k))) by {
            assert(init.take(k) =~= frags.take(k));
        }
        lemma_incremental_parsing(init, c);
        let j = joined_frags(init);
        assert(still_incomplete(joined_frags(frags.take(init.len() as int))));
        assert(Seq::<u8>::empty() + j =~= j);
        assert(on_data_spec(ConnView::Parsing(seq![]), j, c) == (ConnView::Parsing(j), Seq::<ActionView>::empty()));
        assert(Seq::<u8>::empty() + joined_frags(frags) =~= joined_frags(frags));
        assert(Seq::<ActionView>::empty() + on_data_spec(ConnView::Parsing(j), frags.last(), c).1
            =~= on_data_spec(ConnView::Parsing(j), frags.last(), c).1);
    }
}

/// The buffer bound: bytes with no complete head keep a parsing connection
/// parsing while the buffer stays under the bound, and close it, asking the
/// transport to terminate, once the buffer reaches it.
pub proof fn lemma_buffer_bound(buf: Seq<u8>, data: Seq<u8>, c: ConsumerStatus)
    requires
        parse_spec(buf + data) == ParseStatusView::NeedMoreData,
    ensures
        (buf + data).len() < MAX_BUFFER_SIZE ==> on_data_spec(ConnView::Parsing(buf), data, c) == (
        ConnView::Parsing(buf + data), Seq::<ActionView>::empty()),
        (buf + data).len() >= MAX_BUFFER_SIZE ==> on_data_spec(ConnView::Parsing(buf), data, c) == (
        ConnView::Closed, seq![ActionView::Close(CloseReason::TooLarge)]),
{
}

/// The body bytes that a list of actions carries, joined in order.
pub open spec fn body_bytes(acts: Seq<ActionView>) -> Seq<u8>
    decreases acts.len(),
{
    if acts.len() == 0 {
        seq![]
    } else {
        body_bytes(acts.drop_last()) + match acts.last() {
            ActionView::Body(b) => b,
            _ => seq![],
        }
    }
}

/// The actions other than body bytes, in order.
pub open spec fn other_actions(acts: Seq<ActionView>) -> Seq<ActionView>
    decreases acts.len(),
{
    if acts.len() == 0 {
        seq![]
    } else {
        other_actions(acts.drop_last()) + match acts.last() {
            ActionView::Body(_) => seq![],
            a => seq![a],
        }
    }
}

proof fn lemma_actions_concat(x: Seq<ActionView>, y: Seq<ActionView>)
    ensures
        body_bytes(x + y) == body_bytes(x) + body_bytes(y),
        other_actions(x + y) == other_actions(x) + other_actions(y),
    decreases y.len(),
{
    if y.len() == 0 {
        assert(x + y =~= x);
        assert(body_bytes(x) + Seq::<u8>::empty() =~= body_bytes(x));
        assert(other_actions(x) + Seq::<ActionView>::empty() =~= other_actions(x));
    } else {
        lemma_actions_concat(x, y.drop_last());
        assert((x + y).drop_last() =~= x + y.drop_last());
        assert((x + y).last() == y.last());
        let tb = match y.last() {
            ActionView::Body(b) => b,
            _ => Seq::<u8>::empty(),
        };
        let ta = match y.last() {
            ActionView::Body(_) => Seq::<ActionView>::empty(),
            a => seq![a],
        };
        assert(body_bytes(x) + body_bytes(y.drop_last()) + tb =~= body_bytes(x) + (body_bytes(y.drop_last()) + tb));
        assert(other_actions(x) + other_actions(y.drop_last()) + ta =~= other_actions(x) + (other_actions(y.drop_last()) + ta));
    }
}

proof fn lemma_body_actions(out: Seq<u8>)
    ensures
        body_bytes(body_actions(out)) == out,
        other_actions(body_actions(out)) == Seq::<ActionView>::empty(),
{
    if out.len() > 0 {
        let one = seq![ActionView::Body(out)];
        assert(one.drop_last() =~= Seq::<ActionView>::empty());
        assert(one.last() == ActionView::Body(out));
        assert(body_bytes(one) == body_bytes(one.drop_last()) + out);
        assert(other_actions(one) == other_actions(one.drop_last()) + Seq::<ActionView>::empty());
        assert(Seq::<u8>::empty() + out =~= out);
        assert(Seq::<ActionView>::empty() + Seq::<ActionView>::empty() =~= Seq::<ActionView>::empty());
    }
}

/// Incremental body delivery: for a body being read by its consumer, bytes
/// delivered as `a` and then `b`, where the body is not complete after `a`,
/// lead to the same state, the same body bytes and the same other actions as
/// `a + b` delivered at once.
pub proof fn lemma_incremental_body(r: BodyReader, pending: Seq<u8>, a: Seq<u8>, b: Seq<u8>)
    requires
        reader_wf(r),
        !(r is Done),
        read_spec(r, pending + a).reader matches Some(r1) && !(r1 is Done),
    ensures
        ({
            let first = on_data_spec(ConnView::Streaming(r, pending), a, ConsumerStatus::Claimed);
            let second = on_data_spec(first.0, b, ConsumerStatus::Claimed);
            let once = on_data_spec(ConnView::Streaming(r, pending), a + b, ConsumerStatus::Claimed);
            &&& second.0 == once.0
            &&& body_bytes(first.1 + second.1) == body_bytes(once.1)
            &&& other_actions(first.1 + second.1) == other_actions(once.1)
        }),
{
    let input = pending + a;
    let ra = read_spec(r, input);
    let r1 = ra.reader->Some_0;
    lemma_read_takes_all(r, input);
    assert(input.skip(ra.used as int) =~= Seq::<u8>::empty());
    assert(Seq::<u8>::empty() + b =~= b);
    assert(pending + (a + b) =~= input + b);
    lemma_read_split(r, input, b);
    let rb = read_spec(r1, b);
    lemma_body_actions(ra.out);
    lemma_body_actions(rb.out);
    lemma_body_actions(ra.out + rb.out);
    let first = on_data_spec(ConnView::Streaming(r, pending), a, ConsumerStatus::Claimed);
    let second = on_data_spec(first.0, b, ConsumerStatus::Claimed);
    let once = on_data_spec(ConnView::Streaming(r, pending), a + b, ConsumerStatus::Claimed);
    lemma_actions_concat(first.1, second.1);
    match rb.reader {
        None => {
            let close = seq![ActionView::Close(CloseReason::BadChunk)];
            lemma_actions_concat(body_actions(rb.out), close);
            lemma_actions_concat(body_actions(ra.out + rb.out), close);
        },
        Some(r2) => {
            lemma_read_used_le(r1, b);
            assert((input + b).skip((ra.used + rb.used) as int) =~= b.skip(rb.used as int));
            if r2 is Done {
                let next = parse_phase(b.skip(rb.used as int));
                let tail_acts = seq![ActionView::BodyComplete] + next.1;
                assert(body_actions(rb.out) + seq![ActionView::BodyComplete] + next.1 =~= body_actions(rb.out) + tail_acts);
                assert(body_actions(ra.out + rb.out) + seq![ActionView::BodyComplete] + next.1 =~= body_actions(ra.out + rb.out) + tail_acts);
                lemma_actions_concat(body_actions(rb.out), tail_acts);
                lemma_actions_concat(body_actions(ra.out + rb.out), tail_acts);
                assert(Seq::<ActionView>::empty() + other_actions(tail_acts) =~= other_actions(tail_acts));
            } else {
                assert(Seq::<ActionView>::empty() + Seq::<ActionView>::empty() =~= Seq::<ActionView>::empty());
            }
        },
    }
}

/// Incremental body delivery over any number of fragments: for a body being
/// read by its consumer, with nothing pending, delivering the fragments one
/// call at a time, where the body is not complete before the last of them,
/// leads to the same state, the same body bytes and the same other actions
/// as delivering them joined in one call.
pub proof fn lemma_incremental_body_frags(r: BodyReader, frags: Seq<Seq<u8>>)
    requires
        reader_wf(r),
        !(r is Done),
        frags.len() > 0,
        forall|k: int| 0 < k < frags.len() ==> (read_spec(r, #[trigger] joined_frags(frags.take(k))).reader matches Some(r1)
            && !(r1 is Done)),
    ensures
        ({
            let split = feed_all(ConnView::Streaming(r, seq![]), frags, ConsumerStatus::Claimed);
            let once = on_data_spec(ConnView::Streaming(r, seq![]), joined_frags(frags), ConsumerStatus::Claimed);
            &&& split.0 == once.0
            &&& body_bytes(split.1) == body_bytes(once.1)
            &&& other_actions(split.1) == other_actions(once.1)
        }),
    decreases frags.len(),
{
    let s0 = ConnView::Streaming(r, seq![]);
    let c = ConsumerStatus::Claimed;
    let init = frags.drop_last();
    assert(frags.take(frags.len() - 1) =~= init);
    if init.len() == 0 {
        assert(joined_frags(init) =~= Seq::<u8>::empty());
        assert(joined_frags(frags) =~= frags.last());
        let last = on_data_spec(s0, frags.last(), c);
        assert(feed_all(s0, init, c) == (s0, Seq::<ActionView>::empty()));
        assert(Seq::<ActionView>::empty() + last.1 =~= last.1);
        assert(feed_all(s0, frags, c) == last);
    } else {
        assert forall|k: int| 0 < k < init.len() implies (read_spec(r, #[trigger] joined_frags(init.take(k))).reader matches Some(r1)
            && !(r1 is Done)) by {
            assert(init.take(k) =~= frags.take(k));
        }
        lemma_incremental_body_frags(r, init);
        let j = joined_frags(init);
        assert(read_spec(r, joined_frags(frags.take(init.len() as int))).reader matches Some(r1) && !(r1 is Done));
        assert(Seq::<u8>::empty() + j =~= j);
        lemma_incremental_body(r, seq![], j, frags.last());
        let before = feed_all(s0, init, c);
        let first = on_data_spec(s0, j, c);
        let second = on_data_spec(first.0, frags.last(), c);
        lemma_actions_concat(before.1, second.1);
        lemma_actions_concat(first.1, second.1);
        assert(before.0 == first.0);
        assert(feed_all(s0, frags, c) == (second.0, before.1 + second.1));
        assert(joined_frags(frags) == j + frags.last());
        assert(body_bytes(before.1 + second.1) == body_bytes(first.1) + body_bytes(second.1));
        assert(other_actions(before.1 + second.1) == other_actions(first.1) + other_actions(second.1));
    }
}

/// What a body consumer has published on the rendezvous.
#[derive(Clone, Copy, Debug, PartialEq, Eq)]
pub enum StreamState {
    /// The consumer reads the body.
    Reading,
    /// The consumer has not claimed the body.
    Paused,
}

/// The receiving end of the rendezvous: the latest state published.
#[derive(Clone, Copy, Debug)]
pub struct StreamRx {
    pub state: StreamState,
}

pub open spec fn latest_state(current: StreamState, received: Seq<StreamState>) -> StreamState {
    if received.len() == 0 {
        current
    } else {
        received.last()
    }
}

impl StreamRx {
    /// A receiver before anything was published: the body is unclaimed.
    pub fn new() -> (r: StreamRx)
        ensures
            r.state == StreamState::Paused,
    {
        StreamRx { state: StreamState::Paused }
    }

    /// Takes the states published since the last poll, in order, and whether
    /// the publisher is gone; the latest state wins.
    pub fn poll(&mut self, received: &Vec<StreamState>, disconnected: bool) -> (r: ConsumerStatus)
        ensures
            final(self).state == latest_state(old(self).state, received@),
            r == (if disconnected {
                ConsumerStatus::Gone
            } else if final(self).state == StreamState::Reading {
                ConsumerStatus::Claimed
            } else {
                ConsumerStatus::Unclaimed
            }),
    {
        if received.len() > 0 {
            self.state = received[received.len() - 1];
        }
        if disconnected {
            ConsumerStatus::Gone
        } else {
            match self.state {
                StreamState::Reading => ConsumerStatus::Claimed,
                StreamState::Paused => ConsumerStatus::Unclaimed,
            }
        }
    }
}

/// An error surfaced to a body consumer.
#[derive(Clone, Copy, Debug, PartialEq, Eq)]
pub enum Error {
    /// The chunked body broke its grammar.
    Chunk(MalformedChunk),
    /// The transport failed.
    Transport,
    /// The stream ended before the body was complete.
    UnexpectedEnd,
}

/// A consumer of a message body, implemented by the library's users.
pub trait Read {
    fn on_data(&mut self, data: &[u8]);

    fn on_error(&mut self, err: Error);

    fn on_eof(&mut self);
}

/// The readable body of an incoming message.
#[derive(Clone, Copy, Debug)]
pub struct Stream {
    pub body: BodyReader,
}

/// The body stream of an incoming request, framed as its head says.
pub fn stream(incoming: &RequestHead) -> (r: Result<Stream, FramingError>)
    ensures
        match request_framing(incoming@.method, incoming@.headers) {
            Ok(f) => r matches Ok(s) && s.body == reader_for(f),
            Err(e) => r == Err::<Stream, FramingError>(e),
        },
{
    match resolve_request(incoming.method.as_slice(), &incoming.headers) {
        Ok(f) => Ok(Stream { body: BodyReader::new(f) }),
        Err(e) => Err(e),
    }
}

/// Hands the body actions to a consumer: body bytes as data, completion as
/// end of body, a broken chunk grammar or an early end of stream as an error.
pub fn deliver<R: Read>(consumer: &mut R, actions: &Vec<Action>) {
    let mut i: usize = 0;
    while i < actions.len()
        invariant
            i <= actions@.len(),
        decreases actions@.len() - i,
    {
        match &actions[i] {
            Action::Body(b) => consumer.on_data(b.as_slice()),
            Action::BodyComplete => consumer.on_eof(),
            Action::Close(CloseReason::BadChunk) => consumer.on_error(Error::Chunk(MalformedChunk)),
            Action::UnexpectedEnd => consumer.on_error(Error::UnexpectedEnd),
            _ => {},
        }
        i = i + 1;
    }
}

} // verus!
