//! Newline-delimited message framing, independent of any I/O.
//!
//! MCP over a byte stream is one JSON-RPC object per line. [`Framer`] holds
//! the receive and transmit buffers, reassembles messages split across
//! reads, and hands each complete, non-empty line to a handler. Abstractly
//! the framer is driven one byte at a time (see [`byte_step`]); the buffered
//! implementation processes whole chunks and is proved to agree with that
//! byte-level meaning for every chunking.

use vstd::prelude::*;

verus! {

/// Why a [`Framer`] rejected input.
#[derive(Debug, Clone, Copy, PartialEq, Eq, Structural)]
#[non_exhaustive]
pub enum FrameError {
    /// A message reached `RX` bytes without a newline. The oversized frame is
    /// dropped and the framer resynchronizes on the next newline.
    Overflow,
}

/// The framer's state between two inputs: the bytes of an unterminated
/// message, and whether it is discarding the rest of an oversized one.
pub struct FrameState {
    pub pending: Seq<u8>,
    pub resyncing: bool,
}

pub open spec fn empty_state() -> FrameState {
    FrameState { pending: Seq::empty(), resyncing: false }
}

/// One input byte through a framer whose receive buffer holds `rx` bytes:
/// the next state, the message completed by this byte (if any), and whether
/// this byte overflowed the buffer.
pub open spec fn byte_step(rx: nat, s: FrameState, c: u8) -> (FrameState, Option<Seq<u8>>, bool) {
    if s.resyncing {
        (FrameState { pending: Seq::empty(), resyncing: c != 10u8 }, None, false)
    } else if c == 10u8 {
        (empty_state(), if s.pending.len() > 0 { Some(s.pending) } else { None }, false)
    } else if s.pending.len() + 1 >= rx {
        (FrameState { pending: Seq::empty(), resyncing: true }, None, true)
    } else {
        (FrameState { pending: s.pending.push(c), resyncing: false }, None, false)
    }
}

/// `input` through the framer from state `s`: the final state, the messages
/// handed to the handler in order, and whether any byte overflowed.
pub open spec fn stream(rx: nat, s: FrameState, input: Seq<u8>) -> (FrameState, Seq<Seq<u8>>, bool)
    decreases input.len(),
{
    if input.len() == 0 {
        (s, Seq::empty(), false)
    } else {
        let prev = stream(rx, s, input.drop_last());
        let step = byte_step(rx, prev.0, input.last());
        (
            step.0,
            match step.1 {
                Some(m) => prev.1.push(m),
                None => prev.1,
            },
            prev.2 || step.2,
        )
    }
}

/// A state the framer can be in: a pending message is shorter than the
/// buffer, and nothing is pending while resynchronizing.
pub open spec fn state_ok(rx: nat, s: FrameState) -> bool {
    &&& (rx > 0 ==> s.pending.len() < rx)
    &&& (rx == 0 ==> s.pending.len() == 0)
    &&& (s.resyncing ==> s.pending.len() == 0)
}

proof fn lemma_stream_step(rx: nat, s: FrameState, input: Seq<u8>, k: int)
    requires
        0 <= k < input.len(),
    ensures
        stream(rx, s, input.subrange(0, k + 1)) == ({
            let prev = stream(rx, s, input.subrange(0, k));
            let step = byte_step(rx, prev.0, input[k]);
            (
                step.0,
                match step.1 {
                    Some(m) => prev.1.push(m),
                    None => prev.1,
                },
                prev.2 || step.2,
            )
        }),
{
    let a = input.subrange(0, k + 1);
    assert(a.drop_last() =~= input.subrange(0, k));
    assert(a.last() == input[k]);
}

proof fn lemma_stream_ok(rx: nat, s: FrameState, input: Seq<u8>)
    requires
        state_ok(rx, s),
    ensures
        state_ok(rx, stream(rx, s, input).0),
    decreases input.len(),
{
    if input.len() > 0 {
        lemma_stream_ok(rx, s, input.drop_last());
    }
}

/// Feeding `a` and then `b` is feeding `a + b`: the same final state, the
/// same messages in the same order, and an overflow in either part exactly
/// when there is one in the whole. So the framer's behaviour does not depend
/// on how the byte stream is cut into chunks (one byte at a time, or chunks
/// larger than the buffer).
pub proof fn law_chunking_invariant(rx: nat, s: FrameState, a: Seq<u8>, b: Seq<u8>)
    ensures
        stream(rx, s, a + b).0 == stream(rx, stream(rx, s, a).0, b).0,
        stream(rx, s, a + b).1 == stream(rx, s, a).1 + stream(rx, stream(rx, s, a).0, b).1,
        stream(rx, s, a + b).2 == (stream(rx, s, a).2 || stream(rx, stream(rx, s, a).0, b).2),
    decreases b.len(),
{
    let sa = stream(rx, s, a);
    if b.len() == 0 {
        assert(a + b =~= a);
        assert(sa.1 + Seq::<Seq<u8>>::empty() =~= sa.1);
    } else {
        law_chunking_invariant(rx, s, a, b.drop_last());
        assert((a + b).drop_last() =~= a + b.drop_last());
        assert((a + b).last() == b.last());
        let mid = stream(rx, sa.0, b.drop_last());
        let step = byte_step(rx, mid.0, b.last());
        match step.1 {
            Some(m) => {
                assert(sa.1 + mid.1.push(m) =~= (sa.1 + mid.1).push(m));
            },
            None => {},
        }
    }
}

/// The non-empty replies among `rs`, in order: what reaches the sink.
pub open spec fn nonempty(rs: Seq<Seq<u8>>) -> Seq<Seq<u8>>
    decreases rs.len(),
{
    if rs.len() == 0 {
        Seq::empty()
    } else if rs.last().len() > 0 {
        nonempty(rs.drop_last()).push(rs.last())
    } else {
        nonempty(rs.drop_last())
    }
}

/// Keeping the non-empty replies distributes over concatenation.
pub proof fn lemma_nonempty_append(a: Seq<Seq<u8>>, b: Seq<Seq<u8>>)
    ensures
        nonempty(a + b) == nonempty(a) + nonempty(b),
    decreases b.len(),
{
    if b.len() == 0 {
        assert(a + b =~= a);
        assert(nonempty(a) + Seq::<Seq<u8>>::empty() =~= nonempty(a));
    } else {
        lemma_nonempty_append(a, b.drop_last());
        assert((a + b).drop_last() =~= a + b.drop_last());
        assert((a + b).last() == b.last());
        if b.last().len() > 0 {
            assert(nonempty(a) + nonempty(b.drop_last()).push(b.last()) =~= (nonempty(a) + nonempty(
                b.drop_last(),
            )).push(b.last()));
        }
    }
}

/// After an oversized frame, nothing up to the next newline is ever handed
/// to the handler and no second overflow is reported: the framer picks up
/// again, from an empty state, with the byte after that newline.
pub proof fn law_resync_skips_to_newline(rx: nat, pending: Seq<u8>, a: Seq<u8>, b: Seq<u8>)
    requires
        forall|i: int| 0 <= i < a.len() ==> a[i] != 10u8,
    ensures
        stream(rx, FrameState { pending, resyncing: true }, a + seq![10u8] + b) == stream(
            rx,
            empty_state(),
            b,
        ),
{
    let s = FrameState { pending, resyncing: true };
    lemma_resync_run(rx, s, a);
    let s1 = FrameState { pending: Seq::<u8>::empty(), resyncing: true };
    law_chunking_invariant(rx, s, a, seq![10u8]);
    assert(seq![10u8].drop_last() =~= Seq::<u8>::empty());
    let sa = stream(rx, s, a);
    assert(stream(rx, sa.0, seq![10u8]) == (empty_state(), Seq::<Seq<u8>>::empty(), false)) by {
        assert(seq![10u8].last() == 10u8);
        assert(stream(rx, sa.0, Seq::<u8>::empty()) == (sa.0, Seq::<Seq<u8>>::empty(), false));
    }
    let s2 = stream(rx, s, a + seq![10u8]);
    assert(s2.0 == empty_state());
    assert(s2.1 =~= Seq::<Seq<u8>>::empty());
    law_chunking_invariant(rx, s, a + seq![10u8], b);
    assert(Seq::<Seq<u8>>::empty() + stream(rx, empty_state(), b).1 =~= stream(
        rx,
        empty_state(),
        b,
    ).1);
}

/// The complete (newline-terminated) lines of `input`, and the bytes after
/// the last newline.
pub open spec fn split_lines(input: Seq<u8>) -> (Seq<Seq<u8>>, Seq<u8>)
    decreases input.len(),
{
    if input.len() == 0 {
        (Seq::empty(), Seq::empty())
    } else {
        let prev = split_lines(input.drop_last());
        if input.last() == 10u8 {
            (prev.0.push(prev.1), Seq::empty())
        } else {
            (prev.0, prev.1.push(input.last()))
        }
    }
}

/// The non-empty members of `ls`, in order.
pub open spec fn non_empty(ls: Seq<Seq<u8>>) -> Seq<Seq<u8>>
    decreases ls.len(),
{
    if ls.len() == 0 {
        Seq::empty()
    } else if ls.last().len() > 0 {
        non_empty(ls.drop_last()).push(ls.last())
    } else {
        non_empty(ls.drop_last())
    }
}

/// No line of `input` reaches `rx` bytes before its newline (or before the
/// input ends).
pub open spec fn lines_fit(rx: nat, input: Seq<u8>) -> bool {
    forall|k: int| 0 <= k <= input.len() ==> #[trigger] split_lines(input.take(k)).1.len() < rx
}

/// One JSON-RPC object per line: from a fresh framer, when no line is too
/// long for the buffer, the handler gets exactly the non-empty lines of the
/// input, in order, nothing overflows, and the bytes after the last newline
/// stay buffered.
pub proof fn law_messages_are_lines(rx: nat, input: Seq<u8>)
    requires
        lines_fit(rx, input),
    ensures
        stream(rx, empty_state(), input) == (
        FrameState { pending: split_lines(input).1, resyncing: false },
        non_empty(split_lines(input).0),
        false,
        ),
    decreases input.len(),
{
    assert(input.take(0) =~= Seq::<u8>::empty());
    if input.len() == 0 {
        assert(split_lines(input).1 =~= Seq::<u8>::empty());
    } else {
        let prev = input.drop_last();
        assert forall|k: int| 0 <= k <= prev.len() implies #[trigger] split_lines(prev.take(k)).1.len()
            < rx by {
            assert(prev.take(k) =~= input.take(k));
        }
        law_messages_are_lines(rx, prev);
        assert(input.take(input.len() as int) =~= input);
        let sp = split_lines(prev);
        let st = stream(rx, empty_state(), prev);
        assert(st.0 == FrameState { pending: sp.1, resyncing: false });
        if input.last() == 10u8 {
            assert(sp.0.push(sp.1).drop_last() =~= sp.0);
            assert(sp.0.push(sp.1).last() == sp.1);
            assert(split_lines(input).1 =~= Seq::<u8>::empty());
            assert(empty_state() == FrameState { pending: split_lines(input).1, resyncing: false });
        } else {
            assert(split_lines(input).1.len() < rx);
            assert(split_lines(input).1 == sp.1.push(input.last()));
        }
    }
}

proof fn lemma_resync_run(rx: nat, s: FrameState, a: Seq<u8>)
    requires
        s.resyncing,
        forall|i: int| 0 <= i < a.len() ==> a[i] != 10u8,
    ensures
        a.len() > 0 ==> stream(rx, s, a).0 == (FrameState {
            pending: Seq::<u8>::empty(),
            resyncing: true,
        }),
        stream(rx, s, a).0.resyncing,
        stream(rx, s, a).1 =~= Seq::<Seq<u8>>::empty(),
        !stream(rx, s, a).2,
        a.len() == 0 ==> stream(rx, s, a).0 == s,
    decreases a.len(),
{
    if a.len() > 0 {
        lemma_resync_run(rx, s, a.drop_last());
        assert(a.last() == a[a.len() - 1]);
    }
}

/// Newline-delimited framing over a caller-owned byte stream.
///
/// - `RX`: largest inbound message accepted, in bytes.
/// - `TX`: largest response the handler may produce, in bytes.
pub struct Framer<const RX: usize, const TX: usize> {
    rx: [u8; RX],
    /// Valid bytes in `rx`.
    filled: usize,
    tx: [u8; TX],
    /// Set after an oversized frame: bytes are discarded until a newline.
    resyncing: bool,
    /// Every message handed to a handler so far, in order.
    log: Ghost<Seq<Seq<u8>>>,
    /// The reply the handler wrote for each of them (empty for none).
    replies: Ghost<Seq<Seq<u8>>>,
    /// Every reply handed to the sink so far, in order.
    sent: Ghost<Seq<Seq<u8>>>,
}

impl<const RX: usize, const TX: usize> Framer<RX, TX> {
    /// The framer's state: buffered bytes of an unterminated message, and
    /// the resynchronization flag.
    pub closed spec fn view(&self) -> FrameState {
        FrameState {
            pending: self.rx@.subrange(0, self.filled as int),
            resyncing: self.resyncing,
        }
    }

    /// The messages handed to a handler since the framer was made.
    pub closed spec fn dispatched(&self) -> Seq<Seq<u8>> {
        self.log@
    }

    /// The reply the handler wrote for each dispatched message, in the same
    /// order; an empty one for a handler that returned 0.
    pub closed spec fn replies(&self) -> Seq<Seq<u8>> {
        self.replies@
    }

    /// The replies handed to the sink since the framer was made.
    pub closed spec fn sent(&self) -> Seq<Seq<u8>> {
        self.sent@
    }

    /// The ghost record is in step: one reply per message, and the sink got
    /// exactly the non-empty ones.
    closed spec fn logs_ok(&self) -> bool {
        &&& self.replies@.len() == self.log@.len()
        &&& self.sent@ == nonempty(self.replies@)
    }

    /// The unfilled tail of the receive buffer.
    pub closed spec fn space(&self) -> Seq<u8> {
        self.rx@.subrange(self.filled as int, RX as int)
    }

    pub closed spec fn wf(&self) -> bool {
        &&& self.filled <= RX
        &&& state_ok(RX as nat, self.view())
        &&& self.logs_ok()
    }

    /// The handler may be called on any message with a `TX`-byte buffer and
    /// reports no more than `TX` bytes; the sink may be called on any
    /// response.
    pub open spec fn callbacks_ok<H, E>(handler: H, emit: E) -> bool where
        H: Fn(&[u8], &mut [u8]) -> usize,
        E: FnMut(&[u8]),
     {
        &&& forall|m: &[u8], o: &mut [u8]| o@.len() == TX ==> #[trigger] call_requires(handler, (m, o))
        &&& forall|m: &[u8], o: &mut [u8], n: usize|
            o@.len() == TX && #[trigger] call_ensures(handler, (m, o), n) ==> n <= TX
        &&& forall|s: &[u8]| #[trigger] call_requires(emit, (s,))
    }

    pub fn new() -> (f: Self)
        ensures
            f.wf(),
            f@ == empty_state(),
            f.dispatched() == Seq::<Seq<u8>>::empty(),
            f.replies() == Seq::<Seq<u8>>::empty(),
            f.sent() == Seq::<Seq<u8>>::empty(),
    {
        let f = Framer {
            rx: [0u8; RX],
            filled: 0,
            tx: [0u8; TX],
            resyncing: false,
            log: Ghost(Seq::empty()),
            replies: Ghost(Seq::empty()),
            sent: Ghost(Seq::empty()),
        };
        assert(f@.pending =~= Seq::<u8>::empty());
        f
    }

    /// The unfilled tail of the receive buffer: read or copy bytes into it,
    /// then call [`commit`](Self::commit) with how many arrived. Never empty
    /// while `RX > 0`.
    pub fn rx_space(&mut self) -> (r: &mut [u8])
        requires
            old(self).wf(),
        ensures
            r@ == old(self).space(),
            r@.len() == RX - old(self)@.pending.len(),
            RX > 0 ==> r@.len() > 0,
            final(self).space() == final(r)@,
            final(self)@ == old(self)@,
            final(self).dispatched() == old(self).dispatched(),
            final(self).replies() == old(self).replies(),
            final(self).sent() == old(self).sent(),
            final(self).wf(),
    {
        let ghost prefix = self.rx@.subrange(0, self.filled as int);
        let (_front, tail) = self.rx.split_at_mut(self.filled);
        proof {
            let fr = final(self).rx@;
            assert(fr.len() == RX);
            assert(fr.subrange(0, old(self).filled as int) =~= prefix) by {
                assert(fr =~= final(_front)@ + final(tail)@);
            }
            assert(fr.subrange(old(self).filled as int, RX as int) =~= final(tail)@) by {
                assert(fr =~= final(_front)@ + final(tail)@);
            }
        }
        tail
    }

    /// Account for `n` bytes written into [`rx_space`](Self::rx_space) and
    /// dispatch every complete message now buffered. `handler` answers one
    /// message into the transmit buffer and returns the reply's length (0
    /// for no reply); `emit` receives each non-empty reply.
    pub fn commit<H, E>(&mut self, n: usize, handler: H, emit: E) -> (r: Result<(), FrameError>) where
        H: Fn(&[u8], &mut [u8]) -> usize,
        E: FnMut(&[u8]),

        requires
            old(self).wf(),
            n <= RX - old(self)@.pending.len(),
            Self::callbacks_ok(handler, emit),
        ensures
            final(self).wf(),
            final(self)@ == stream(RX as nat, old(self)@, old(self).space().subrange(0, n as int)).0,
            final(self).dispatched() == old(self).dispatched() + stream(
                RX as nat,
                old(self)@,
                old(self).space().subrange(0, n as int),
            ).1,
            r is Err <==> stream(RX as nat, old(self)@, old(self).space().subrange(0, n as int)).2,
            final(self).replies().len() == final(self).dispatched().len(),
            final(self).replies().subrange(0, old(self).replies().len() as int) == old(self).replies(),
            forall|k: int|
                #![trigger final(self).replies()[k]]
                old(self).replies().len() <= k < final(self).replies().len() ==> final(self).replies()[k].len() <= TX && exists|
                    m: &[u8],
                    o: &mut [u8],
                    len: usize,
                |
                    #[trigger] call_ensures(handler, (m, o), len) && m@ == final(self).dispatched()[k]
                        && final(self).replies()[k] == final(o)@.subrange(0, len as int),
            final(self).sent() == old(self).sent() + nonempty(
                final(self).replies().subrange(
                    old(self).replies().len() as int,
                    final(self).replies().len() as int,
                ),
            ),
            forall|k: int|
                #![trigger final(self).sent()[k]]
                old(self).sent().len() <= k < final(self).sent().len() ==> final(self).sent()[k].len() > 0
                    && exists|s: &[u8]| #[trigger] call_ensures(emit, (s,), ()) && s@ == final(self).sent()[k],
    {
        let mut emit = emit;
        let p0 = self.filled;
        self.filled = p0 + n;
        proof {
            assert(self.rx@.subrange(0, p0 as int) =~= old(self)@.pending);
            assert(self.rx@.subrange(p0 as int, (p0 + n) as int) =~= old(self).space().subrange(
                0,
                n as int,
            ));
        }
        let r = self.drain(p0, &handler, &mut emit);
        proof {
            self.lemma_sent_tail(old(self).replies@, old(self).sent@);
        }
        r
    }

    /// The sink got the non-empty replies past `rep0` after `sent0`, the
    /// non-empty ones of `rep0`.
    proof fn lemma_sent_tail(&self, rep0: Seq<Seq<u8>>, sent0: Seq<Seq<u8>>)
        requires
            self.logs_ok(),
            rep0.len() <= self.replies@.len(),
            self.replies@.subrange(0, rep0.len() as int) == rep0,
            sent0 == nonempty(rep0),
        ensures
            self.sent@ == sent0 + nonempty(self.replies@.subrange(rep0.len() as int, self.replies@.len() as int)),
    {
        let tail = self.replies@.subrange(rep0.len() as int, self.replies@.len() as int);
        assert(self.replies@ =~= rep0 + tail);
        lemma_nonempty_append(rep0, tail);
    }

    /// Copy `incoming` into the receive buffer and dispatch whatever that
    /// completes. Chunks larger than `RX` are processed in buffer-sized
    /// passes; the result is `Err` when any pass overflowed.
    pub fn feed<H, E>(&mut self, incoming: &[u8], handler: H, emit: E) -> (r: Result<(), FrameError>) where
        H: Fn(&[u8], &mut [u8]) -> usize,
        E: FnMut(&[u8]),

        requires
            old(self).wf(),
            RX > 0,
            Self::callbacks_ok(handler, emit),
        ensures
            final(self).wf(),
            final(self)@ == stream(RX as nat, old(self)@, incoming@).0,
            final(self).dispatched() == old(self).dispatched() + stream(
                RX as nat,
                old(self)@,
                incoming@,
            ).1,
            r is Err <==> stream(RX as nat, old(self)@, incoming@).2,
            final(self).replies().len() == final(self).dispatched().len(),
            final(self).replies().subrange(0, old(self).replies().len() as int) == old(self).replies(),
            forall|k: int|
                #![trigger final(self).replies()[k]]
                old(self).replies().len() <= k < final(self).replies().len() ==> final(self).replies()[k].len() <= TX && exists|
                    m: &[u8],
                    o: &mut [u8],
                    len: usize,
                |
                    #[trigger] call_ensures(handler, (m, o), len) && m@ == final(self).dispatched()[k]
                        && final(self).replies()[k] == final(o)@.subrange(0, len as int),
            final(self).sent() == old(self).sent() + nonempty(
                final(self).replies().subrange(
                    old(self).replies().len() as int,
                    final(self).replies().len() as int,
                ),
            ),
            forall|k: int|
                #![trigger final(self).sent()[k]]
                old(self).sent().len() <= k < final(self).sent().len() ==> final(self).sent()[k].len() > 0
                    && exists|s: &[u8]| #[trigger] call_ensures(emit, (s,), ()) && s@ == final(self).sent()[k],
    {
        let mut sink = emit;
        let ghost sent0 = self.sent@;
        let mut result: Result<(), FrameError> = Ok(());
        let mut off: usize = 0;
        let ghost s0 = self@;
        let ghost log0 = self.log@;
        let ghost rep0 = self.replies@;
        proof {
            assert(incoming@.subrange(0, 0) =~= Seq::<u8>::empty());
            assert(log0 + Seq::<Seq<u8>>::empty() =~= log0);
            assert(rep0.subrange(0, rep0.len() as int) =~= rep0);
        }
        while off < incoming.len()
            invariant
                off <= incoming@.len(),
                RX > 0,
                self.wf(),
                Self::callbacks_ok(handler, sink),
                sink == emit,
                sent0.len() <= self.sent@.len(),
                self.sent@.subrange(0, sent0.len() as int) == sent0,
                forall|k: int|
                    #![trigger self.sent@[k]]
                    sent0.len() <= k < self.sent@.len() ==> self.sent@[k].len() > 0 && exists|s: &[u8]|
                        #[trigger] call_ensures(emit, (s,), ()) && s@ == self.sent@[k],
                rep0.len() == log0.len(),
                rep0.len() <= self.replies@.len(),
                self.replies@.subrange(0, rep0.len() as int) == rep0,
                forall|k: int|
                    #![trigger self.replies@[k]]
                    rep0.len() <= k < self.replies@.len() ==> self.replies@[k].len() <= TX && exists|
                        m: &[u8],
                        o: &mut [u8],
                        len: usize,
                    |
                        #[trigger] call_ensures(handler, (m, o), len) && m@ == self.log@[k]
                            && self.replies@[k] == final(o)@.subrange(0, len as int),
                self@ == stream(RX as nat, s0, incoming@.subrange(0, off as int)).0,
                self.log@ == log0 + stream(RX as nat, s0, incoming@.subrange(0, off as int)).1,
                result is Err <==> stream(RX as nat, s0, incoming@.subrange(0, off as int)).2,
            decreases incoming.len() - off,
        {
            let p0 = self.filled;
            let space = RX - p0;
            let rest = incoming.len() - off;
            let take = if space < rest {
                space
            } else {
                rest
            };
            let ghost fv = self@;
            let ghost lg = self.log@;
            let ghost rg = self.replies@;
            let mut i: usize = 0;
            while i < take
                invariant
                    i <= take,
                    p0 + take <= RX,
                    off + take <= incoming.len(),
                    self.rx@.len() == RX,
                    self.rx@.subrange(0, p0 as int) == fv.pending,
                    forall|k: int|
                        0 <= k < i ==> self.rx@[p0 + k] == #[trigger] incoming@[off + k],
                    self.filled == p0,
                    self.resyncing == fv.resyncing,
                    self.log@ == lg,
                    self.replies@ == rg,
                    self.sent@ == nonempty(rg),
                decreases take - i,
            {
                let ghost before = self.rx@;
                assert(off + i < incoming@.len());
                self.rx[p0 + i] = incoming[off + i];
                assert(self.rx@.subrange(0, p0 as int) =~= before.subrange(0, p0 as int));
                i = i + 1;
            }
            self.filled = p0 + take;
            let ghost chunk = incoming@.subrange(off as int, (off + take) as int);
            proof {
                assert forall|k: int| 0 <= k < take implies #[trigger] self.rx@.subrange(
                    p0 as int,
                    (p0 + take) as int,
                )[k] == chunk[k] by {
                    assert(self.rx@[p0 + k] == incoming@[off + k]);
                }
                assert(self.rx@.subrange(p0 as int, (p0 + take) as int) =~= chunk);
                assert(self.rx@.subrange(0, p0 as int) =~= fv.pending);
            }
            let ghost sg = self.sent@;
            let r = self.drain(p0, &handler, &mut sink);
            proof {
                assert(self.sent@.subrange(0, sent0.len() as int) =~= sent0) by {
                    assert(self.sent@.subrange(0, sent0.len() as int) =~= self.sent@.subrange(
                        0,
                        sg.len() as int,
                    ).subrange(0, sent0.len() as int));
                }
                assert forall|k: int|
                    #![trigger self.sent@[k]]
                    sent0.len() <= k < self.sent@.len() implies self.sent@[k].len() > 0 && exists|s: &[u8]|
                        #[trigger] call_ensures(emit, (s,), ()) && s@ == self.sent@[k] by {
                    if k < sg.len() {
                        assert(self.sent@[k] == self.sent@.subrange(0, sg.len() as int)[k]);
                        assert(sg[k] == self.sent@[k]);
                    }
                }
                assert(self.replies@.subrange(0, rep0.len() as int) =~= rep0) by {
                    assert(self.replies@.subrange(0, rep0.len() as int) =~= self.replies@.subrange(
                        0,
                        rg.len() as int,
                    ).subrange(0, rep0.len() as int));
                    assert(rg.subrange(0, rep0.len() as int) == rep0);
                }
                assert forall|k: int|
                    #![trigger self.replies@[k]]
                    rep0.len() <= k < self.replies@.len() implies self.replies@[k].len() <= TX && exists|
                        m: &[u8],
                        o: &mut [u8],
                        len: usize,
                    |
                        #[trigger] call_ensures(handler, (m, o), len) && m@ == self.log@[k]
                            && self.replies@[k] == final(o)@.subrange(0, len as int) by {
                    if k < rg.len() {
                        assert(self.replies@[k] == self.replies@.subrange(0, rg.len() as int)[k]);
                        assert(rg[k] == self.replies@[k]);
                        assert(self.log@[k] == lg[k]);
                    }
                }
                let a = incoming@.subrange(0, off as int);
                law_chunking_invariant(RX as nat, s0, a, chunk);
                assert(a + chunk =~= incoming@.subrange(0, (off + take) as int));
                assert(log0 + stream(RX as nat, s0, a).1 + stream(RX as nat, stream(RX as nat, s0, a).0, chunk).1
                    =~= log0 + (stream(RX as nat, s0, a).1 + stream(RX as nat, stream(RX as nat, s0, a).0, chunk).1));
            }
            if r.is_err() {
                result = r;
            }
            off = off + take;
        }
        proof {
            assert(incoming@.subrange(0, off as int) =~= incoming@);
            self.lemma_sent_tail(rep0, old(self).sent@);
        }
        result
    }

    /// Discard buffered bytes and clear any resynchronization, for a stream
    /// that restarts.
    pub fn reset(&mut self)
        requires
            old(self).wf(),
        ensures
            final(self).wf(),
            final(self)@ == empty_state(),
            final(self).dispatched() == old(self).dispatched(),
            final(self).replies() == old(self).replies(),
            final(self).sent() == old(self).sent(),
    {
        self.filled = 0;
        self.resyncing = false;
        assert(self@.pending =~= Seq::<u8>::empty());
    }

    /// Bytes currently held for an incomplete message.
    pub fn buffered(&self) -> (n: usize)
        requires
            self.wf(),
        ensures
            n == self@.pending.len(),
    {
        self.filled
    }

    /// Scan the bytes `rx[p0..filled]` that just arrived behind the pending
    /// `rx[..p0]`, dispatching each completed message, then move what is
    /// left of an unterminated message to the front of the buffer.
    fn drain<H, E>(&mut self, p0: usize, handler: &H, emit: &mut E) -> (r: Result<(), FrameError>) where
        H: Fn(&[u8], &mut [u8]) -> usize,
        E: FnMut(&[u8]),

        requires
            p0 <= old(self).filled <= RX,
            state_ok(
                RX as nat,
                FrameState {
                    pending: old(self).rx@.subrange(0, p0 as int),
                    resyncing: old(self).resyncing,
                },
            ),
            Self::callbacks_ok(*handler, *old(emit)),
            old(self).logs_ok(),
        ensures
            final(self).wf(),
            *final(emit) == *old(emit),
            final(self).replies@.subrange(0, old(self).replies@.len() as int) == old(self).replies@,
            old(self).replies@.len() <= final(self).replies@.len(),
            forall|k: int|
                #![trigger final(self).replies@[k]]
                old(self).replies@.len() <= k < final(self).replies@.len() ==> final(self).replies@[k].len() <= TX && exists|
                    m: &[u8],
                    o: &mut [u8],
                    len: usize,
                |
                    #[trigger] call_ensures(*handler, (m, o), len) && m@ == final(self).log@[k]
                        && final(self).replies@[k] == final(o)@.subrange(0, len as int),
            old(self).sent@.len() <= final(self).sent@.len(),
            final(self).sent@.subrange(0, old(self).sent@.len() as int) == old(self).sent@,
            forall|k: int|
                #![trigger final(self).sent@[k]]
                old(self).sent@.len() <= k < final(self).sent@.len() ==> final(self).sent@[k].len() > 0
                    && exists|s: &[u8]| #[trigger] call_ensures(*old(emit), (s,), ()) && s@ == final(self).sent@[k],
            final(self)@ == stream(
                RX as nat,
                FrameState {
                    pending: old(self).rx@.subrange(0, p0 as int),
                    resyncing: old(self).resyncing,
                },
                old(self).rx@.subrange(p0 as int, old(self).filled as int),
            ).0,
            final(self).dispatched() == old(self).dispatched() + stream(
                RX as nat,
                FrameState {
                    pending: old(self).rx@.subrange(0, p0 as int),
                    resyncing: old(self).resyncing,
                },
                old(self).rx@.subrange(p0 as int, old(self).filled as int),
            ).1,
            r is Err <==> stream(
                RX as nat,
                FrameState {
                    pending: old(self).rx@.subrange(0, p0 as int),
                    resyncing: old(self).resyncing,
                },
                old(self).rx@.subrange(p0 as int, old(self).filled as int),
            ).2,
    {
        let ghost s0 = FrameState {
            pending: self.rx@.subrange(0, p0 as int),
            resyncing: self.resyncing,
        };
        let ghost rx0 = self.rx@;
        let ghost chunk = self.rx@.subrange(p0 as int, self.filled as int);
        let ghost log0 = self.log@;
        let ghost rep0 = self.replies@;
        let ghost sent0 = self.sent@;
        let filled = self.filled;
        let mut start: usize = 0;
        let mut j: usize = p0;
        let mut overflow = false;
        let ghost mut msgs: Seq<Seq<u8>> = Seq::empty();
        let ghost mut reps: Seq<Seq<u8>> = Seq::empty();
        proof {
            assert(chunk.subrange(0, 0) =~= Seq::<u8>::empty());
            assert(log0 + Seq::<Seq<u8>>::empty() =~= log0);
            assert(rep0 + Seq::<Seq<u8>>::empty() =~= rep0);
        }
        while j < filled
            invariant
                p0 <= j <= filled,
                filled == self.filled,
                filled <= RX,
                start <= j,
                self.rx@ == rx0,
                chunk == rx0.subrange(p0 as int, filled as int),
                self.resyncing ==> start == j,
                overflow ==> j == filled,
                RX > 0 ==> j - start < RX,
                RX == 0 ==> j == start,
                Self::callbacks_ok(*handler, *emit),
                *emit == *old(emit),
                stream(RX as nat, s0, chunk.subrange(0, j - p0)) == (
                FrameState { pending: rx0.subrange(start as int, j as int), resyncing: self.resyncing },
                msgs,
                overflow,
                ),
                self.log@ == log0 + msgs,
                rep0.len() == log0.len(),
                reps.len() == msgs.len(),
                self.replies@ == rep0 + reps,
                self.sent@ == nonempty(self.replies@),
                sent0.len() <= self.sent@.len(),
                self.sent@.subrange(0, sent0.len() as int) == sent0,
                forall|k: int|
                    #![trigger self.sent@[k]]
                    sent0.len() <= k < self.sent@.len() ==> self.sent@[k].len() > 0 && exists|s: &[u8]|
                        #[trigger] call_ensures(*old(emit), (s,), ()) && s@ == self.sent@[k],
                forall|k: int|
                    #![trigger reps[k]]
                    0 <= k < reps.len() ==> reps[k].len() <= TX && exists|m: &[u8], o: &mut [u8], len: usize|
                        #[trigger] call_ensures(*handler, (m, o), len) && m@ == msgs[k] && reps[k]
                            == final(o)@.subrange(0, len as int),
            decreases filled - j,
        {
            let c = self.rx[j];
            proof {
                lemma_stream_step(RX as nat, s0, chunk, j - p0);
                assert(chunk[j - p0] == c);
            }
            let ghost pend = rx0.subrange(start as int, j as int);
            let ghost start0 = start;
            if self.resyncing {
                if c == 10u8 {
                    self.resyncing = false;
                }
                start = j + 1;
            } else if c == 10u8 {
                if j > start {
                    let m = vstd::slice::slice_subrange(self.rx.as_slice(), start, j);
                    let n = handler(m, &mut self.tx);
                    proof {
                        let reply = self.tx@.subrange(0, n as int);
                        assert(m@ == pend);
                        assert(exists|mm: &[u8], o: &mut [u8], len: usize|
                            #[trigger] call_ensures(*handler, (mm, o), len) && mm@ == pend && reply
                                == final(o)@.subrange(0, len as int));
                        self.log@ = self.log@.push(pend);
                        assert(log0 + msgs.push(pend) =~= (log0 + msgs).push(pend));
                        let prev = self.replies@;
                        self.replies@ = prev.push(reply);
                        assert(rep0 + reps.push(reply) =~= (rep0 + reps).push(reply));
                        assert(self.replies@.drop_last() =~= prev);
                        assert forall|k: int|
                            #![trigger reps.push(reply)[k]]
                            0 <= k < reps.push(reply).len() implies reps.push(reply)[k].len() <= TX && exists|
                                mm: &[u8],
                                o: &mut [u8],
                                len: usize,
                            |
                                #[trigger] call_ensures(*handler, (mm, o), len) && mm@ == msgs.push(
                                    pend,
                                )[k] && reps.push(reply)[k] == final(o)@.subrange(0, len as int) by {
                            if k < reps.len() {
                                assert(reps.push(reply)[k] == reps[k]);
                                assert(msgs.push(pend)[k] == msgs[k]);
                            }
                        }
                        msgs = msgs.push(pend);
                        reps = reps.push(reply);
                    }
                    if n > 0 {
                        let out = vstd::slice::slice_subrange(self.tx.as_slice(), 0, n);
                        emit(out);
                        proof {
                            let prev = self.sent@;
                            self.sent@ = prev.push(out@);
                            assert forall|k: int|
                                #![trigger self.sent@[k]]
                                sent0.len() <= k < self.sent@.len() implies self.sent@[k].len() > 0
                                    && exists|s: &[u8]|
                                    #[trigger] call_ensures(*old(emit), (s,), ()) && s@ == self.sent@[k] by {
                                if k < prev.len() {
                                    assert(self.sent@[k] == prev[k]);
                                }
                            }
                            assert(self.sent@.subrange(0, sent0.len() as int) =~= prev.subrange(
                                0,
                                sent0.len() as int,
                            ));
                        }
                    }
                }
                start = j + 1;
            } else if j + 1 - start >= RX {
                self.resyncing = true;
                overflow = true;
                start = j + 1;
            }
            proof {
                assert(rx0.subrange(start0 as int, j + 1) =~= pend.push(c));
                assert(rx0.subrange((j + 1) as int, (j + 1) as int) =~= Seq::<u8>::empty());
            }
            j = j + 1;
        }
        let ghost rest = rx0.subrange(start as int, filled as int);
        let ghost log1 = self.log@;
        let ghost rep1 = self.replies@;
        let ghost sent1 = self.sent@;
        let ghost resync1 = self.resyncing;
        let len = filled - start;
        let mut i: usize = 0;
        while i < len
            invariant
                i <= len,
                start + len == filled,
                filled <= RX,
                self.rx@.len() == RX,
                forall|k: int| 0 <= k < i ==> self.rx@[k] == #[trigger] rest[k],
                forall|k: int| i <= k < len ==> self.rx@[start + k] == #[trigger] rest[k],
                rest == rx0.subrange(start as int, filled as int),
                rest.len() == len,
                self.log@ == log1,
                self.replies@ == rep1,
                self.sent@ == sent1,
                self.resyncing == resync1,
            decreases len - i,
        {
            let b = self.rx[start + i];
            self.rx[i] = b;
            proof {
                assert forall|k: int| i + 1 <= k < len implies self.rx@[start + k] == #[trigger] rest[k] by {
                    if start == 0 {
                    } else {
                        assert(start + k != i);
                    }
                }
            }
            i = i + 1;
        }
        self.filled = len;
        proof {
            assert(self.rx@.subrange(0, len as int) =~= rest);
            assert(chunk.subrange(0, filled - p0) =~= chunk);
            lemma_stream_ok(RX as nat, s0, chunk);
            assert(self.replies@.subrange(0, rep0.len() as int) =~= rep0);
            assert forall|k: int|
                #![trigger self.replies@[k]]
                rep0.len() <= k < self.replies@.len() implies self.replies@[k].len() <= TX && exists|
                    m: &[u8],
                    o: &mut [u8],
                    len: usize,
                |
                    #[trigger] call_ensures(*handler, (m, o), len) && m@ == self.log@[k]
                        && self.replies@[k] == final(o)@.subrange(0, len as int) by {
                let i = k - rep0.len();
                assert(self.replies@[k] == reps[i]);
                assert(self.log@[k] == msgs[i]);
            }
        }
        if overflow {
            Err(FrameError::Overflow)
        } else {
            Ok(())
        }
    }
}

impl<const RX: usize, const TX: usize> Default for Framer<RX, TX> {
    fn default() -> (f: Self)
        ensures
            f.wf(),
            f@ == empty_state(),
            f.dispatched() == Seq::<Seq<u8>>::empty(),
            f.replies() == Seq::<Seq<u8>>::empty(),
            f.sent() == Seq::<Seq<u8>>::empty(),
    {
        Self::new()
    }
}

} // verus!
