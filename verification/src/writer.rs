//! A bounded JSON writer over a caller's byte buffer, and the fixed JSON-RPC
//! reply shapes built with it.
//!
//! Every write is all-or-nothing: a write that does not fit marks the writer
//! truncated and every later write is dropped, so a caller never ships a
//! partial frame. The ghost `ideal` is what the writes would have produced
//! with unlimited room; the writer is truncated exactly when it outgrew the
//! buffer, and otherwise the buffer starts with it.

use vstd::prelude::*;
use vstd::string::StringSliceAdditionalSpecFns;

verus! {

// ---------------------------------------------------------------------------
// Escaping and number formatting
// ---------------------------------------------------------------------------

/// Lower-case hex digit for a nibble.
pub open spec fn hex_digit(n: u8) -> u8 {
    if n < 10 {
        (48 + n) as u8
    } else {
        (97 + n - 10) as u8
    }
}

/// Bytes JSON requires to be escaped inside a string.
pub open spec fn needs_escape(c: u8) -> bool {
    c == 34u8 || c == 92u8 || c < 32u8
}

/// The escaped form of one byte.
pub open spec fn esc_byte(c: u8) -> Seq<u8> {
    if c == 34u8 {
        seq![92u8, 34u8]
    } else if c == 92u8 {
        seq![92u8, 92u8]
    } else if c == 10u8 {
        seq![92u8, 110u8]
    } else if c == 13u8 {
        seq![92u8, 114u8]
    } else if c == 9u8 {
        seq![92u8, 116u8]
    } else if c == 8u8 {
        seq![92u8, 98u8]
    } else if c == 12u8 {
        seq![92u8, 102u8]
    } else if c < 32u8 {
        seq![92u8, 117u8, 48u8, 48u8, hex_digit(c / 16), hex_digit(c % 16)]
    } else {
        seq![c]
    }
}

/// The JSON string-content encoding of `s`, byte by byte.
pub open spec fn json_escape(s: Seq<u8>) -> Seq<u8>
    decreases s.len(),
{
    if s.len() == 0 {
        seq![]
    } else {
        json_escape(s.drop_last()) + esc_byte(s.last())
    }
}

pub proof fn lemma_json_escape_append(a: Seq<u8>, b: Seq<u8>)
    ensures
        json_escape(a + b) == json_escape(a) + json_escape(b),
    decreases b.len(),
{
    if b.len() == 0 {
        assert(a + b =~= a);
        assert(json_escape(b) =~= Seq::<u8>::empty());
        assert(json_escape(a) + json_escape(b) =~= json_escape(a));
    } else {
        lemma_json_escape_append(a, b.drop_last());
        assert((a + b).drop_last() =~= a + b.drop_last());
        assert((a + b).last() == b.last());
        assert(json_escape(a) + json_escape(b) =~= json_escape(a) + json_escape(b.drop_last())
            + esc_byte(b.last()));
    }
}

/// A run of bytes that need no escaping is copied as is.
pub proof fn lemma_json_escape_plain(s: Seq<u8>)
    requires
        forall|i: int| 0 <= i < s.len() ==> !needs_escape(#[trigger] s[i]),
    ensures
        json_escape(s) == s,
    decreases s.len(),
{
    if s.len() > 0 {
        lemma_json_escape_plain(s.drop_last());
        assert(!needs_escape(s[s.len() - 1]));
        assert(json_escape(s) =~= s);
    }
}

pub proof fn lemma_json_escape_one(c: u8)
    ensures
        json_escape(seq![c]) == esc_byte(c),
{
    assert(seq![c].drop_last() =~= Seq::<u8>::empty());
    assert(json_escape(Seq::<u8>::empty()) =~= Seq::<u8>::empty());
}

/// Decimal digits of `n`, most significant first, no leading zeros.
pub open spec fn dec(n: nat) -> Seq<u8>
    decreases n,
{
    if n < 10 {
        seq![(48 + n) as u8]
    } else {
        dec(n / 10) + seq![(48 + n % 10) as u8]
    }
}

/// Decimal text of a signed integer.
pub open spec fn int_text(n: int) -> Seq<u8> {
    if n < 0 {
        seq![45u8] + dec((-n) as nat)
    } else {
        dec(n as nat)
    }
}

pub open spec fn pow10(k: nat) -> nat
    decreases k,
{
    if k == 0 {
        1
    } else {
        10 * pow10((k - 1) as nat)
    }
}

proof fn lemma_dec_len(n: nat, k: nat)
    requires
        1 <= k,
        n < pow10(k),
    ensures
        1 <= dec(n).len() <= k,
    decreases k,
{
    if n >= 10 {
        assert(k >= 2) by {
            if k == 1 {
                assert(pow10(1) == 10) by {
                    reveal_with_fuel(pow10, 2);
                }
            }
        }
        assert(n / 10 < pow10((k - 1) as nat));
        lemma_dec_len(n / 10, (k - 1) as nat);
    }
}

fn hex_nibble(n: u8) -> (r: u8)
    requires
        n < 16,
    ensures
        r == hex_digit(n),
{
    if n < 10 {
        48u8 + n
    } else {
        97u8 + (n - 10)
    }
}

/// Write the decimal digits of `n` at the end of `buf`; returns where they
/// start.
pub(crate) fn fmt_u64(n: u64, buf: &mut [u8; 20]) -> (start: usize)
    ensures
        start < 20,
        final(buf)@.subrange(start as int, 20) == dec(n as nat),
{
    if n == 0 {
        buf[19] = 48u8;
        assert(final(buf)@.subrange(19, 20) =~= seq![48u8]);
        return 19;
    }
    assert(pow10(20) == 100000000000000000000nat) by {
        reveal_with_fuel(pow10, 21);
    }
    proof {
        lemma_dec_len(n as nat, 20);
    }
    let mut pos: usize = 20;
    let mut v: u64 = n;
    while v > 0
        invariant
            pos <= 20,
            buf@.len() == 20,
            v > 0 ==> dec(n as nat) == dec(v as nat) + buf@.subrange(pos as int, 20),
            v == 0 ==> dec(n as nat) == buf@.subrange(pos as int, 20) && pos < 20,
            dec(n as nat).len() <= 20,
        decreases v,
    {
        let ghost old_buf = buf@;
        let ghost old_pos = pos;
        assert(dec(v as nat).len() >= 1) by {
            reveal_with_fuel(dec, 1);
            if v >= 10 {
                assert(dec(v as nat) == dec((v / 10) as nat) + seq![(48 + v % 10) as u8]);
            }
        }
        assert(pos >= 1);
        pos = pos - 1;
        let d = (v % 10) as u8;
        buf[pos] = 48u8 + d;
        let ghost nv = v / 10;
        assert(buf@.subrange(pos as int, 20) =~= seq![(48 + v % 10) as u8] + old_buf.subrange(
            old_pos as int,
            20,
        ));
        if v >= 10 {
            assert(dec(v as nat) == dec(nv as nat) + seq![(48 + v % 10) as u8]);
            assert(dec(n as nat) =~= dec(nv as nat) + buf@.subrange(pos as int, 20));
        } else {
            assert(dec(v as nat) == seq![(48 + v) as u8]);
            assert(dec(n as nat) =~= buf@.subrange(pos as int, 20));
        }
        v = v / 10;
    }
    pos
}

// ---------------------------------------------------------------------------
// Writer
// ---------------------------------------------------------------------------

/// Bounded writer state; the bytes live in a buffer passed to each write.
pub struct Writer {
    pos: usize,
    truncated: bool,
    ideal: Ghost<Seq<u8>>,
}

impl Writer {
    /// Everything written so far, as if the buffer had no bound.
    pub closed spec fn ideal(&self) -> Seq<u8> {
        self.ideal@
    }

    pub closed spec fn spos(&self) -> nat {
        self.pos as nat
    }

    pub closed spec fn struncated(&self) -> bool {
        self.truncated
    }

    /// The writer's state agrees with `buf`: truncated exactly when the ideal
    /// output outgrew the buffer, otherwise the buffer starts with it. Either
    /// way the bytes written are a prefix of the ideal output.
    pub open spec fn wf(&self, buf: Seq<u8>) -> bool {
        &&& self.spos() <= buf.len()
        &&& self.spos() <= self.ideal().len()
        &&& buf.subrange(0, self.spos() as int) == self.ideal().subrange(0, self.spos() as int)
        &&& (self.struncated() <==> self.ideal().len() > buf.len())
        &&& (!self.struncated() ==> self.spos() == self.ideal().len() && buf.subrange(
            0,
            self.spos() as int,
        ) == self.ideal())
    }

    /// Once truncated, a write changes neither the buffer nor the position.
    pub open spec fn kept_after_truncation(&self, old_w: Writer, buf: Seq<u8>, old_buf: Seq<u8>) -> bool {
        old_w.struncated() ==> buf == old_buf && self.spos() == old_w.spos()
    }

    pub fn new() -> (w: Self)
        ensures
            w.ideal() == Seq::<u8>::empty(),
            forall|buf: Seq<u8>| w.wf(buf),
    {
        let w = Writer { pos: 0, truncated: false, ideal: Ghost(Seq::empty()) };
        assert forall|buf: Seq<u8>| w.wf(buf) by {
            assert(buf.subrange(0, 0) =~= Seq::<u8>::empty());
            assert(w.ideal().subrange(0, 0) =~= Seq::<u8>::empty());
        }
        w
    }

    /// Bytes written so far.
    pub fn pos(&self) -> (r: usize)
        ensures
            r == self.spos(),
    {
        self.pos
    }

    /// Whether a write has been dropped for lack of room.
    pub fn truncated(&self) -> (r: bool)
        ensures
            r == self.struncated(),
    {
        self.truncated
    }

    /// Length of a complete frame, or 0 when it did not fit.
    pub fn finish(&self) -> (n: usize)
        ensures
            n == (if self.struncated() { 0 } else { self.spos() }),
    {
        if self.truncated {
            0
        } else {
            self.pos
        }
    }

    /// Append `bytes`, or mark the writer truncated if they do not fit. A
    /// write that does not fit, or comes after one that did not, writes
    /// nothing.
    pub fn push(&mut self, buf: &mut [u8], bytes: &[u8])
        requires
            old(self).wf(old(buf)@),
        ensures
            final(self).wf(final(buf)@),
            final(buf)@.len() == old(buf)@.len(),
            final(self).ideal() == old(self).ideal() + bytes@,
            final(self).struncated() ==> final(buf)@ == old(buf)@ && final(self).spos() == old(self).spos(),
    {
        let ghost ideal0 = self.ideal@;
        if self.truncated {
            self.ideal = Ghost(ideal0 + bytes@);
            assert(self.ideal@.subrange(0, self.pos as int) =~= ideal0.subrange(0, self.pos as int));
            return;
        }
        if bytes.len() > buf.len() - self.pos {
            self.truncated = true;
            self.ideal = Ghost(ideal0 + bytes@);
            assert(self.ideal@.subrange(0, self.pos as int) =~= ideal0.subrange(0, self.pos as int));
            return;
        }
        let start = self.pos;
        let mut i: usize = 0;
        while i < bytes.len()
            invariant
                start + bytes@.len() <= buf.len(),
                buf@.len() == old(buf)@.len(),
                i <= bytes@.len(),
                buf@.subrange(0, start as int) == ideal0.subrange(0, start as int),
                start == ideal0.len(),
                buf@.subrange(start as int, start + i) == bytes@.subrange(0, i as int),
            decreases bytes.len() - i,
        {
            let ghost before = buf@;
            buf[start + i] = bytes[i];
            assert(buf@.subrange(0, start as int) =~= before.subrange(0, start as int));
            assert(buf@.subrange(start as int, start + i + 1) =~= bytes@.subrange(0, i + 1));
            i = i + 1;
        }
        self.pos = start + bytes.len();
        self.ideal = Ghost(ideal0 + bytes@);
        assert(buf@.subrange(0, self.pos as int) =~= ideal0 + bytes@) by {
            assert(bytes@.subrange(0, bytes@.len() as int) =~= bytes@);
            assert(ideal0.subrange(0, start as int) =~= ideal0);
            assert(buf@.subrange(0, self.pos as int) =~= buf@.subrange(0, start as int)
                + buf@.subrange(start as int, self.pos as int));
        }
        assert(self.ideal@.subrange(0, self.pos as int) =~= self.ideal@);
    }

    /// Append the UTF-8 bytes of `s`.
    pub fn s(&mut self, buf: &mut [u8], s: &str)
        requires
            old(self).wf(old(buf)@),
        ensures
            final(self).wf(final(buf)@),
            final(buf)@.len() == old(buf)@.len(),
            final(self).ideal() == old(self).ideal() + s.spec_bytes(),
            final(self).kept_after_truncation(*old(self), final(buf)@, old(buf)@),
    {
        self.push(buf, s.as_bytes());
    }

    /// Append a newline.
    pub fn nl(&mut self, buf: &mut [u8])
        requires
            old(self).wf(old(buf)@),
        ensures
            final(self).wf(final(buf)@),
            final(buf)@.len() == old(buf)@.len(),
            final(self).ideal() == old(self).ideal() + seq![10u8],
            final(self).kept_after_truncation(*old(self), final(buf)@, old(buf)@),
    {
        let b: [u8; 1] = [10u8];
        assert(b@ == seq![10u8]);
        self.push(buf, b.as_slice());
    }

    /// Append the decimal digits of `n`.
    pub fn u(&mut self, buf: &mut [u8], n: u64)
        requires
            old(self).wf(old(buf)@),
        ensures
            final(self).wf(final(buf)@),
            final(buf)@.len() == old(buf)@.len(),
            final(self).ideal() == old(self).ideal() + dec(n as nat),
            final(self).kept_after_truncation(*old(self), final(buf)@, old(buf)@),
    {
        let mut tmp: [u8; 20] = [0u8; 20];
        let start = fmt_u64(n, &mut tmp);
        let digits = vstd::slice::slice_subrange(tmp.as_slice(), start, 20);
        self.push(buf, digits);
    }

    /// Append the decimal text of `n`, with a leading `-` when negative.
    pub fn i(&mut self, buf: &mut [u8], n: i32)
        requires
            old(self).wf(old(buf)@),
        ensures
            final(self).wf(final(buf)@),
            final(buf)@.len() == old(buf)@.len(),
            final(self).ideal() == old(self).ideal() + int_text(n as int),
            final(self).kept_after_truncation(*old(self), final(buf)@, old(buf)@),
    {
        if n < 0 {
            let m: u64 = (0i64 - n as i64) as u64;
            let b: [u8; 1] = [45u8];
            assert(b@ == seq![45u8]);
            self.push(buf, b.as_slice());
            self.u(buf, m);
            assert(old(self).ideal() + seq![45u8] + dec(m as nat) =~= old(self).ideal() + int_text(
                n as int,
            ));
        } else {
            self.u(buf, n as u64);
        }
    }

    /// Append `s` escaped as JSON string content.
    pub fn esc(&mut self, buf: &mut [u8], s: &str)
        requires
            old(self).wf(old(buf)@),
        ensures
            final(self).wf(final(buf)@),
            final(buf)@.len() == old(buf)@.len(),
            final(self).ideal() == old(self).ideal() + json_escape(s.spec_bytes()),
            final(self).kept_after_truncation(*old(self), final(buf)@, old(buf)@),
            !old(self).struncated() ==> exists|j: int|
                0 <= j <= s.spec_bytes().len() && final(self).spos() == old(self).spos() + (
                #[trigger] json_escape(s.spec_bytes().subrange(0, j))).len(),
    {
        let bytes = s.as_bytes();
        self.esc_bytes(buf, bytes);
    }


    /// Append the escape sequence for one byte that needs escaping.
    fn push_escaped(&mut self, buf: &mut [u8], c: u8)
        requires
            old(self).wf(old(buf)@),
            needs_escape(c),
        ensures
            final(self).wf(final(buf)@),
            final(buf)@.len() == old(buf)@.len(),
            final(self).ideal() == old(self).ideal() + esc_byte(c),
            final(self).kept_after_truncation(*old(self), final(buf)@, old(buf)@),
            final(self).struncated() ==> final(buf)@ == old(buf)@ && final(self).spos() == old(self).spos(),
    {
        let short: u8 = if c == 34u8 {
            34u8
        } else if c == 92u8 {
            92u8
        } else if c == 10u8 {
            110u8
        } else if c == 13u8 {
            114u8
        } else if c == 9u8 {
            116u8
        } else if c == 8u8 {
            98u8
        } else if c == 12u8 {
            102u8
        } else {
            0u8
        };
        if short != 0 {
            let e: [u8; 2] = [92u8, short];
            assert(e@ =~= esc_byte(c));
            self.push(buf, e.as_slice());
        } else {
            let e: [u8; 6] = [92u8, 117u8, 48u8, 48u8, hex_nibble(c / 16), hex_nibble(c % 16)];
            assert(e@ =~= esc_byte(c));
            self.push(buf, e.as_slice());
        }
    }

    /// Append `bytes` escaped as JSON string content. Runs of plain bytes are
    /// copied in one write; each escape sequence is written whole or not at all.
    pub fn esc_bytes(&mut self, buf: &mut [u8], bytes: &[u8])
        requires
            old(self).wf(old(buf)@),
        ensures
            final(self).wf(final(buf)@),
            final(buf)@.len() == old(buf)@.len(),
            final(self).ideal() == old(self).ideal() + json_escape(bytes@),
            final(self).kept_after_truncation(*old(self), final(buf)@, old(buf)@),
            !old(self).struncated() ==> exists|j: int|
                0 <= j <= bytes@.len() && final(self).spos() == old(self).spos() + (#[trigger] json_escape(
                    bytes@.subrange(0, j),
                )).len(),
    {
        let ghost ideal0 = self.ideal@;
        let ghost mut jw: int = 0;
        let mut i: usize = 0;
        assert(bytes@.subrange(0, 0) =~= Seq::<u8>::empty());
        proof {
            lemma_json_escape_append(Seq::empty(), Seq::empty());
            assert(Seq::<u8>::empty() + Seq::<u8>::empty() =~= Seq::<u8>::empty());
        }
        while i < bytes.len()
            invariant
                i <= bytes@.len(),
                self.wf(buf@),
                buf@.len() == old(buf)@.len(),
                ideal0 == old(self).ideal(),
                self.ideal() == ideal0 + json_escape(bytes@.subrange(0, i as int)),
                self.kept_after_truncation(*old(self), buf@, old(buf)@),
                old(self).struncated() ==> self.struncated(),
                !old(self).struncated() ==> old(self).spos() == ideal0.len(),
                !old(self).struncated() ==> 0 <= jw <= i && self.spos() == old(self).spos() + json_escape(
                    bytes@.subrange(0, jw),
                ).len(),
            decreases bytes.len() - i,
        {
            let mut end = i;
            while end < bytes.len() && !(bytes[end] == 34u8 || bytes[end] == 92u8 || bytes[end]
                < 32u8)
                invariant
                    i <= end <= bytes@.len(),
                    forall|j: int| i <= j < end ==> !needs_escape(#[trigger] bytes@[j]),
                decreases bytes.len() - end,
            {
                end = end + 1;
            }
            let run = vstd::slice::slice_subrange(bytes, i, end);
            proof {
                lemma_json_escape_plain(run@);
                lemma_json_escape_append(bytes@.subrange(0, i as int), run@);
                assert(bytes@.subrange(0, i as int) + run@ =~= bytes@.subrange(0, end as int));
            }
            if end > i {
                self.push(buf, run);
            } else {
                assert(run@ =~= Seq::<u8>::empty());
                assert(self.ideal() + run@ =~= self.ideal());
            }
            assert(self.ideal() =~= ideal0 + json_escape(bytes@.subrange(0, end as int)));
            proof {
                if !self.truncated {
                    jw = end as int;
                }
            }
            if end == bytes.len() {
                assert(bytes@.subrange(0, end as int) =~= bytes@);
                return;
            }
            let c = bytes[end];
            proof {
                lemma_json_escape_one(c);
                lemma_json_escape_append(bytes@.subrange(0, end as int), seq![c]);
                assert(bytes@.subrange(0, end as int) + seq![c] =~= bytes@.subrange(
                    0,
                    end + 1,
                ));
            }
            self.push_escaped(buf, c);
            assert(self.ideal() =~= ideal0 + json_escape(bytes@.subrange(0, end + 1)));
            proof {
                if !self.truncated {
                    jw = end + 1;
                }
            }
            i = end + 1;
        }
        assert(bytes@.subrange(0, i as int) =~= bytes@);
    }
}

} // verus!
