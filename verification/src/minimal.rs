//! The single-file MCP runtime: providers hand out owned `String` tools and
//! results, requests are picked apart by plain text search, and every reply
//! is one `String`. Small and easy to read; the allocation-free runtime is
//! [`crate::runtime`].

use vstd::prelude::*;
use vstd::string::StringSliceAdditionalSpecFns;
use vstd::std_specs::iter::IteratorSpec;
use vstd::utf8::{valid_utf8, encode_utf8, decode_utf8};
use std::collections::HashMap;
use std::string::String;
use std::sync::Arc;
use vstd::std_specs::hash::obeys_key_model;
use crate::text::{lemma_boundary_after_ascii, str_from_utf8};
use crate::writer::{dec, fmt_u64};
use vstd::utf8::{length_of_first_scalar, pop_first_scalar, valid_first_scalar};

verus! {

broadcast use vstd::string::axiom_spec_iter, vstd::string::next_postcondition;

// ---------------------------------------------------------------------------
// Text search
// ---------------------------------------------------------------------------

/// The first index at or after `i` where `n` occurs in `h`.
pub open spec fn find_from(h: Seq<u8>, n: Seq<u8>, i: int) -> Option<int>
    decreases h.len() + 1 - i,
{
    if i < 0 || i + n.len() > h.len() {
        None
    } else if h.subrange(i, i + n.len()) == n {
        Some(i)
    } else {
        find_from(h, n, i + 1)
    }
}

proof fn lemma_find_from(h: Seq<u8>, n: Seq<u8>, i: int)
    requires
        0 <= i,
    ensures
        find_from(h, n, i) matches Some(k) ==> i <= k && k + n.len() <= h.len() && h.subrange(
            k,
            k + n.len(),
        ) == n,
    decreases h.len() + 1 - i,
{
    if i + n.len() <= h.len() && h.subrange(i, i + n.len()) != n {
        lemma_find_from(h, n, i + 1);
    }
}

/// Where `n` first occurs in `h` at or after `from`.
fn find_bytes(h: &[u8], n: &[u8], from: usize) -> (r: Option<usize>)
    ensures
        match r {
            Some(k) => find_from(h@, n@, from as int) == Some(k as int),
            None => find_from(h@, n@, from as int) is None,
        },
{
    if n.len() == 0 {
        if from <= h.len() {
            assert(h@.subrange(from as int, from as int) =~= n@);
            return Some(from);
        }
        return None;
    }
    let mut i = from;
    while i < h.len() && n.len() <= h.len() - i
        invariant
            from <= i,
            n@.len() > 0,
            find_from(h@, n@, from as int) == find_from(h@, n@, i as int),
        decreases h.len() - i,
    {
        let w = vstd::slice::slice_subrange(h, i, i + n.len());
        if crate::json::bytes_eq(w, n) {
            return Some(i);
        }
        i = i + 1;
    }
    None
}

/// `s` from byte `at` on; `at` must follow an ASCII byte.
fn tail_after_ascii(s: &str, at: usize) -> (r: &str)
    requires
        0 < at <= s.spec_bytes().len(),
        s.spec_bytes()[at - 1] < 128,
    ensures
        r.spec_bytes() == s.spec_bytes().subrange(at as int, s.spec_bytes().len() as int),
{
    proof {
        vstd::utf8::encode_utf8_valid_utf8(s@);
        lemma_boundary_after_ascii(s.spec_bytes(), at as int);
    }
    let (_, t) = s.split_at(at);
    t
}

pub open spec fn quote() -> Seq<u8> {
    seq![34u8]
}

/// The text between the first two double quotes after `key`'s first
/// occurrence in `j`.
pub open spec fn extract_string_spec(j: Seq<u8>, key: Seq<u8>) -> Option<Seq<u8>> {
    match find_from(j, key, 0) {
        None => None,
        Some(i) => match find_from(j, quote(), i + key.len()) {
            None => None,
            Some(q) => match find_from(j, quote(), q + 1) {
                None => None,
                Some(e) => Some(j.subrange(q + 1, e)),
            },
        },
    }
}

/// The text of a string value following `key` (unescaped bytes between the
/// next two quotes).
fn extract_string(json: &str, key: &str) -> (r: Option<String>)
    requires
        key.spec_bytes().len() > 0,
        forall|k: int| 0 <= k < key.spec_bytes().len() ==> #[trigger] key.spec_bytes()[k] < 128,
    ensures
        match r {
            Some(s) => extract_string_spec(json.spec_bytes(), key.spec_bytes()) == Some(
                encode_utf8(s@),
            ),
            None => extract_string_spec(json.spec_bytes(), key.spec_bytes()) is None,
        },
{
    let b = json.as_bytes();
    let q: [u8; 1] = [34u8];
    assert(q@ == quote());
    let kb = key.as_bytes();
    let blen = b.len();
    let i = match find_bytes(b, kb, 0) {
        Some(i) => i,
        None => {
            return None;
        },
    };
    proof {
        lemma_find_from(b@, key.spec_bytes(), 0);
        assert(b@[i + key.spec_bytes().len() - 1] == key.spec_bytes()[key.spec_bytes().len() - 1]);
        assert(i + kb@.len() <= blen);
    }
    let start = i + kb.len();
    let open = match find_bytes(b, q.as_slice(), start) {
        Some(k) => k,
        None => {
            return None;
        },
    };
    proof {
        lemma_find_from(b@, quote(), start as int);
        assert(b@[open as int] == 34u8) by {
            assert(b@.subrange(open as int, open + 1) == quote());
        }
        assert(open + 1 <= blen);
    }
    let close = match find_bytes(b, q.as_slice(), open + 1) {
        Some(k) => k,
        None => {
            return None;
        },
    };
    proof {
        lemma_find_from(b@, quote(), open + 1);
        assert(b@[close as int] == 34u8) by {
            assert(b@.subrange(close as int, close + 1) == quote());
        }
        assert(b@[close + 1 - 1] == 34u8);
    }
    let after_open = tail_after_ascii(json, open + 1);
    let len = close - (open + 1);
    proof {
        vstd::utf8::encode_utf8_valid_utf8(json@);
    }
    let inner = head_of(after_open, len, Ghost(b@), open + 1);
    Some(inner.to_owned())
}

/// The first `len` bytes of `s`, which is `b` from `at` on, where `b[at + len]`
/// is ASCII.
fn head_of<'a>(s: &'a str, len: usize, Ghost(b): Ghost<Seq<u8>>, at: usize) -> (r: &'a str)
    requires
        valid_utf8(b),
        s.spec_bytes() == b.subrange(at as int, b.len() as int),
        at + len < b.len(),
        b[at + len] < 128,
    ensures
        r.spec_bytes() == b.subrange(at as int, at + len),
{
    proof {
        vstd::utf8::encode_utf8_valid_utf8(s@);
        let sb = s.spec_bytes();
        assert(sb[len as int] == b[at + len]);
        vstd::utf8::is_char_boundary_iff_not_is_continuation_byte(sb, len as int);
    }
    let (h, _) = s.split_at(len);
    proof {
        assert(h.spec_bytes() =~= b.subrange(at as int, at + len));
    }
    h
}

// ---------------------------------------------------------------------------
// Numbers
// ---------------------------------------------------------------------------

/// Whether `c` has the Unicode `White_Space` property (what
/// `char::is_whitespace` and `str::trim_start` go by).
pub open spec fn white_space(c: char) -> bool {
    ||| '\u{9}' <= c <= '\u{d}'
    ||| c == ' '
    ||| c == '\u{85}'
    ||| c == '\u{a0}'
    ||| c == '\u{1680}'
    ||| '\u{2000}' <= c <= '\u{200a}'
    ||| c == '\u{2028}'
    ||| c == '\u{2029}'
    ||| c == '\u{202f}'
    ||| c == '\u{205f}'
    ||| c == '\u{3000}'
}

/// Whether `c` is in one of Unicode's number categories (what
/// `char::is_numeric` answers).
pub uninterp spec fn numeric(c: char) -> bool;

/// Whether `c` is Unicode white space.
fn is_white_space(c: char) -> (r: bool)
    ensures
        r == white_space(c),
{
    match c {
        '\u{9}'..='\u{d}' | ' ' | '\u{85}' | '\u{a0}' | '\u{1680}' => true,
        '\u{2000}'..='\u{200a}' | '\u{2028}' | '\u{2029}' | '\u{202f}' | '\u{205f}' => true,
        '\u{3000}' => true,
        _ => false,
    }
}

/// Calls `char::is_numeric`; its result depends on `c` alone and is named
/// [`numeric`].
#[verifier::external_body]
fn char_is_numeric(c: char) -> (r: bool)
    ensures
        r == numeric(c),
{
    c.is_numeric()
}

/// The first index at or after `i` whose char is not white space.
pub open spec fn white_end(cs: Seq<char>, i: int) -> int
    decreases cs.len() - i,
{
    if i < 0 || i >= cs.len() || !white_space(cs[i]) {
        i
    } else {
        white_end(cs, i + 1)
    }
}

/// The first index at or after `i` whose char is not numeric.
pub open spec fn numeric_end(cs: Seq<char>, i: int) -> int
    decreases cs.len() - i,
{
    if i < 0 || i >= cs.len() || !numeric(cs[i]) {
        i
    } else {
        numeric_end(cs, i + 1)
    }
}

pub open spec fn ascii_digit(c: char) -> bool {
    '0' <= c <= '9'
}

/// The decimal value of a run of ASCII digits.
pub open spec fn digits_value(cs: Seq<char>) -> nat
    decreases cs.len(),
{
    if cs.len() == 0 {
        0
    } else {
        digits_value(cs.drop_last()) * 10 + (cs.last() as int - 48) as nat
    }
}

/// `u64::from_str` on a run of numeric chars: one or more ASCII digits whose
/// value fits.
pub open spec fn parse_run(run: Seq<char>) -> Option<u64> {
    if run.len() > 0 && (forall|k: int| 0 <= k < run.len() ==> ascii_digit(#[trigger] run[k]))
        && digits_value(run) <= u64::MAX {
        Some(digits_value(run) as u64)
    } else {
        None
    }
}

/// The number at the start of `cs`: leading white space skipped, then the
/// longest run of numeric chars parsed as a `u64`.
pub open spec fn number_value(cs: Seq<char>) -> Option<u64> {
    let w = white_end(cs, 0);
    parse_run(cs.subrange(w, numeric_end(cs, w)))
}

/// The number following `key`'s first occurrence in `j`.
pub open spec fn extract_number_spec(j: Seq<u8>, key: Seq<u8>) -> Option<u64> {
    match find_from(j, key, 0) {
        None => None,
        Some(i) => number_value(decode_utf8(j.subrange(i + key.len(), j.len() as int))),
    }
}

proof fn lemma_white_end(cs: Seq<char>, i: int)
    requires
        0 <= i <= cs.len(),
    ensures
        i <= white_end(cs, i) <= cs.len(),
        forall|k: int| i <= k < white_end(cs, i) ==> white_space(#[trigger] cs[k]),
        white_end(cs, i) < cs.len() ==> !white_space(cs[white_end(cs, i)]),
    decreases cs.len() - i,
{
    if i < cs.len() && white_space(cs[i]) {
        lemma_white_end(cs, i + 1);
    }
}

proof fn lemma_numeric_end(cs: Seq<char>, i: int)
    requires
        0 <= i <= cs.len(),
    ensures
        i <= numeric_end(cs, i) <= cs.len(),
        forall|k: int| i <= k < numeric_end(cs, i) ==> numeric(#[trigger] cs[k]),
        numeric_end(cs, i) < cs.len() ==> !numeric(cs[numeric_end(cs, i)]),
    decreases cs.len() - i,
{
    if i < cs.len() && numeric(cs[i]) {
        lemma_numeric_end(cs, i + 1);
    }
}

/// The end of a run is past every numeric char that follows its start
/// without a gap.
proof fn lemma_numeric_end_past(cs: Seq<char>, i: int, m: int)
    requires
        0 <= i <= m < cs.len(),
        forall|k: int| i <= k <= m ==> numeric(#[trigger] cs[k]),
    ensures
        numeric_end(cs, i) > m,
    decreases m - i,
{
    if i < m {
        lemma_numeric_end_past(cs, i + 1, m);
    } else {
        lemma_numeric_end(cs, m + 1);
    }
}

/// Within one run of digits, a longer prefix is worth at least as much.
proof fn lemma_digits_value_mono(cs: Seq<char>, m: int)
    requires
        0 <= m <= cs.len(),
        forall|k: int| 0 <= k < cs.len() ==> ascii_digit(#[trigger] cs[k]),
    ensures
        digits_value(cs.subrange(0, m)) <= digits_value(cs),
    decreases cs.len() - m,
{
    if m < cs.len() {
        let d = cs.drop_last();
        assert forall|k: int| 0 <= k < d.len() implies ascii_digit(#[trigger] d[k]) by {
            assert(d[k] == cs[k]);
        }
        lemma_digits_value_mono(d, m);
        assert(d.subrange(0, m) =~= cs.subrange(0, m));
    } else {
        assert(cs.subrange(0, m) =~= cs);
    }
}

/// The number at the start of `s`, per [`number_value`].
fn number_of(s: &str) -> (r: Option<u64>)
    ensures
        r == number_value(s@),
{
    let ghost cs = s@;
    let mut it = s.chars();
    let ghost mut k: int = 0;
    let ghost mut ws: int = 0;
    let mut started = false;
    let mut any_digit = false;
    let mut acc: u64 = 0;
    proof {
        lemma_white_end(cs, 0);
    }
    loop
        invariant
            0 <= k <= cs.len(),
            cs == s@,
            it.remaining() == cs.skip(k),
            it.obeys_prophetic_iter_laws(),
            !started ==> forall|j: int| 0 <= j < k ==> white_space(#[trigger] cs[j]),
            !started ==> white_end(cs, 0) >= k,
            started ==> ws == white_end(cs, 0) && ws <= k,
            started ==> forall|j: int| ws <= j < k ==> numeric(#[trigger] cs[j]) && ascii_digit(cs[j]),
            started ==> acc == digits_value(cs.subrange(ws, k)),
            started ==> (any_digit <==> ws < k),
            !started ==> !any_digit && acc == 0,
            0 <= white_end(cs, 0) <= cs.len(),
            forall|j: int| 0 <= j < white_end(cs, 0) ==> white_space(#[trigger] cs[j]),
            white_end(cs, 0) < cs.len() ==> !white_space(cs[white_end(cs, 0)]),
        decreases cs.len() - k,
    {
        let next = it.next();
        match next {
            None => {
                proof {
                    assert(k == cs.len());
                }
                if !started {
                    assert(cs.subrange(white_end(cs, 0), numeric_end(cs, white_end(cs, 0))).len() == 0);
                    return None;
                }
                proof {
                    lemma_numeric_end(cs, ws);
                    if ws < cs.len() {
                        lemma_numeric_end_past(cs, ws, cs.len() - 1);
                    }
                    assert(numeric_end(cs, ws) == cs.len());
                    let run = cs.subrange(ws, k);
                    assert forall|j: int| 0 <= j < run.len() implies ascii_digit(#[trigger] run[j]) by {
                        assert(run[j] == cs[ws + j]);
                    }
                }
                if !any_digit {
                    return None;
                }
                return Some(acc);
            },
            Some(c) => {
                proof {
                    assert(c == cs[k]);
                }
                if !started {
                    if is_white_space(c) {
                        proof {
                            k = k + 1;
                        }
                        continue;
                    }
                    started = true;
                    proof {
                        ws = k;
                        assert(white_end(cs, 0) == k);
                        assert(cs.subrange(ws, k) =~= Seq::<char>::empty());
                        assert(digits_value(cs.subrange(ws, k)) == 0);
                    }
                }
                if !char_is_numeric(c) {
                    proof {
                        lemma_numeric_end(cs, ws);
                        if ws < k {
                            lemma_numeric_end_past(cs, ws, k - 1);
                        }
                        assert(numeric_end(cs, ws) == k);
                        let run = cs.subrange(ws, k);
                        assert forall|j: int| 0 <= j < run.len() implies ascii_digit(#[trigger] run[j]) by {
                            assert(run[j] == cs[ws + j]);
                        }
                        if any_digit {
                            assert(run.len() > 0);
                            assert(digits_value(run) == acc);
                            assert(digits_value(run) <= u64::MAX);
                            assert(parse_run(run) == Some(acc));
                        } else {
                            assert(run.len() == 0);
                        }
                    }
                    if !any_digit {
                        return None;
                    }
                    return Some(acc);
                }
                proof {
                    lemma_numeric_end_past(cs, ws, k);
                    lemma_numeric_end(cs, ws);
                }
                if !('0' <= c && c <= '9') {
                    proof {
                        let run = cs.subrange(ws, numeric_end(cs, ws));
                        assert(run[k - ws] == c);
                    }
                    return None;
                }
                let d = (c as u32 - 48) as u64;
                let grown = match acc.checked_mul(10) {
                    Some(x) => x.checked_add(d),
                    None => None,
                };
                let ghost pre = cs.subrange(ws, k + 1);
                proof {
                    assert(acc == digits_value(cs.subrange(ws, k)));
                    assert(d as int == c as int - 48);
                    assert(pre.drop_last() =~= cs.subrange(ws, k));
                    assert(pre.last() == c);
                }
                match grown {
                    Some(v) => {
                        acc = v;
                        any_digit = true;
                        proof {
                            k = k + 1;
                        }
                    },
                    None => {
                        proof {
                            assert(digits_value(pre) == acc * 10 + d);
                            assert(digits_value(pre) > u64::MAX);
                            let run = cs.subrange(ws, numeric_end(cs, ws));
                            if forall|j: int| 0 <= j < run.len() ==> ascii_digit(#[trigger] run[j]) {
                                lemma_digits_value_mono(run, k + 1 - ws);
                                assert(run.subrange(0, k + 1 - ws) =~= pre);
                                assert(digits_value(run) > u64::MAX);
                            }
                            assert(parse_run(run) is None);
                        }
                        return None;
                    },
                }
            },
        }
    }
}

/// The number following `key` (after white space: the longest run of
/// numeric chars, parsed as a `u64`).
fn extract_number(json: &str, key: &str) -> (r: Option<u64>)
    requires
        key.spec_bytes().len() > 0,
        forall|k: int| 0 <= k < key.spec_bytes().len() ==> #[trigger] key.spec_bytes()[k] < 128,
    ensures
        r == extract_number_spec(json.spec_bytes(), key.spec_bytes()),
{
    let b = json.as_bytes();
    let kb = key.as_bytes();
    let blen = b.len();
    let i = match find_bytes(b, kb, 0) {
        Some(i) => i,
        None => {
            return None;
        },
    };
    proof {
        lemma_find_from(b@, key.spec_bytes(), 0);
        assert(b@[i + key.spec_bytes().len() - 1] == key.spec_bytes()[key.spec_bytes().len() - 1]);
        assert(i + kb@.len() <= blen);
    }
    let rest = tail_after_ascii(json, i + kb.len());
    proof {
        vstd::utf8::encode_utf8_decode_utf8(rest@);
    }
    number_of(rest)
}

// ---------------------------------------------------------------------------
// Building replies
// ---------------------------------------------------------------------------

/// The UTF-8 bytes of a `String`.
pub open spec fn text(s: String) -> Seq<u8> {
    encode_utf8(s@)
}

/// The UTF-8 bytes of an optional `String`.
pub open spec fn opt_text(o: Option<String>) -> Option<Seq<u8>> {
    match o {
        Some(s) => Some(text(s)),
        None => None,
    }
}

/// `b` with `\`, `"` and newline escaped, and nothing else.
pub open spec fn escape3(b: Seq<u8>) -> Seq<u8>
    decreases b.len(),
{
    if b.len() == 0 {
        Seq::empty()
    } else {
        escape3(b.drop_last()) + esc3_byte(b.last())
    }
}

pub open spec fn esc3_byte(c: u8) -> Seq<u8> {
    if c == 92u8 {
        seq![92u8, 92u8]
    } else if c == 34u8 {
        seq![92u8, 34u8]
    } else if c == 10u8 {
        seq![92u8, 110u8]
    } else {
        seq![c]
    }
}

/// Escaping distributes over concatenation.
pub proof fn lemma_escape3_append(a: Seq<u8>, b: Seq<u8>)
    ensures
        escape3(a + b) == escape3(a) + escape3(b),
    decreases b.len(),
{
    if b.len() == 0 {
        assert(a + b =~= a);
        assert(escape3(a) + Seq::<u8>::empty() =~= escape3(a));
    } else {
        lemma_escape3_append(a, b.drop_last());
        assert((a + b).drop_last() =~= a + b.drop_last());
        assert((a + b).last() == b.last());
        assert(escape3(a + b) =~= escape3(a) + escape3(b));
    }
}

proof fn lemma_escape3_high(b: Seq<u8>)
    requires
        forall|i: int| 0 <= i < b.len() ==> #[trigger] b[i] >= 128,
    ensures
        escape3(b) == b,
    decreases b.len(),
{
    if b.len() > 0 {
        lemma_escape3_high(b.drop_last());
        assert(b.drop_last().push(b.last()) =~= b);
    }
}

proof fn lemma_escape3_ascii(b: Seq<u8>)
    requires
        forall|i: int| 0 <= i < b.len() ==> #[trigger] b[i] < 128,
    ensures
        forall|i: int| 0 <= i < escape3(b).len() ==> #[trigger] escape3(b)[i] < 128,
    decreases b.len(),
{
    if b.len() > 0 {
        let d = b.drop_last();
        assert forall|i: int| 0 <= i < d.len() implies #[trigger] d[i] < 128 by {
            assert(d[i] == b[i]);
        }
        lemma_escape3_ascii(d);
        let left = escape3(d);
        let right = esc3_byte(b.last());
        assert forall|i: int| 0 <= i < escape3(b).len() implies #[trigger] escape3(b)[i] < 128 by {
            if i < left.len() {
                assert(escape3(b)[i] == left[i]);
            } else {
                assert(escape3(b)[i] == right[i - left.len()]);
            }
        }
    }
}

/// Bytes below 128 are valid UTF-8.
pub proof fn lemma_ascii_valid(b: Seq<u8>)
    requires
        forall|i: int| 0 <= i < b.len() ==> #[trigger] b[i] < 128,
    ensures
        valid_utf8(b),
    decreases b.len(),
{
    if b.len() > 0 {
        assert(valid_first_scalar(b));
        assert(length_of_first_scalar(b) == 1);
        let rest = pop_first_scalar(b);
        assert forall|i: int| 0 <= i < rest.len() implies #[trigger] rest[i] < 128 by {
            assert(rest[i] == b[i + 1]);
        }
        lemma_ascii_valid(rest);
    }
}

/// Escaping keeps valid UTF-8 valid.
proof fn lemma_escape3_valid(b: Seq<u8>)
    requires
        valid_utf8(b),
    ensures
        valid_utf8(escape3(b)),
    decreases b.len(),
{
    broadcast use vstd::utf8::valid_utf8_concat;

    if b.len() > 0 {
        let l = length_of_first_scalar(b);
        let first = b.subrange(0, l);
        let rest = pop_first_scalar(b);
        assert(b =~= first + rest);
        lemma_escape3_append(first, rest);
        lemma_escape3_valid(rest);
        if b[0] < 128 {
            assert(l == 1);
            lemma_escape3_ascii(first);
            lemma_ascii_valid(escape3(first));
        } else {
            assert forall|i: int| 0 <= i < first.len() implies #[trigger] first[i] >= 128 by {
                assert(first[i] == b[i]);
            }
            lemma_escape3_high(first);
            assert(valid_utf8(first)) by {
                let e = pop_first_scalar(first);
                assert(e =~= Seq::<u8>::empty());
                assert(valid_utf8(e));
                assert(first[0] == b[0]);
                assert(l >= 2 ==> first[1] == b[1]);
                assert(l >= 3 ==> first[2] == b[2]);
                assert(l >= 4 ==> first[3] == b[3]);
            }
        }
    }
}

proof fn lemma_dec_ascii(n: nat)
    ensures
        forall|i: int| 0 <= i < dec(n).len() ==> #[trigger] dec(n)[i] < 128,
    decreases n,
{
    if n >= 10 {
        lemma_dec_ascii(n / 10);
        let left = dec(n / 10);
        assert forall|i: int| 0 <= i < dec(n).len() implies #[trigger] dec(n)[i] < 128 by {
            if i < left.len() {
                assert(dec(n)[i] == left[i]);
            }
        }
    }
}

/// Text that always holds valid UTF-8.
struct TextBuf {
    bytes: Vec<u8>,
}

impl TextBuf {
    spec fn view(&self) -> Seq<u8> {
        self.bytes@
    }

    fn new() -> (t: Self)
        ensures
            t.view() == Seq::<u8>::empty(),
            valid_utf8(t.view()),
    {
        let t = TextBuf { bytes: Vec::new() };
        proof {
            lemma_ascii_valid(t.view());
        }
        t
    }

    fn push_bytes(&mut self, b: &[u8])
        requires
            valid_utf8(old(self).view()),
            valid_utf8(b@),
        ensures
            final(self).view() == old(self).view() + b@,
            valid_utf8(final(self).view()),
    {
        let mut i: usize = 0;
        while i < b.len()
            invariant
                i <= b@.len(),
                self.bytes@ == old(self).view() + b@.subrange(0, i as int),
            decreases b.len() - i,
        {
            self.bytes.push(b[i]);
            assert(self.bytes@ =~= old(self).view() + b@.subrange(0, i + 1));
            i = i + 1;
        }
        proof {
            assert(b@.subrange(0, b@.len() as int) =~= b@);
            vstd::utf8::valid_utf8_concat(old(self).view(), b@);
        }
    }

    fn push_str(&mut self, s: &str)
        requires
            valid_utf8(old(self).view()),
        ensures
            final(self).view() == old(self).view() + s.spec_bytes(),
            valid_utf8(final(self).view()),
    {
        proof {
            vstd::utf8::encode_utf8_valid_utf8(s@);
        }
        self.push_bytes(s.as_bytes());
    }

    fn push_escaped(&mut self, s: &str)
        requires
            valid_utf8(old(self).view()),
        ensures
            final(self).view() == old(self).view() + escape3(s.spec_bytes()),
            valid_utf8(final(self).view()),
    {
        let b = s.as_bytes();
        let ghost base = self.view();
        let mut i: usize = 0;
        proof {
            assert(b@.subrange(0, 0) =~= Seq::<u8>::empty());
            assert(base + Seq::<u8>::empty() =~= base);
        }
        while i < b.len()
            invariant
                i <= b@.len(),
                b@ == s.spec_bytes(),
                self.bytes@ == base + escape3(b@.subrange(0, i as int)),
            decreases b.len() - i,
        {
            let c = b[i];
            if c == 92u8 {
                self.bytes.push(92u8);
                self.bytes.push(92u8);
            } else if c == 34u8 {
                self.bytes.push(92u8);
                self.bytes.push(34u8);
            } else if c == 10u8 {
                self.bytes.push(92u8);
                self.bytes.push(110u8);
            } else {
                self.bytes.push(c);
            }
            proof {
                let p = b@.subrange(0, i + 1);
                assert(p.drop_last() =~= b@.subrange(0, i as int));
                assert(p.last() == c);
                assert(self.bytes@ =~= base + escape3(p));
            }
            i = i + 1;
        }
        proof {
            assert(b@.subrange(0, b@.len() as int) =~= b@);
            vstd::utf8::encode_utf8_valid_utf8(s@);
            lemma_escape3_valid(b@);
            vstd::utf8::valid_utf8_concat(base, escape3(b@));
        }
    }

    fn push_u64(&mut self, n: u64)
        requires
            valid_utf8(old(self).view()),
        ensures
            final(self).view() == old(self).view() + dec(n as nat),
            valid_utf8(final(self).view()),
    {
        let mut tmp: [u8; 20] = [0u8; 20];
        let start = fmt_u64(n, &mut tmp);
        let digits = vstd::slice::slice_subrange(tmp.as_slice(), start, 20);
        proof {
            lemma_dec_ascii(n as nat);
            lemma_ascii_valid(dec(n as nat));
        }
        self.push_bytes(digits);
    }

    fn into_string(self) -> (s: String)
        requires
            valid_utf8(self.view()),
        ensures
            text(s) == self.view(),
    {
        let t = str_from_utf8(self.bytes.as_slice());
        match t {
            Some(t) => {
                let s = t.to_owned();
                s
            },
            None => {
                proof {
                    assert(false);
                }
                String::new()
            },
        }
    }
}

// ---------------------------------------------------------------------------
// Tools, providers and replies
// ---------------------------------------------------------------------------

/// A tool exposed to agents.
#[derive(Debug, Clone)]
pub struct Tool {
    pub name: String,
    pub description: String,
}

/// What a tool call came back with.
pub enum ToolResult {
    Done(String),
    Failed(String),
}

/// A provider exposes tools to the runtime: sensors, actuators, APIs.
pub trait Provider: Send + Sync {
    /// A name for this provider.
    fn name(&self) -> &str;

    /// Whether `ts` is a list of tools this provider may expose. A provider
    /// that says no more leaves it `true`.
    open spec fn tools_ok(&self, ts: Seq<Tool>) -> bool {
        true
    }

    /// Whether a call of `tool` with `params` may come back with `r`. A
    /// provider that says no more leaves it `true`.
    open spec fn call_ok(&self, tool: Seq<u8>, params: Map<String, String>, r: ToolResult) -> bool {
        true
    }

    /// The tools this provider exposes.
    fn tools(&self) -> (r: Vec<Tool>)
        ensures
            self.tools_ok(r@),
    ;

    /// Handle a call of `tool`.
    fn call(&self, tool: &str, params: &HashMap<String, String>) -> (r: ToolResult)
        ensures
            self.call_ok(tool.spec_bytes(), params@, r),
    ;
}

/// A transport carries messages between agents and a handler: Unix sockets,
/// TCP, MQTT and the like.
pub trait Transport {
    /// Listen, and answer each message with `handler`. A transport that
    /// serves connections on several threads shares `handler` behind an
    /// `Arc`.
    fn serve<F>(&self, handler: F) where F: Fn(&str) -> String + Send + Sync + 'static;
}

pub const RESP_OPEN: &'static str = "{\"jsonrpc\":\"2.0\",\"id\":";
pub const RESP_RESULT: &'static str = ",\"result\":";
pub const RESP_ERROR: &'static str = ",\"error\":{\"code\":-1,\"message\":\"";
pub const RESP_ERROR_CLOSE: &'static str = "\"}}";
pub const RESP_CLOSE: &'static str = "}";
pub const INIT_RESULT: &'static str =
    "{\"protocolVersion\":\"2024-11-05\",\"capabilities\":{\"tools\":{}}}";
pub const LIST_RESULT_OPEN: &'static str = "{\"tools\":[";
pub const LIST_RESULT_CLOSE: &'static str = "]}";
pub const ENTRY_NAME: &'static str = "{\"name\":\"";
pub const ENTRY_DESC: &'static str = "\",\"description\":\"";
pub const ENTRY_CLOSE: &'static str = "\"}";
pub const CONTENT_OPEN: &'static str = "{\"content\":[{\"type\":\"text\",\"text\":\"";
pub const CONTENT_CLOSE: &'static str = "\"}]}";
pub const UNKNOWN_TOOL: &'static str = "unknown tool: ";
pub const KEY_ID: &'static str = "\"id\":";
pub const KEY_METHOD: &'static str = "\"method\":";
pub const KEY_NAME: &'static str = "\"name\":";

/// A successful reply.
pub open spec fn success_text(id: nat, result: Seq<u8>) -> Seq<u8> {
    RESP_OPEN.spec_bytes() + dec(id) + RESP_RESULT.spec_bytes() + result + RESP_CLOSE.spec_bytes()
}

/// An error reply, its message escaped.
pub open spec fn error_text(id: nat, message: Seq<u8>) -> Seq<u8> {
    RESP_OPEN.spec_bytes() + dec(id) + RESP_ERROR.spec_bytes() + escape3(message)
        + RESP_ERROR_CLOSE.spec_bytes()
}

/// One tools-list entry; name and description are not escaped.
pub open spec fn entry_text(t: Tool) -> Seq<u8> {
    ENTRY_NAME.spec_bytes() + text(t.name) + ENTRY_DESC.spec_bytes() + text(t.description)
        + ENTRY_CLOSE.spec_bytes()
}

/// The entries of `ts`, comma-separated.
pub open spec fn entries_text(ts: Seq<Tool>) -> Seq<u8>
    decreases ts.len(),
{
    if ts.len() == 0 {
        Seq::empty()
    } else if ts.len() == 1 {
        entry_text(ts[0])
    } else {
        entries_text(ts.drop_last()) + seq![44u8] + entry_text(ts.last())
    }
}

/// The `tools/list` result object.
pub open spec fn list_result(ts: Seq<Tool>) -> Seq<u8> {
    LIST_RESULT_OPEN.spec_bytes() + entries_text(ts) + LIST_RESULT_CLOSE.spec_bytes()
}

/// The reply to a `tools/call` with id `id` whose tool came back with `r`.
pub open spec fn call_text(id: nat, r: ToolResult) -> Seq<u8> {
    match r {
        ToolResult::Done(t) => success_text(
            id,
            CONTENT_OPEN.spec_bytes() + escape3(text(t)) + CONTENT_CLOSE.spec_bytes(),
        ),
        ToolResult::Failed(e) => error_text(id, text(e)),
    }
}

/// A request: its id, its method, and the `name` it carries, if any.
#[verifier::opaque]
pub open spec fn parse_request_spec(m: Seq<u8>) -> Option<(u64, Seq<u8>, Option<Seq<u8>>)> {
    match extract_number_spec(m, KEY_ID.spec_bytes()) {
        None => None,
        Some(id) => match extract_string_spec(m, KEY_METHOD.spec_bytes()) {
            None => None,
            Some(method) => Some((id, method, extract_string_spec(m, KEY_NAME.spec_bytes()))),
        },
    }
}

struct Request {
    id: u64,
    method: String,
    name: Option<String>,
}

proof fn lemma_keys_ascii()
    ensures
        KEY_ID.spec_bytes().len() > 0,
        forall|k: int| 0 <= k < KEY_ID.spec_bytes().len() ==> #[trigger] KEY_ID.spec_bytes()[k] < 128,
        KEY_METHOD.spec_bytes().len() > 0,
        forall|k: int| 0 <= k < KEY_METHOD.spec_bytes().len() ==> #[trigger] KEY_METHOD.spec_bytes()[k] < 128,
        KEY_NAME.spec_bytes().len() > 0,
        forall|k: int| 0 <= k < KEY_NAME.spec_bytes().len() ==> #[trigger] KEY_NAME.spec_bytes()[k] < 128,
{
    reveal_strlit("\"id\":");
    reveal_strlit("\"method\":");
    reveal_strlit("\"name\":");
    vstd::string::is_ascii_spec_bytes(KEY_ID);
    vstd::string::is_ascii_spec_bytes(KEY_METHOD);
    vstd::string::is_ascii_spec_bytes(KEY_NAME);
}

/// Pick a request apart: `"id":` followed by a number, `"method":` followed
/// by a string, and optionally `"name":` followed by a string.
fn parse_request(msg: &str) -> (r: Option<Request>)
    ensures
        match r {
            Some(q) => parse_request_spec(msg.spec_bytes()) == Some(
                (q.id, text(q.method), opt_text(q.name)),
            ),
            None => parse_request_spec(msg.spec_bytes()) is None,
        },
{
    proof {
        lemma_keys_ascii();
        reveal(parse_request_spec);
    }
    let id = match extract_number(msg, KEY_ID) {
        Some(id) => id,
        None => {
            return None;
        },
    };
    let method = match extract_string(msg, KEY_METHOD) {
        Some(m) => m,
        None => {
            return None;
        },
    };
    let name = extract_string(msg, KEY_NAME);
    Some(Request { id, method, name })
}

fn success_response(id: u64, result: &str) -> (s: String)
    ensures
        text(s) == success_text(id as nat, result.spec_bytes()),
{
    let mut t = TextBuf::new();
    t.push_str(RESP_OPEN);
    t.push_u64(id);
    t.push_str(RESP_RESULT);
    t.push_str(result);
    t.push_str(RESP_CLOSE);
    assert(t.view() =~= success_text(id as nat, result.spec_bytes()));
    t.into_string()
}

fn error_response(id: u64, message: &str) -> (s: String)
    ensures
        text(s) == error_text(id as nat, message.spec_bytes()),
{
    let mut t = TextBuf::new();
    t.push_str(RESP_OPEN);
    t.push_u64(id);
    t.push_str(RESP_ERROR);
    t.push_escaped(message);
    t.push_str(RESP_ERROR_CLOSE);
    assert(t.view() =~= error_text(id as nat, message.spec_bytes()));
    t.into_string()
}

// ---------------------------------------------------------------------------
// Runtime
// ---------------------------------------------------------------------------

/// The value of the first entry of `m` at or after `i` whose key is `k`.
pub open spec fn lookup_at(m: Seq<(Seq<u8>, usize)>, k: Seq<u8>, i: int) -> Option<usize>
    decreases m.len() - i,
{
    if i < 0 || i >= m.len() {
        None
    } else if m[i].0 == k {
        Some(m[i].1)
    } else {
        lookup_at(m, k, i + 1)
    }
}

/// The value of the first entry of `m` whose key is `k`.
pub open spec fn lookup(m: Seq<(Seq<u8>, usize)>, k: Seq<u8>) -> Option<usize> {
    lookup_at(m, k, 0)
}

/// Setting the value of the first entry with key `key` changes only what
/// `key` looks up.
proof fn lemma_lookup_set(m: Seq<(Seq<u8>, usize)>, j: int, key: Seq<u8>, v: usize, k: Seq<u8>, i: int)
    requires
        0 <= i,
        0 <= j < m.len(),
        m[j].0 == key,
        forall|l: int| 0 <= l < j ==> (#[trigger] m[l]).0 != key,
    ensures
        lookup_at(m.update(j, (key, v)), k, i) == (if k == key && i <= j {
            Some(v)
        } else {
            lookup_at(m, k, i)
        }),
    decreases m.len() - i,
{
    if i < m.len() {
        lemma_lookup_set(m, j, key, v, k, i + 1);
    }
}

/// Appending an entry for a key that is absent changes only what that key
/// looks up.
proof fn lemma_lookup_push(m: Seq<(Seq<u8>, usize)>, key: Seq<u8>, v: usize, k: Seq<u8>, i: int)
    requires
        0 <= i <= m.len(),
        lookup_at(m, key, i) is None,
    ensures
        lookup_at(m.push((key, v)), k, i) == (if k == key {
            Some(v)
        } else {
            lookup_at(m, k, i)
        }),
    decreases m.len() - i,
{
    let p = m.push((key, v));
    if i < m.len() {
        assert(p[i] == m[i]);
        assert(m[i].0 != key);
        lemma_lookup_push(m, key, v, k, i + 1);
    } else {
        assert(p[i] == (key, v));
        assert(lookup_at(p, k, i + 1) is None);
        assert(lookup_at(m, k, i) is None);
    }
}

/// The table after registering the tools `ts` of the provider at `idx`:
/// each name now maps to `idx`.
pub open spec fn with_tools(m: Seq<(Seq<u8>, usize)>, ts: Seq<Tool>, idx: usize) -> Map<Seq<u8>, usize> {
    Map::new(
        |k: Seq<u8>| lookup(m, k) is Some || exists|j: int| 0 <= j < ts.len() && text(#[trigger] ts[j].name) == k,
        |k: Seq<u8>| if exists|j: int| 0 <= j < ts.len() && text(#[trigger] ts[j].name) == k {
            idx
        } else {
            lookup(m, k).unwrap()
        },
    )
}

/// The map a key list stands for.
pub open spec fn as_map(m: Seq<(Seq<u8>, usize)>) -> Map<Seq<u8>, usize> {
    Map::new(|k: Seq<u8>| lookup(m, k) is Some, |k: Seq<u8>| lookup(m, k).unwrap())
}

/// The tool a `tools/call` names; an absent name reads as the empty one.
pub open spec fn tool_of(name: Option<Seq<u8>>) -> Seq<u8> {
    match name {
        Some(n) => n,
        None => Seq::empty(),
    }
}

/// The parameters handed to a provider for a `tools/call` naming `name`:
/// none when the request names no tool, else one entry, `"name"` to the
/// tool name. (What `HashMap::insert` does to the map is known only for key
/// types that keep the hash model, so the entry is stated under that
/// condition.)
pub open spec fn params_for(params: Map<String, String>, name: Option<Seq<u8>>) -> bool {
    match name {
        None => params == Map::<String, String>::empty(),
        Some(n) => obeys_key_model::<String>() ==> {
            &&& params.dom().len() == 1
            &&& forall|k: String| #[trigger] params.contains_key(k) ==> k@ == "name"@ && text(params[k]) == n
        },
    }
}

/// The core runtime: registers providers and routes tool calls to them.
pub struct Runtime<'p> {
    providers: Vec<&'p dyn Provider>,
    tool_map: Vec<(String, usize)>,
}

/// `v` with `x` appended, `x` kept exactly as given.
fn push_keep<T>(v: &mut Vec<T>, x: T)
    ensures
        final(v)@ == old(v)@.push(x),
        final(v)@.len() == old(v)@.len() + 1,
{
    v.push(x);
}

impl<'p> Runtime<'p> {
    /// The providers, in registration order.
    pub closed spec fn providers(&self) -> Seq<&'p dyn Provider> {
        self.providers@
    }

    /// Tool names and the index of the provider each routes to.
    pub closed spec fn entries(&self) -> Seq<(Seq<u8>, usize)> {
        self.tool_map@.map_values(|e: (String, usize)| (text(e.0), e.1))
    }

    /// `ls` holds what each registered provider lists, in order.
    pub open spec fn lists_ok(&self, ls: Seq<Seq<Tool>>) -> bool {
        &&& ls.len() == self.providers().len()
        &&& forall|i: int| 0 <= i < ls.len() ==> self.providers()[i].tools_ok(#[trigger] ls[i])
    }

    /// `reply` answers a `tools/list` with this id: every provider's tools,
    /// in registration order.
    #[verifier::opaque]
    pub open spec fn list_answer(&self, id: u64, reply: Seq<u8>) -> bool {
        exists|ls: Seq<Seq<Tool>>| #[trigger] self.lists_ok(ls) && reply == success_text(
            id as nat,
            list_result(ls.flatten()),
        )
    }

    /// `reply` answers a `tools/call` with this id naming the tool `name`
    /// (an absent name reads as the empty one): the unknown-tool error when
    /// no provider routes it, else the reply for what the provider it routes
    /// to came back with, called with the parameters [`params_for`] gives.
    #[verifier::opaque]
    pub open spec fn call_answer(&self, id: u64, name: Option<Seq<u8>>, reply: Seq<u8>) -> bool {
        match lookup(self.entries(), tool_of(name)) {
            None => reply == error_text(id as nat, UNKNOWN_TOOL.spec_bytes() + tool_of(name)),
            Some(idx) => exists|params: Map<String, String>, r: ToolResult|
                #[trigger] self.providers()[idx as int].call_ok(tool_of(name), params, r) && params_for(
                    params,
                    name,
                ) && reply == call_text(id as nat, r),
        }
    }

    /// How the runtime answers `msg`.
    pub open spec fn answers_message(&self, msg: Seq<u8>, reply: Seq<u8>) -> bool {
        match parse_request_spec(msg) {
            None => reply == error_text(0, "parse error".spec_bytes()),
            Some(req) => self.answer_to(req, reply),
        }
    }

    /// How the runtime answers a request with this id, method and tool name.
    pub open spec fn answer_to(&self, req: (u64, Seq<u8>, Option<Seq<u8>>), reply: Seq<u8>) -> bool {
        let (id, method, name) = req;
        {
            if method == "initialize".spec_bytes() {
                reply == success_text(id as nat, INIT_RESULT.spec_bytes())
            } else if method == "tools/list".spec_bytes() {
                self.list_answer(id, reply)
            } else if method == "tools/call".spec_bytes() {
                self.call_answer(id, name, reply)
            } else {
                reply == error_text(id as nat, "method not found".spec_bytes())
            }
        }
    }

    /// Tool name to provider index.
    pub open spec fn tool_map(&self) -> Map<Seq<u8>, usize> {
        as_map(self.entries())
    }

    /// Every tool routes to a registered provider.
    pub closed spec fn wf(&self) -> bool {
        forall|i: int| 0 <= i < self.tool_map@.len() ==> #[trigger] self.tool_map@[i].1 < self.providers@.len()
    }

    pub fn new() -> (r: Self)
        ensures
            r.wf(),
            r.providers() == Seq::<&'p dyn Provider>::empty(),
            r.tool_map() == Map::<Seq<u8>, usize>::empty(),
    {
        let r = Runtime { providers: Vec::new(), tool_map: Vec::new() };
        assert(r.entries() =~= Seq::<(Seq<u8>, usize)>::empty());
        assert(r.tool_map() =~= Map::<Seq<u8>, usize>::empty());
        r
    }
}

impl<'p> Runtime<'p> {
    /// Route `name` to the provider at `idx`, replacing an earlier route.
    fn map_insert(&mut self, name: String, idx: usize)
        ensures
            final(self).providers() == old(self).providers(),
            forall|k: Seq<u8>| lookup(final(self).entries(), k) == (if k == text(name) {
                Some(idx)
            } else {
                lookup(old(self).entries(), k)
            }),
            forall|i: int| 0 <= i < final(self).tool_map@.len() ==> #[trigger] final(self).tool_map@[i].1 == idx || exists|l: int| 0 <= l < old(self).tool_map@.len() && final(self).tool_map@[i].1 == old(self).tool_map@[l].1,
    {
        let ghost m0 = self.entries();
        let key = name.as_str();
        let mut i: usize = 0;
        while i < self.tool_map.len()
            invariant
                i <= self.tool_map@.len(),
                *self == *old(self),
                m0 == self.entries(),
                key@ == name@,
                forall|l: int| 0 <= l < i ==> (#[trigger] m0[l]).0 != text(name),
            decreases self.tool_map.len() - i,
        {
            let k = self.tool_map[i].0.as_str();
            if crate::json::bytes_eq(k.as_bytes(), key.as_bytes()) {
                proof {
                    assert(m0[i as int].0 == text(name));
                }
                let ghost before = self.tool_map@;
                self.tool_map.set(i, (name, idx));
                proof {
                    assert(self.entries() =~= m0.update(i as int, (text(name), idx)));
                    assert forall|kk: Seq<u8>| lookup(self.entries(), kk) == (if kk == text(name) {
                        Some(idx)
                    } else {
                        lookup(m0, kk)
                    }) by {
                        lemma_lookup_set(m0, i as int, text(name), idx, kk, 0);
                    }
                    assert forall|l: int| 0 <= l < self.tool_map@.len() implies #[trigger] self.tool_map@[l].1 == idx || exists|o: int| 0 <= o < before.len() && self.tool_map@[l].1 == before[o].1 by {
                        if l != i {
                            assert(self.tool_map@[l] == before[l]);
                        }
                    }
                }
                return;
            }
            i = i + 1;
        }
        let ghost before = self.tool_map@;
        proof {
            assert forall|l: int| 0 <= l < m0.len() implies (#[trigger] m0[l]).0 != text(name) by {}
            assert(lookup_at(m0, text(name), 0) is None) by {
                lemma_lookup_absent(m0, text(name), 0);
            }
        }
        let ghost t = text(name);
        self.tool_map.push((name, idx));
        proof {
            assert(self.entries() =~= m0.push((t, idx)));
            assert forall|kk: Seq<u8>| lookup(self.entries(), kk) == (if kk == t {
                Some(idx)
            } else {
                lookup(m0, kk)
            }) by {
                lemma_lookup_push(m0, t, idx, kk, 0);
            }
            assert forall|l: int| 0 <= l < self.tool_map@.len() implies #[trigger] self.tool_map@[l].1 == idx || exists|o: int| 0 <= o < before.len() && self.tool_map@[l].1 == before[o].1 by {
                if l < before.len() {
                    assert(self.tool_map@[l] == before[l]);
                }
            }
        }
    }

    /// Register a provider and route each of its tools to it; a name an
    /// earlier provider also lists now routes to this one.
    pub fn register(&mut self, provider: &'p dyn Provider)
        requires
            old(self).wf(),
            old(self).providers().len() < usize::MAX,
        ensures
            final(self).wf(),
            final(self).providers() == old(self).providers().push(provider),
            exists|ts: Seq<Tool>|
                #[trigger] with_tools(old(self).entries(), ts, old(self).providers().len() as usize)
                    == final(self).tool_map() && provider.tools_ok(ts),
    {
        let idx = self.providers.len();
        let tools = provider.tools();
        let ghost m0 = self.entries();
        let mut j: usize = 0;
        proof {
            assert(tools@.subrange(0, 0) =~= Seq::<Tool>::empty());
        }
        while j < tools.len()
            invariant
                j <= tools@.len(),
                idx == self.providers@.len(),
                self.providers() == old(self).providers(),
                forall|k: Seq<u8>| lookup(self.entries(), k) == if exists|l: int| 0 <= l < j && text(#[trigger] tools@[l].name) == k {
                    Some(idx)
                } else {
                    lookup(m0, k)
                },
                forall|i: int| 0 <= i < self.tool_map@.len() ==> #[trigger] self.tool_map@[i].1 <= idx,
            decreases tools.len() - j,
        {
            let name = tools[j].name.clone();
            let ghost before = self.entries();
            let ghost old_map = self.tool_map@;
            self.map_insert(name, idx);
            proof {
                assert forall|k: Seq<u8>| lookup(self.entries(), k) == if exists|l: int| 0 <= l < j + 1 && text(#[trigger] tools@[l].name) == k {
                    Some(idx)
                } else {
                    lookup(m0, k)
                } by {
                    if k == text(tools@[j as int].name) {
                    } else {
                        if exists|l: int| 0 <= l < j + 1 && text(#[trigger] tools@[l].name) == k {
                            let l = choose|l: int| 0 <= l < j + 1 && text(#[trigger] tools@[l].name) == k;
                            assert(l < j);
                        }
                    }
                }
                assert forall|i: int| 0 <= i < self.tool_map@.len() implies #[trigger] self.tool_map@[i].1 <= idx by {
                    if self.tool_map@[i].1 != idx {
                        let o = choose|o: int| 0 <= o < old_map.len() && self.tool_map@[i].1 == old_map[o].1;
                        assert(old_map[o].1 <= idx);
                    }
                }
            }
            j = j + 1;
        }
        proof {
            let w = with_tools(m0, tools@, idx);
            assert(j == tools@.len());
            assert forall|k: Seq<u8>| #[trigger] lookup(self.entries(), k) == if exists|l: int| 0 <= l < tools@.len() && text(#[trigger] tools@[l].name) == k {
                Some(idx)
            } else {
                lookup(m0, k)
            } by {}
            assert(w =~= self.tool_map());
        }
        let ghost map_before = self.tool_map@;
        push_keep(&mut self.providers, provider);
        proof {
            assert(self.tool_map@ == map_before);
            assert forall|i: int| 0 <= i < self.tool_map@.len() implies #[trigger] self.tool_map@[i].1 < self.providers@.len() by {
                assert(map_before[i].1 <= idx);
            }
            assert(m0 == old(self).entries());
            assert(idx == old(self).providers().len() as usize);
            assert(with_tools(old(self).entries(), tools@, old(self).providers().len() as usize)
                == self.tool_map());
        }
    }

    /// All tools of all providers, in registration order.
    pub fn list_tools(&self) -> (r: Vec<Tool>)
        ensures
            exists|ls: Seq<Seq<Tool>>| #[trigger] self.lists_ok(ls) && r@ == ls.flatten(),
    {
        let mut all: Vec<Tool> = Vec::new();
        let ghost mut ls: Seq<Seq<Tool>> = Seq::empty();
        let mut i: usize = 0;
        while i < self.providers.len()
            invariant
                i <= self.providers@.len(),
                ls.len() == i,
                all@ == ls.flatten(),
                forall|k: int| 0 <= k < i ==> self.providers()[k].tools_ok(#[trigger] ls[k]),
            decreases self.providers.len() - i,
        {
            let mut ts = self.providers[i].tools();
            let ghost got = ts@;
            all.append(&mut ts);
            proof {
                ls.lemma_flatten_push(got);
                let prev = ls;
                ls = ls.push(got);
                assert forall|k: int| 0 <= k < i + 1 implies self.providers()[k].tools_ok(#[trigger] ls[k]) by {
                    if k < i {
                        assert(ls[k] == prev[k]);
                    }
                }
            }
            i = i + 1;
        }
        proof {
            assert(self.lists_ok(ls));
        }
        all
    }

    /// Call tool `name`: its provider's answer, or an error when no provider
    /// lists it.
    pub fn call_tool(&self, name: &str, params: &HashMap<String, String>) -> (r: ToolResult)
        requires
            self.wf(),
        ensures
            match lookup(self.entries(), name.spec_bytes()) {
                None => r matches ToolResult::Failed(e) && text(e) == UNKNOWN_TOOL.spec_bytes()
                    + name.spec_bytes(),
                Some(idx) => self.providers()[idx as int].call_ok(name.spec_bytes(), params@, r),
            },
    {
        let key = name.as_bytes();
        let mut i: usize = 0;
        while i < self.tool_map.len()
            invariant
                i <= self.tool_map@.len(),
                self.wf(),
                key@ == name.spec_bytes(),
                lookup(self.entries(), name.spec_bytes()) == lookup_at(self.entries(), name.spec_bytes(), i as int),
            decreases self.tool_map.len() - i,
        {
            let k = self.tool_map[i].0.as_str();
            if crate::json::bytes_eq(k.as_bytes(), key) {
                let idx = self.tool_map[i].1;
                assert(self.tool_map@[i as int].1 < self.providers@.len());
                return self.providers[idx].call(name, params);
            }
            i = i + 1;
        }
        let mut t = TextBuf::new();
        t.push_str(UNKNOWN_TOOL);
        t.push_str(name);
        assert(t.view() =~= UNKNOWN_TOOL.spec_bytes() + name.spec_bytes());
        ToolResult::Failed(t.into_string())
    }
}

proof fn lemma_lookup_absent(m: Seq<(Seq<u8>, usize)>, key: Seq<u8>, i: int)
    requires
        0 <= i,
        forall|l: int| 0 <= l < m.len() ==> (#[trigger] m[l]).0 != key,
    ensures
        lookup_at(m, key, i) is None,
    decreases m.len() - i,
{
    if i < m.len() {
        lemma_lookup_absent(m, key, i + 1);
    }
}

/// The tools-list result object for `tools`.
fn list_result_text(tools: &Vec<Tool>) -> (s: String)
    ensures
        text(s) == list_result(tools@),
{
    let mut t = TextBuf::new();
    t.push_str(LIST_RESULT_OPEN);
    let ghost base = t.view();
    let mut i: usize = 0;
    let comma: [u8; 1] = [44u8];
    proof {
        assert(tools@.subrange(0, 0) =~= Seq::<Tool>::empty());
        assert(base + Seq::<u8>::empty() =~= base);
        lemma_ascii_valid(comma@);
    }
    while i < tools.len()
        invariant
            i <= tools@.len(),
            valid_utf8(t.view()),
            t.view() == base + entries_text(tools@.subrange(0, i as int)),
            comma@ == seq![44u8],
            valid_utf8(comma@),
        decreases tools.len() - i,
    {
        let ghost pre = tools@.subrange(0, i + 1);
        proof {
            assert(pre.drop_last() =~= tools@.subrange(0, i as int));
            assert(pre.last() == tools@[i as int]);
        }
        if i > 0 {
            t.push_bytes(comma.as_slice());
        }
        t.push_str(ENTRY_NAME);
        t.push_str(tools[i].name.as_str());
        t.push_str(ENTRY_DESC);
        t.push_str(tools[i].description.as_str());
        t.push_str(ENTRY_CLOSE);
        proof {
            if i == 0 {
                assert(pre.len() == 1);
                assert(pre[0] == tools@[0]);
            }
            assert(t.view() =~= base + entries_text(pre));
        }
        i = i + 1;
    }
    t.push_str(LIST_RESULT_CLOSE);
    proof {
        assert(tools@.subrange(0, tools@.len() as int) =~= tools@);
        assert(t.view() =~= list_result(tools@));
    }
    t.into_string()
}

impl<'p> Runtime<'p> {
    fn answer_list(&self, id: u64) -> (s: String)
        ensures
            self.list_answer(id, text(s)),
    {
        let tools = self.list_tools();
        let result = list_result_text(&tools);
        let s = success_response(id, result.as_str());
        assert(text(s) == success_text(id as nat, list_result(tools@)));
        proof {
            reveal(Runtime::list_answer);
        }
        s
    }

    fn answer_call(&self, id: u64, name: &Option<String>) -> (s: String)
        requires
            self.wf(),
        ensures
            self.call_answer(id, opt_text(*name), text(s)),
    {
        proof {
            reveal(Runtime::call_answer);
        }
        let mut params: HashMap<String, String> = HashMap::new();
        let tool: &str = match name {
            Some(n) => n.as_str(),
            None => "",
        };
        proof {
            reveal_strlit("");
        }
        match name {
            Some(n) => {
                let key = "name".to_owned();
                let value = n.clone();
                params.insert(key, value);
                proof {
                    reveal_strlit("name");
                    assert(key@ == "name"@);
                    if obeys_key_model::<String>() {
                        let m = Map::<String, String>::empty().insert(key, value);
                        assert(params@ == m);
                        assert(m.dom() =~= Set::<String>::empty().insert(key));
                    }
                }
            },
            None => {},
        }
        let ghost tool_s = tool_of(opt_text(*name));
        assert(tool_s == tool.spec_bytes());
        let r = self.call_tool(tool, &params);
        let s = match r {
            ToolResult::Done(result) => {
                let mut t = TextBuf::new();
                t.push_str(CONTENT_OPEN);
                t.push_escaped(result.as_str());
                t.push_str(CONTENT_CLOSE);
                let content = t.into_string();
                let s = success_response(id, content.as_str());
                assert(text(s) == call_text(id as nat, ToolResult::Done(result)));
                s
            },
            ToolResult::Failed(e) => {
                let s = error_response(id, e.as_str());
                assert(text(s) == call_text(id as nat, ToolResult::Failed(e)));
                s
            },
        };
        assert(text(s) == call_text(id as nat, r));
        s
    }

    /// Answer one JSON-RPC message.
    pub fn handle_message(&self, msg: &str) -> (s: String)
        requires
            self.wf(),
        ensures
            self.answers_message(msg.spec_bytes(), text(s)),
    {
        let req = match parse_request(msg) {
            Some(r) => r,
            None => {
                return error_response(0, "parse error");
            },
        };
        let ghost parsed = (req.id, text(req.method), opt_text(req.name));
        assert(parse_request_spec(msg.spec_bytes()) == Some(parsed));
        let s = self.answer_request(&req);
        assert(self.answer_to(parsed, text(s)));
        s
    }

    fn answer_request(&self, req: &Request) -> (s: String)
        requires
            self.wf(),
        ensures
            self.answer_to(
                (req.id, text(req.method), opt_text(req.name)),
                text(s),
            ),
    {
        let ghost parsed = (req.id, text(req.method), opt_text(req.name));
        let m = req.method.as_str();
        if crate::json::bytes_eq(m.as_bytes(), "initialize".as_bytes()) {
            let s = success_response(req.id, INIT_RESULT);
            assert(self.answer_to(parsed, text(s)));
            s
        } else if crate::json::bytes_eq(m.as_bytes(), "tools/list".as_bytes()) {
            let s = self.answer_list(req.id);
            assert(self.answer_to(parsed, text(s)));
            s
        } else if crate::json::bytes_eq(m.as_bytes(), "tools/call".as_bytes()) {
            let s = self.answer_call(req.id, &req.name);
            assert(self.answer_to(parsed, text(s)));
            s
        } else {
            let s = error_response(req.id, "method not found");
            assert(self.answer_to(parsed, text(s)));
            s
        }
    }
}

impl Runtime<'static> {
    /// Serve on `transport`: every message it receives is answered by
    /// [`handle_message`](Self::handle_message).
    pub fn serve<T: Transport>(self, transport: T)
        requires
            self.wf(),
    {
        let runtime = Arc::new(self);
        transport.serve(move |msg: &str| -> (s: String)
            ensures
                runtime.answers_message(msg.spec_bytes(), text(s)),
            { runtime.handle_message(msg) });
    }
}

} // verus!
