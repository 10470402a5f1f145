//! Byte-level JSON scanning: whitespace, strings, delimited values, literals,
//! numbers, and the key/value pairs of an object. Nothing is decoded; every
//! result is a span of the input.

use vstd::prelude::*;
use vstd::string::StringSliceAdditionalSpecFns;

verus! {

pub open spec fn QUOTE() -> u8 { 34u8 }
pub open spec fn BSLASH() -> u8 { 92u8 }
pub open spec fn COLON() -> u8 { 58u8 }
pub open spec fn COMMA() -> u8 { 44u8 }
pub open spec fn LBRACE() -> u8 { 123u8 }
pub open spec fn RBRACE() -> u8 { 125u8 }
pub open spec fn LBRACKET() -> u8 { 91u8 }
pub open spec fn RBRACKET() -> u8 { 93u8 }

/// JSON whitespace: space, tab, newline, carriage return.
pub open spec fn is_ws(c: u8) -> bool {
    c == 32u8 || c == 9u8 || c == 10u8 || c == 13u8
}

/// Bytes that may continue a number once it has started.
pub open spec fn is_num_byte(c: u8) -> bool {
    (48u8 <= c && c <= 57u8) || c == 45u8 || c == 43u8 || c == 46u8 || c == 101u8 || c == 69u8
}

/// The first position at or after `p` that is not whitespace.
pub open spec fn skip_ws(b: Seq<u8>, p: int) -> int
    decreases b.len() - p,
{
    if 0 <= p < b.len() && is_ws(b[p]) {
        skip_ws(b, p + 1)
    } else {
        p
    }
}

/// The first position at or after `p` that does not continue a number.
pub open spec fn num_end(b: Seq<u8>, p: int) -> int
    decreases b.len() - p,
{
    if 0 <= p < b.len() && is_num_byte(b[p]) {
        num_end(b, p + 1)
    } else {
        p
    }
}

/// Given `p` just after an opening quote, the position just after the
/// closing quote. A backslash makes the next byte part of the string.
pub open spec fn str_close(b: Seq<u8>, p: int) -> Option<int>
    decreases b.len() - p,
{
    if p < 0 || p >= b.len() {
        None
    } else if b[p] == BSLASH() {
        if p + 1 >= b.len() {
            None
        } else {
            str_close(b, p + 2)
        }
    } else if b[p] == QUOTE() {
        Some(p + 1)
    } else {
        str_close(b, p + 1)
    }
}

pub proof fn lemma_skip_ws(b: Seq<u8>, p: int)
    requires
        0 <= p,
    ensures
        p <= skip_ws(b, p),
        p <= b.len() ==> skip_ws(b, p) <= b.len(),
        p >= b.len() ==> skip_ws(b, p) == p,
        skip_ws(b, p) < b.len() ==> !is_ws(b[skip_ws(b, p)]),
        forall|i: int| p <= i < skip_ws(b, p) ==> is_ws(#[trigger] b[i]),
    decreases b.len() - p,
{
    if 0 <= p < b.len() && is_ws(b[p]) {
        lemma_skip_ws(b, p + 1);
    }
}

pub proof fn lemma_num_end(b: Seq<u8>, p: int)
    requires
        0 <= p,
    ensures
        p <= num_end(b, p),
        p <= b.len() ==> num_end(b, p) <= b.len(),
    decreases b.len() - p,
{
    if 0 <= p < b.len() && is_num_byte(b[p]) {
        lemma_num_end(b, p + 1);
    }
}

pub proof fn lemma_str_close(b: Seq<u8>, p: int)
    ensures
        str_close(b, p) matches Some(q) ==> p < q <= b.len(),
    decreases b.len() - p,
{
    if p < 0 || p >= b.len() {
    } else if b[p] == BSLASH() {
        if p + 1 < b.len() {
            lemma_str_close(b, p + 2);
        }
    } else if b[p] == QUOTE() {
    } else {
        lemma_str_close(b, p + 1);
    }
}

/// Given `p` just after an opening `open` byte and the current nesting
/// `depth`, the position just after the matching `close`. Strings are
/// skipped whole, so delimiters inside them do not count.
pub open spec fn delim_close(b: Seq<u8>, p: int, depth: nat, open: u8, close: u8) -> Option<int>
    decreases b.len() - p,
{
    if p < 0 || p >= b.len() {
        None
    } else if b[p] == QUOTE() {
        match str_close(b, p + 1) {
            None => None,
            Some(q) => if p < q <= b.len() {
                delim_close(b, q, depth, open, close)
            } else {
                None
            },
        }
    } else if b[p] == open {
        delim_close(b, p + 1, depth + 1, open, close)
    } else if b[p] == close {
        if depth <= 1 {
            Some(p + 1)
        } else {
            delim_close(b, p + 1, (depth - 1) as nat, open, close)
        }
    } else {
        delim_close(b, p + 1, depth, open, close)
    }
}

pub proof fn lemma_delim_close(b: Seq<u8>, p: int, depth: nat, open: u8, close: u8)
    ensures
        delim_close(b, p, depth, open, close) matches Some(q) ==> p < q <= b.len(),
    decreases b.len() - p,
{
    if p < 0 || p >= b.len() {
    } else if b[p] == QUOTE() {
        lemma_str_close(b, p + 1);
        match str_close(b, p + 1) {
            None => {},
            Some(q) => if p < q <= b.len() {
                lemma_delim_close(b, q, depth, open, close);
            },
        }
    } else if b[p] == open {
        lemma_delim_close(b, p + 1, depth + 1, open, close);
    } else if b[p] == close {
        if depth > 1 {
            lemma_delim_close(b, p + 1, (depth - 1) as nat, open, close);
        }
    } else {
        lemma_delim_close(b, p + 1, depth, open, close);
    }
}

/// `word` occurs in `b` at `p`.
pub open spec fn lit_at(b: Seq<u8>, p: int, word: Seq<u8>) -> bool {
    0 <= p && p + word.len() <= b.len() && b.subrange(p, p + word.len()) == word
}

pub open spec fn word_true() -> Seq<u8> { seq![116u8, 114u8, 117u8, 101u8] }
pub open spec fn word_false() -> Seq<u8> { seq![102u8, 97u8, 108u8, 115u8, 101u8] }
pub open spec fn word_null() -> Seq<u8> { seq![110u8, 117u8, 108u8, 108u8] }

pub open spec fn lit_end(b: Seq<u8>, p: int, word: Seq<u8>) -> Option<int> {
    if lit_at(b, p, word) { Some(p + word.len()) } else { None }
}

/// The end of the JSON value that starts at the first non-whitespace byte at
/// or after `p`: a string, an object, an array, `true`, `false`, `null`, or a
/// number (a run of number bytes starting with `-` or a digit).
pub open spec fn val_end(b: Seq<u8>, p: int) -> Option<int> {
    let q = skip_ws(b, p);
    if q < 0 || q >= b.len() {
        None
    } else if b[q] == QUOTE() {
        str_close(b, q + 1)
    } else if b[q] == LBRACE() {
        delim_close(b, q + 1, 1, LBRACE(), RBRACE())
    } else if b[q] == LBRACKET() {
        delim_close(b, q + 1, 1, LBRACKET(), RBRACKET())
    } else if b[q] == 116u8 {
        lit_end(b, q, word_true())
    } else if b[q] == 102u8 {
        lit_end(b, q, word_false())
    } else if b[q] == 110u8 {
        lit_end(b, q, word_null())
    } else if b[q] == 45u8 || (48u8 <= b[q] && b[q] <= 57u8) {
        Some(num_end(b, q))
    } else {
        None
    }
}

pub proof fn lemma_val_end(b: Seq<u8>, p: int)
    requires
        0 <= p,
    ensures
        val_end(b, p) matches Some(e) ==> p <= skip_ws(b, p) < e <= b.len(),
{
    lemma_skip_ws(b, p);
    let q = skip_ws(b, p);
    lemma_str_close(b, q + 1);
    lemma_delim_close(b, q + 1, 1, LBRACE(), RBRACE());
    lemma_delim_close(b, q + 1, 1, LBRACKET(), RBRACKET());
    lemma_num_end(b, q + 1);
    if 0 <= q < b.len() && (b[q] == 45u8 || (48u8 <= b[q] && b[q] <= 57u8)) {
        assert(is_num_byte(b[q]));
        lemma_num_end(b, q);
    }
}

/// One key/value member of an object, starting at the first non-whitespace
/// byte at or after `p`: `(key start, key end, value start, value end, next)`.
/// The key span excludes its quotes; `next` is past a following comma if any.
pub open spec fn pair_at(b: Seq<u8>, p: int) -> Option<(int, int, int, int, int)> {
    let q = skip_ws(b, p);
    if q < 0 || q >= b.len() || b[q] != QUOTE() {
        None
    } else {
        match str_close(b, q + 1) {
            None => None,
            Some(ke) => {
                let c = skip_ws(b, ke);
                if c < 0 || c >= b.len() || b[c] != COLON() {
                    None
                } else {
                    let v0 = skip_ws(b, c + 1);
                    match val_end(b, v0) {
                        None => None,
                        Some(v1) => {
                            let t = skip_ws(b, v1);
                            let next = if 0 <= t < b.len() && b[t] == COMMA() {
                                t + 1
                            } else {
                                t
                            };
                            Some((q + 1, ke - 1, v0, v1, next))
                        },
                    }
                }
            },
        }
    }
}

pub proof fn lemma_pair_at(b: Seq<u8>, p: int)
    requires
        0 <= p,
    ensures
        pair_at(b, p) matches Some(t) ==> p < t.0 <= t.1 < t.2 < t.3 <= t.4 <= b.len(),
{
    lemma_skip_ws(b, p);
    let q = skip_ws(b, p);
    if 0 <= q < b.len() && b[q] == QUOTE() {
        lemma_str_close(b, q + 1);
        if let Some(ke) = str_close(b, q + 1) {
            lemma_skip_ws(b, ke);
            let c = skip_ws(b, ke);
            if 0 <= c < b.len() && b[c] == COLON() {
                lemma_skip_ws(b, c + 1);
                let v0 = skip_ws(b, c + 1);
                lemma_val_end(b, v0);
                lemma_skip_ws(b, v0);
                if let Some(v1) = val_end(b, v0) {
                    lemma_skip_ws(b, v1);
                }
            }
        }
    }
}

/// The members of an object read from `p` onward, up to the closing brace or
/// the first malformed byte, whichever comes first.
pub open spec fn pairs_from(b: Seq<u8>, p: int) -> Seq<(int, int, int, int)>
    decreases b.len() - p,
{
    if p < 0 {
        seq![]
    } else {
        match pair_at(b, p) {
            None => seq![],
            Some(t) => if p < t.4 <= b.len() {
                seq![(t.0, t.1, t.2, t.3)] + pairs_from(b, t.4)
            } else {
                seq![]
            },
        }
    }
}

/// The members of the object that `b` holds (after leading whitespace);
/// empty when `b` does not start with `{`.
pub open spec fn obj_pairs(b: Seq<u8>) -> Seq<(int, int, int, int)> {
    let p = skip_ws(b, 0);
    if 0 <= p < b.len() && b[p] == LBRACE() {
        pairs_from(b, p + 1)
    } else {
        seq![]
    }
}

pub open spec fn span(b: Seq<u8>, s: int, e: int) -> Seq<u8> {
    b.subrange(s, e)
}

/// The value span of the first member of `prs` whose key is `key`.
pub open spec fn first_with_key(b: Seq<u8>, prs: Seq<(int, int, int, int)>, key: Seq<u8>) -> Option<
    (int, int),
>
    decreases prs.len(),
{
    if prs.len() == 0 {
        None
    } else if span(b, prs[0].0, prs[0].1) == key {
        Some((prs[0].2, prs[0].3))
    } else {
        first_with_key(b, prs.drop_first(), key)
    }
}

/// The value span of the last member of `prs` whose key is `key`.
pub open spec fn last_with_key(b: Seq<u8>, prs: Seq<(int, int, int, int)>, key: Seq<u8>) -> Option<
    (int, int),
>
    decreases prs.len(),
{
    if prs.len() == 0 {
        None
    } else {
        match last_with_key(b, prs.drop_first(), key) {
            Some(r) => Some(r),
            None => if span(b, prs[0].0, prs[0].1) == key {
                Some((prs[0].2, prs[0].3))
            } else {
                None
            },
        }
    }
}

pub open spec fn opt_span(b: Seq<u8>, r: Option<(int, int)>) -> Option<Seq<u8>> {
    match r {
        Some(s) => Some(span(b, s.0, s.1)),
        None => None,
    }
}

/// The value of the first member of object `b` with key `key`.
pub open spec fn obj_first(b: Seq<u8>, key: Seq<u8>) -> Option<Seq<u8>> {
    opt_span(b, first_with_key(b, obj_pairs(b), key))
}

/// The value of the last member of object `b` with key `key`.
pub open spec fn obj_last(b: Seq<u8>, key: Seq<u8>) -> Option<Seq<u8>> {
    opt_span(b, last_with_key(b, obj_pairs(b), key))
}

/// `b` stripped of a surrounding pair of quotes.
pub open spec fn spec_unquote(b: Seq<u8>) -> Option<Seq<u8>> {
    if b.len() >= 2 && b[0] == QUOTE() && b[b.len() - 1] == QUOTE() {
        Some(b.subrange(1, b.len() - 1))
    } else {
        None
    }
}

// ---------------------------------------------------------------------------
// Executable scanners
// ---------------------------------------------------------------------------

fn is_ws_byte(c: u8) -> (r: bool)
    ensures
        r == is_ws(c),
{
    c == 32u8 || c == 9u8 || c == 10u8 || c == 13u8
}

fn is_num_byte_exec(c: u8) -> (r: bool)
    ensures
        r == is_num_byte(c),
{
    (48u8 <= c && c <= 57u8) || c == 45u8 || c == 43u8 || c == 46u8 || c == 101u8 || c == 69u8
}

/// Byte-wise equality of two slices.
pub fn bytes_eq(a: &[u8], b: &[u8]) -> (r: bool)
    ensures
        r == (a@ == b@),
{
    if a.len() != b.len() {
        return false;
    }
    let mut i: usize = 0;
    while i < a.len()
        invariant
            a@.len() == b@.len(),
            i <= a@.len(),
            forall|j: int| 0 <= j < i ==> a@[j] == b@[j],
        decreases a.len() - i,
    {
        if a[i] != b[i] {
            return false;
        }
        i = i + 1;
    }
    assert(a@ =~= b@);
    true
}

/// Skip whitespace starting at `p`, returning the new position.
pub fn sp(b: &[u8], p: usize) -> (q: usize)
    ensures
        q == skip_ws(b@, p as int),
{
    let mut q = p;
    while q < b.len() && is_ws_byte(b[q])
        invariant
            p <= q,
            skip_ws(b@, q as int) == skip_ws(b@, p as int),
        decreases b.len() - q,
    {
        q = q + 1;
    }
    q
}

/// Advance `p`, which points just after an opening quote, past the closing
/// quote. `None` when the string is unterminated.
pub fn eat_str(b: &[u8], p: &mut usize) -> (r: Option<()>)
    ensures
        r is Some <==> str_close(b@, *old(p) as int) is Some,
        r is Some ==> str_close(b@, *old(p) as int) == Some(*final(p) as int),
{
    while *p < b.len()
        invariant
            str_close(b@, *p as int) == str_close(b@, *old(p) as int),
        decreases b.len() - *p,
    {
        let c = b[*p];
        if c == 92u8 {
            *p = *p + 1;
            if *p < b.len() {
                *p = *p + 1;
            }
        } else if c == 34u8 {
            *p = *p + 1;
            return Some(());
        } else {
            *p = *p + 1;
        }
    }
    None
}

/// Advance `p`, which points at `open`, past the matching `close`, skipping
/// strings. `None` when the input ends first.
pub fn skip_delimited(b: &[u8], p: &mut usize, open: u8, close: u8) -> (r: Option<()>)
    requires
        *old(p) < b.len(),
        b@[*old(p) as int] == open,
    ensures
        r is Some <==> delim_close(b@, *old(p) + 1, 1, open, close) is Some,
        r is Some ==> delim_close(b@, *old(p) + 1, 1, open, close) == Some(*final(p) as int),
{
    *p = *p + 1;
    let mut depth: usize = 1;
    while *p < b.len()
        invariant
            1 <= depth <= *p,
            delim_close(b@, *p as int, depth as nat, open, close) == delim_close(
                b@,
                *old(p) + 1,
                1,
                open,
                close,
            ),
        decreases b.len() - *p,
    {
        let c = b[*p];
        if c == 34u8 {
            *p = *p + 1;
            let ghost at = *p;
            proof {
                lemma_str_close(b@, at as int);
            }
            let r = eat_str(b, p);
            if r.is_none() {
                return None;
            }
        } else if c == open {
            depth = depth + 1;
            *p = *p + 1;
        } else if c == close {
            depth = depth - 1;
            *p = *p + 1;
            if depth == 0 {
                return Some(());
            }
        } else {
            *p = *p + 1;
        }
    }
    None
}

/// Match `word` exactly at `p`, advancing past it.
fn lit(b: &[u8], p: &mut usize, word: &[u8]) -> (r: Option<()>)
    requires
        *old(p) <= b@.len(),
    ensures
        r is Some <==> lit_at(b@, *old(p) as int, word@),
        r is Some ==> *final(p) == *old(p) + word@.len(),
{
    if b.len() - *p >= word.len() {
        let seg = vstd::slice::slice_subrange(b, *p, *p + word.len());
        if bytes_eq(seg, word) {
            *p = *p + word.len();
            return Some(());
        }
    }
    None
}

/// Advance `p` past one JSON value (after any leading whitespace).
pub fn skip_val(b: &[u8], p: &mut usize) -> (r: Option<()>)
    requires
        *old(p) <= b@.len(),
    ensures
        r is Some <==> val_end(b@, *old(p) as int) is Some,
        r is Some ==> val_end(b@, *old(p) as int) == Some(*final(p) as int),
{
    proof {
        lemma_skip_ws(b@, *old(p) as int);
    }
    *p = sp(b, *p);
    if *p >= b.len() {
        return None;
    }
    let c = b[*p];
    if c == 34u8 {
        *p = *p + 1;
        eat_str(b, p)
    } else if c == 123u8 {
        skip_delimited(b, p, 123u8, 125u8)
    } else if c == 91u8 {
        skip_delimited(b, p, 91u8, 93u8)
    } else if c == 116u8 {
        let w: [u8; 4] = [116u8, 114u8, 117u8, 101u8];
        assert(w@ == word_true());
        lit(b, p, w.as_slice())
    } else if c == 102u8 {
        let w: [u8; 5] = [102u8, 97u8, 108u8, 115u8, 101u8];
        assert(w@ == word_false());
        lit(b, p, w.as_slice())
    } else if c == 110u8 {
        let w: [u8; 4] = [110u8, 117u8, 108u8, 108u8];
        assert(w@ == word_null());
        lit(b, p, w.as_slice())
    } else if c == 45u8 || (48u8 <= c && c <= 57u8) {
        let ghost start = *p;
        while *p < b.len() && is_num_byte_exec(b[*p])
            invariant
                start <= *p,
                num_end(b@, *p as int) == num_end(b@, start as int),
            decreases b.len() - *p,
        {
            *p = *p + 1;
        }
        Some(())
    } else {
        None
    }
}

/// One object member at `p`: `(key start, key end, value start, value end,
/// next)`, or `None` at the closing brace or on malformed input.
pub fn next_pair(b: &[u8], p: usize) -> (r: Option<(usize, usize, usize, usize, usize)>)
    requires
        p <= b@.len(),
    ensures
        r is None <==> pair_at(b@, p as int) is None,
        r matches Some(t) ==> pair_at(b@, p as int) == Some(
            (t.0 as int, t.1 as int, t.2 as int, t.3 as int, t.4 as int),
        ),
{
    proof {
        lemma_pair_at(b@, p as int);
        lemma_skip_ws(b@, p as int);
    }
    let q = sp(b, p);
    if q >= b.len() || b[q] != 34u8 {
        return None;
    }
    let mut k = q + 1;
    proof {
        lemma_str_close(b@, k as int);
    }
    if eat_str(b, &mut k).is_none() {
        return None;
    }
    let ke = k;
    proof {
        lemma_skip_ws(b@, ke as int);
    }
    let c = sp(b, ke);
    if c >= b.len() || b[c] != 58u8 {
        return None;
    }
    proof {
        lemma_skip_ws(b@, c + 1);
    }
    let v0 = sp(b, c + 1);
    let mut v = v0;
    proof {
        lemma_val_end(b@, v0 as int);
        lemma_skip_ws(b@, v0 as int);
    }
    if skip_val(b, &mut v).is_none() {
        return None;
    }
    let v1 = v;
    proof {
        lemma_skip_ws(b@, v1 as int);
    }
    let t = sp(b, v1);
    let next = if t < b.len() && b[t] == 44u8 {
        t + 1
    } else {
        t
    };
    Some((q + 1, ke - 1, v0, v1, next))
}

proof fn lemma_pairs_from_unfold(b: Seq<u8>, p: int)
    requires
        0 <= p,
    ensures
        pairs_from(b, p) == (match pair_at(b, p) {
            None => Seq::<(int, int, int, int)>::empty(),
            Some(t) => seq![(t.0, t.1, t.2, t.3)] + pairs_from(b, t.4),
        }),
{
    lemma_pair_at(b, p);
}

/// The raw value of the first member of `obj` whose key bytes equal `key`.
pub fn obj_get<'a>(obj: &'a [u8], key: &[u8]) -> (r: Option<&'a [u8]>)
    ensures
        match r {
            Some(v) => obj_first(obj@, key@) == Some(v@),
            None => obj_first(obj@, key@) is None,
        },
{
    proof {
        lemma_skip_ws(obj@, 0);
    }
    let p0 = sp(obj, 0);
    if p0 >= obj.len() || obj[p0] != 123u8 {
        return None;
    }
    let mut p = p0 + 1;
    loop
        invariant
            p0 < p <= obj@.len(),
            first_with_key(obj@, obj_pairs(obj@), key@) == first_with_key(
                obj@,
                pairs_from(obj@, p as int),
                key@,
            ),
        decreases obj.len() - p,
    {
        proof {
            lemma_pairs_from_unfold(obj@, p as int);
            lemma_pair_at(obj@, p as int);
        }
        match next_pair(obj, p) {
            None => {
                return None;
            },
            Some(t) => {
                let k = vstd::slice::slice_subrange(obj, t.0, t.1);
                let ghost rest = pairs_from(obj@, t.4 as int);
                let ghost prs = pairs_from(obj@, p as int);
                assert(prs.drop_first() =~= rest);
                if bytes_eq(k, key) {
                    return Some(vstd::slice::slice_subrange(obj, t.2, t.3));
                }
                p = t.4;
            },
        }
    }
}

/// The raw value of the last member of `obj` whose key bytes equal `key`.
pub fn obj_get_last<'a>(obj: &'a [u8], key: &[u8]) -> (r: Option<&'a [u8]>)
    ensures
        match r {
            Some(v) => obj_last(obj@, key@) == Some(v@),
            None => obj_last(obj@, key@) is None,
        },
{
    proof {
        lemma_skip_ws(obj@, 0);
    }
    let p0 = sp(obj, 0);
    if p0 >= obj.len() || obj[p0] != 123u8 {
        return None;
    }
    let mut p = p0 + 1;
    let mut found: Option<(usize, usize)> = None;
    loop
        invariant
            p0 < p <= obj@.len(),
            found matches Some(f) ==> f.0 <= f.1 <= obj@.len(),
            last_with_key(obj@, obj_pairs(obj@), key@) == (match last_with_key(
                obj@,
                pairs_from(obj@, p as int),
                key@,
            ) {
                Some(x) => Some(x),
                None => match found {
                    Some(f) => Some((f.0 as int, f.1 as int)),
                    None => None,
                },
            }),
        decreases obj.len() - p,
    {
        proof {
            lemma_pairs_from_unfold(obj@, p as int);
            lemma_pair_at(obj@, p as int);
        }
        match next_pair(obj, p) {
            None => {
                return match found {
                    Some(f) => Some(vstd::slice::slice_subrange(obj, f.0, f.1)),
                    None => None,
                };
            },
            Some(t) => {
                let k = vstd::slice::slice_subrange(obj, t.0, t.1);
                let ghost rest = pairs_from(obj@, t.4 as int);
                let ghost prs = pairs_from(obj@, p as int);
                assert(prs.drop_first() =~= rest);
                if bytes_eq(k, key) {
                    found = Some((t.2, t.3));
                }
                p = t.4;
            },
        }
    }
}

/// Strip the outer quotes from a JSON string value. The inner bytes are
/// returned verbatim; escapes are not decoded.
pub fn unquote(b: &[u8]) -> (r: Option<&[u8]>)
    ensures
        match r {
            Some(v) => spec_unquote(b@) == Some(v@),
            None => spec_unquote(b@) is None,
        },
{
    if b.len() >= 2 && b[0] == 34u8 && b[b.len() - 1] == 34u8 {
        Some(vstd::slice::slice_subrange(b, 1, b.len() - 1))
    } else {
        None
    }
}

/// How an inbound frame is classified.
pub enum SpecMsg {
    /// The input is not a JSON object.
    ParseError,
    /// An object with no `id` member: no reply is owed.
    Notification,
    /// An object with an `id` member (an explicit `null` included).
    Request { id: Seq<u8>, method: Seq<u8>, params: Option<Seq<u8>> },
}

pub open spec fn key_id() -> Seq<u8> {
    "id".spec_bytes()
}

pub open spec fn key_method() -> Seq<u8> {
    "method".spec_bytes()
}

pub open spec fn key_params() -> Seq<u8> {
    "params".spec_bytes()
}

/// JSON-RPC classification of `m`: the last `id`, `method` and `params`
/// members count; a missing `method` reads as empty.
pub open spec fn spec_classify(m: Seq<u8>) -> SpecMsg {
    let p = skip_ws(m, 0);
    if !(0 <= p < m.len() && m[p] == LBRACE()) {
        SpecMsg::ParseError
    } else {
        match obj_last(m, key_id()) {
            None => SpecMsg::Notification,
            Some(id) => SpecMsg::Request {
                id,
                method: match obj_last(m, key_method()) {
                    Some(x) => x,
                    None => Seq::empty(),
                },
                params: obj_last(m, key_params()),
            },
        }
    }
}

/// Classification of an inbound JSON-RPC frame; spans borrow the frame.
pub enum Msg<'a> {
    ParseError,
    Notification,
    Request { id: &'a [u8], method: &'a [u8], params: Option<&'a [u8]> },
}

impl<'a> View for Msg<'a> {
    type V = SpecMsg;

    open spec fn view(&self) -> SpecMsg {
        match *self {
            Msg::ParseError => SpecMsg::ParseError,
            Msg::Notification => SpecMsg::Notification,
            Msg::Request { id, method, params } => SpecMsg::Request {
                id: id@,
                method: method@,
                params: match params {
                    Some(x) => Some(x@),
                    None => None,
                },
            },
        }
    }
}

/// Classify one frame as a parse error, a notification, or a request.
pub fn classify(msg: &[u8]) -> (r: Msg<'_>)
    ensures
        r@ == spec_classify(msg@),
{
    proof {
        lemma_skip_ws(msg@, 0);
    }
    let p = sp(msg, 0);
    if p >= msg.len() || msg[p] != 123u8 {
        return Msg::ParseError;
    }
    let id = match obj_get_last(msg, "id".as_bytes()) {
        Some(id) => id,
        None => {
            return Msg::Notification;
        },
    };
    let method = match obj_get_last(msg, "method".as_bytes()) {
        Some(m) => m,
        None => vstd::slice::slice_subrange(msg, 0, 0),
    };
    let params = obj_get_last(msg, "params".as_bytes());
    let r = Msg::Request { id, method, params };
    proof {
        assert(msg@.subrange(0, 0) =~= Seq::<u8>::empty());
    }
    r
}

} // verus!
