//! Escaped text decodes back to what was escaped: the laws that make the
//! `text` and `message` strings of a reply mean what the provider said.

use vstd::prelude::*;
use crate::minimal::{esc3_byte, escape3, lemma_escape3_append};
use crate::writer::{esc_byte, json_escape, lemma_json_escape_append};

verus! {

/// The value of a hexadecimal digit (either case).
pub open spec fn hex_value(d: u8) -> Option<u8> {
    if 48u8 <= d <= 57u8 {
        Some((d - 48) as u8)
    } else if 97u8 <= d <= 102u8 {
        Some((d - 87) as u8)
    } else if 65u8 <= d <= 70u8 {
        Some((d - 55) as u8)
    } else {
        None
    }
}

/// The byte a two-character escape `\e` stands for.
pub open spec fn short_escape(e: u8) -> Option<u8> {
    if e == 34u8 {
        Some(34u8)
    } else if e == 92u8 {
        Some(92u8)
    } else if e == 47u8 {
        Some(47u8)
    } else if e == 98u8 {
        Some(8u8)
    } else if e == 102u8 {
        Some(12u8)
    } else if e == 110u8 {
        Some(10u8)
    } else if e == 114u8 {
        Some(13u8)
    } else if e == 116u8 {
        Some(9u8)
    } else {
        None
    }
}

/// `c` in front of a decoded rest, if the rest decoded.
pub open spec fn cons(c: u8, r: Option<Seq<u8>>) -> Option<Seq<u8>> {
    match r {
        Some(s) => Some(seq![c] + s),
        None => None,
    }
}

/// JSON string content read back into the bytes it stands for, as a JSON
/// reader does: `\` starts an escape (the two-character ones, and `\u00hh`
/// for an ASCII byte), any other byte stands for itself. `None` when the
/// text could not be the inside of a JSON string: a bare `"`, a `\` at the
/// end, or an escape that is not one of these.
pub open spec fn unescape(t: Seq<u8>) -> Option<Seq<u8>>
    decreases t.len(),
{
    if t.len() == 0 {
        Some(seq![])
    } else if t[0] == 34u8 {
        None
    } else if t[0] == 92u8 {
        if t.len() < 2 {
            None
        } else if t[1] == 117u8 {
            if t.len() >= 6 && t[2] == 48u8 && t[3] == 48u8 && hex_value(t[4]) is Some && hex_value(t[5]) is Some
                && hex_value(t[4]).unwrap() < 8 {
                cons(
                    (hex_value(t[4]).unwrap() * 16 + hex_value(t[5]).unwrap()) as u8,
                    unescape(t.skip(6)),
                )
            } else {
                None
            }
        } else {
            match short_escape(t[1]) {
                Some(c) => cons(c, unescape(t.skip(2))),
                None => None,
            }
        }
    } else {
        cons(t[0], unescape(t.skip(1)))
    }
}

proof fn lemma_unescape_esc3(c: u8, rest: Seq<u8>)
    ensures
        unescape(esc3_byte(c) + rest) == cons(c, unescape(rest)),
{
    let t = esc3_byte(c) + rest;
    if c == 92u8 || c == 34u8 || c == 10u8 {
        assert(t[0] == 92u8);
        assert(t.skip(2) =~= rest);
    } else {
        assert(t[0] == c);
        assert(t.skip(1) =~= rest);
    }
}

/// What the minimal runtime escapes into a reply string reads back, as JSON
/// string content, as exactly the text it was given.
pub proof fn law_escape3_round_trips(s: Seq<u8>)
    ensures
        unescape(escape3(s)) == Some(s),
    decreases s.len(),
{
    if s.len() > 0 {
        let c = s[0];
        let rest = s.skip(1);
        assert(s =~= seq![c] + rest);
        lemma_escape3_append(seq![c], rest);
        assert(seq![c].drop_last() =~= Seq::<u8>::empty());
        assert(escape3(seq![c].drop_last()) == Seq::<u8>::empty());
        assert(seq![c].last() == c);
        assert(escape3(seq![c]) =~= esc3_byte(c));
        law_escape3_round_trips(rest);
        lemma_unescape_esc3(c, escape3(rest));
        assert(seq![c] + rest =~= s);
    }
}

/// Text the minimal runtime escapes never holds a line feed, so a reply
/// stays on one line.
pub proof fn law_escape3_is_one_line(s: Seq<u8>)
    ensures
        forall|i: int| 0 <= i < escape3(s).len() ==> #[trigger] escape3(s)[i] != 10u8,
    decreases s.len(),
{
    if s.len() > 0 {
        law_escape3_is_one_line(s.drop_last());
        let a = escape3(s.drop_last());
        let e = esc3_byte(s.last());
        assert forall|i: int| 0 <= i < escape3(s).len() implies #[trigger] escape3(s)[i] != 10u8 by {
            if i < a.len() {
                assert(escape3(s)[i] == a[i]);
            } else {
                assert(escape3(s)[i] == e[i - a.len()]);
            }
        }
    }
}

proof fn lemma_hex_digit_value(n: u8)
    requires
        n < 16,
    ensures
        hex_value(crate::writer::hex_digit(n)) == Some(n),
{
}

proof fn lemma_unescape_esc(c: u8, rest: Seq<u8>)
    ensures
        unescape(esc_byte(c) + rest) == cons(c, unescape(rest)),
{
    let t = esc_byte(c) + rest;
    if c == 34u8 || c == 92u8 || c == 10u8 || c == 13u8 || c == 9u8 || c == 8u8 || c == 12u8 {
        assert(t[0] == 92u8);
        assert(t.skip(2) =~= rest);
    } else if c < 32u8 {
        let hi = c / 16;
        let lo = c % 16;
        assert(hi < 2 && lo < 16 && hi * 16 + lo == c);
        lemma_hex_digit_value(hi);
        lemma_hex_digit_value(lo);
        assert(t[0] == 92u8 && t[1] == 117u8 && t[2] == 48u8 && t[3] == 48u8);
        assert(t[4] == crate::writer::hex_digit(hi) && t[5] == crate::writer::hex_digit(lo));
        assert(t.skip(6) =~= rest);
    } else {
        assert(t[0] == c);
        assert(t.skip(1) =~= rest);
    }
}

/// What the library escapes into a reply string reads back, as JSON string
/// content, as exactly the bytes it was given.
pub proof fn law_json_escape_round_trips(s: Seq<u8>)
    ensures
        unescape(json_escape(s)) == Some(s),
    decreases s.len(),
{
    if s.len() > 0 {
        let c = s[0];
        let rest = s.skip(1);
        lemma_json_escape_append(seq![c], rest);
        assert(seq![c].drop_last() =~= Seq::<u8>::empty());
        assert(json_escape(seq![c].drop_last()) == Seq::<u8>::empty());
        assert(seq![c].last() == c);
        assert(json_escape(seq![c]) =~= esc_byte(c));
        law_json_escape_round_trips(rest);
        lemma_unescape_esc(c, json_escape(rest));
        assert(seq![c] + rest =~= s);
    }
}

/// Escaped text holds no raw control byte, as JSON requires of string
/// content.
pub proof fn law_json_escape_is_clean(s: Seq<u8>)
    ensures
        forall|i: int| 0 <= i < json_escape(s).len() ==> #[trigger] json_escape(s)[i] >= 32u8,
    decreases s.len(),
{
    if s.len() > 0 {
        law_json_escape_is_clean(s.drop_last());
        let a = json_escape(s.drop_last());
        let e = esc_byte(s.last());
        let c = s.last();
        if c < 32u8 && !(c == 10u8 || c == 13u8 || c == 9u8 || c == 8u8 || c == 12u8) {
            lemma_hex_digit_value(c / 16);
            lemma_hex_digit_value(c % 16);
        }
        assert forall|i: int| 0 <= i < json_escape(s).len() implies #[trigger] json_escape(s)[i] >= 32u8 by {
            if i < a.len() {
                assert(json_escape(s)[i] == a[i]);
            } else {
                assert(json_escape(s)[i] == e[i - a.len()]);
            }
        }
    }
}

} // verus!
