use vstd::prelude::*;

use crate::corrmap::{map_wf, PairsView, PartnersView, RowsView};

verus! {

// The persisted text of a correspondence map: how it is written, and how a
// text is read.

/// The character of decimal digit `d`.
pub open spec fn digit_char(d: int) -> char {
    ((48 + d) as u8) as char
}

/// The character of hexadecimal digit `d`, lower case.
pub open spec fn hex_char(d: int) -> char {
    if d < 10 {
        ((48 + d) as u8) as char
    } else {
        ((87 + d) as u8) as char
    }
}

/// The decimal digits of `n`, without leading zeros.
pub open spec fn digits(n: nat) -> Seq<char>
    decreases n,
{
    if n < 10 {
        seq![digit_char(n as int)]
    } else {
        digits(n / 10).push(digit_char((n % 10) as int))
    }
}

/// How a character stands inside a quoted string: quote and backslash
/// escaped, control characters as short escapes or `\u00XX`.
pub open spec fn esc_char(c: char) -> Seq<char> {
    if c == '"' {
        seq!['\\', '"']
    } else if c == '\\' {
        seq!['\\', '\\']
    } else if c == '\n' {
        seq!['\\', 'n']
    } else if c == '\r' {
        seq!['\\', 'r']
    } else if c == '\t' {
        seq!['\\', 't']
    } else if c == '\u{8}' {
        seq!['\\', 'b']
    } else if c == '\u{c}' {
        seq!['\\', 'f']
    } else if (c as u32) < 0x20 {
        seq!['\\', 'u', '0', '0', hex_char(((c as u32) / 16) as int), hex_char(((c as u32) % 16) as int)]
    } else {
        seq![c]
    }
}

/// The characters of `s`, each escaped.
pub open spec fn esc_str(s: Seq<char>) -> Seq<char>
    decreases s.len(),
{
    if s.len() == 0 {
        Seq::empty()
    } else {
        esc_char(s[0]) + esc_str(s.drop_first())
    }
}

/// `s` as a quoted string.
pub open spec fn enc_str(s: Seq<char>) -> Seq<char> {
    seq!['"'] + esc_str(s) + seq!['"']
}

/// The items of a non-empty list, each written by `f`, separated by commas.
pub open spec fn enc_items<T>(s: Seq<T>, f: spec_fn(T) -> Seq<char>) -> Seq<char>
    decreases s.len(),
{
    if s.len() <= 1 {
        if s.len() == 1 {
            f(s[0])
        } else {
            Seq::empty()
        }
    } else {
        f(s[0]) + seq![','] + enc_items(s.drop_first(), f)
    }
}

/// A list between `open` and `close`.
pub open spec fn enc_list<T>(s: Seq<T>, open: char, close: char, f: spec_fn(T) -> Seq<char>) -> Seq<char> {
    seq![open] + enc_items(s, f) + seq![close]
}

/// One index pair, as a two-element array.
pub open spec fn enc_pair(p: (usize, usize)) -> Seq<char> {
    seq!['['] + digits(p.0 as nat) + seq![','] + digits(p.1 as nat) + seq![']']
}

pub open spec fn pair_writer() -> spec_fn((usize, usize)) -> Seq<char> {
    |p: (usize, usize)| enc_pair(p)
}

/// A list of index pairs, as an array.
pub open spec fn enc_pairs(s: PairsView) -> Seq<char> {
    enc_list(s, '[', ']', pair_writer())
}

/// One partner with its pairs, as an object member.
pub open spec fn enc_partner(e: (Seq<char>, PairsView)) -> Seq<char> {
    enc_str(e.0) + seq![':'] + enc_pairs(e.1)
}

pub open spec fn partner_writer() -> spec_fn((Seq<char>, PairsView)) -> Seq<char> {
    |e: (Seq<char>, PairsView)| enc_partner(e)
}

/// The partners of one track, as an object.
pub open spec fn enc_partners(s: PartnersView) -> Seq<char> {
    enc_list(s, '{', '}', partner_writer())
}

/// One row, as an object member.
pub open spec fn enc_row(e: (Seq<char>, PartnersView)) -> Seq<char> {
    enc_str(e.0) + seq![':'] + enc_partners(e.1)
}

pub open spec fn row_writer() -> spec_fn((Seq<char>, PartnersView)) -> Seq<char> {
    |e: (Seq<char>, PartnersView)| enc_row(e)
}

/// The persisted form of a correspondence map: a JSON object from track to
/// an object from partner to an array of two-element index arrays.
pub open spec fn enc_rows(s: RowsView) -> Seq<char> {
    enc_list(s, '{', '}', row_writer())
}

/// `t` holds `c` at `pos`.
pub open spec fn at(t: Seq<char>, pos: int, c: char) -> bool {
    0 <= pos < t.len() && t[pos] == c
}

/// JSON whitespace: space, tab, line feed, carriage return.
pub open spec fn is_ws(c: char) -> bool {
    c == ' ' || c == '\t' || c == '\n' || c == '\r'
}

/// The end of the run of whitespace that starts at `pos`.
pub open spec fn ws_end(t: Seq<char>, pos: int) -> int
    decreases t.len() - pos,
{
    if 0 <= pos < t.len() && is_ws(t[pos]) {
        ws_end(t, pos + 1)
    } else {
        pos
    }
}

pub open spec fn is_digit(c: char) -> bool {
    '0' <= c && c <= '9'
}

/// The end of the run of decimal digits that starts at `pos`.
pub open spec fn digits_end(t: Seq<char>, pos: int) -> int
    decreases t.len() - pos,
{
    if 0 <= pos < t.len() && is_digit(t[pos]) {
        digits_end(t, pos + 1)
    } else {
        pos
    }
}

/// The number that a run of decimal digits writes.
pub open spec fn dec_value(s: Seq<char>) -> nat
    decreases s.len(),
{
    if s.len() == 0 {
        0
    } else {
        dec_value(s.drop_last()) * 10 + ((s.last() as int - 48) as nat)
    }
}

/// A non-negative integer that fits in `usize`, after whitespace from `pos`,
/// and where it ends.
pub open spec fn parse_uint(t: Seq<char>, pos: int) -> Option<(usize, int)> {
    let a = ws_end(t, pos);
    let e = digits_end(t, a);
    if a < e && dec_value(t.subrange(a, e)) <= usize::MAX {
        Some((dec_value(t.subrange(a, e)) as usize, e))
    } else {
        None
    }
}

/// The value of a hexadecimal digit.
pub open spec fn hex_value(c: char) -> Option<int> {
    if '0' <= c && c <= '9' {
        Some(c as int - 48)
    } else if 'a' <= c && c <= 'f' {
        Some(c as int - 87)
    } else if 'A' <= c && c <= 'F' {
        Some(c as int - 55)
    } else {
        None
    }
}

/// The number written by the four hexadecimal digits at `pos`.
pub open spec fn hex4(t: Seq<char>, pos: int) -> Option<int> {
    if 0 <= pos && pos + 4 <= t.len() && hex_value(t[pos]) is Some && hex_value(t[pos + 1]) is Some
        && hex_value(t[pos + 2]) is Some && hex_value(t[pos + 3]) is Some {
        Some(
            hex_value(t[pos]).unwrap() * 4096 + hex_value(t[pos + 1]).unwrap() * 256 + hex_value(
                t[pos + 2],
            ).unwrap() * 16 + hex_value(t[pos + 3]).unwrap(),
        )
    } else {
        None
    }
}

/// The scalar value of a character.
pub open spec fn code_of(c: char) -> int {
    (c as u32) as int
}

/// The character whose scalar value is `code`.
pub open spec fn char_with_code(code: int) -> char {
    choose|c: char| #[trigger] code_of(c) == code
}

/// The character chosen for the scalar value of `c` is `c`.
pub proof fn lemma_char_code(c: char)
    ensures
        char_with_code(code_of(c)) == c,
{
    assert(code_of(c) == code_of(c));
}

/// `\u` followed by four hexadecimal digits at `pos`: their value.
pub open spec fn u_escape(t: Seq<char>, pos: int) -> Option<int> {
    if at(t, pos, '\\') && at(t, pos + 1, 'u') {
        hex4(t, pos + 2)
    } else {
        None
    }
}

/// The character of a `\u` escape at `pos` (a surrogate pair takes two),
/// and where it ends.
pub open spec fn parse_u_escape(t: Seq<char>, pos: int) -> Option<(char, int)> {
    match u_escape(t, pos) {
        Some(hi) => if 0xD800 <= hi && hi <= 0xDBFF {
            match u_escape(t, pos + 6) {
                Some(lo) => if 0xDC00 <= lo && lo <= 0xDFFF {
                    Some((char_with_code(0x10000 + (hi - 0xD800) * 1024 + (lo - 0xDC00)), pos + 12))
                } else {
                    None
                },
                None => None,
            }
        } else if 0xDC00 <= hi && hi <= 0xDFFF {
            None
        } else {
            Some((char_with_code(hi), pos + 6))
        },
        None => None,
    }
}

/// One character of a quoted string at `pos`, escaped or not, and where it ends.
pub open spec fn parse_char(t: Seq<char>, pos: int) -> Option<(char, int)> {
    if !(0 <= pos < t.len()) {
        None
    } else if t[pos] == '\\' {
        if pos + 1 >= t.len() {
            None
        } else {
            let e = t[pos + 1];
            if e == '"' {
                Some(('"', pos + 2))
            } else if e == '\\' {
                Some(('\\', pos + 2))
            } else if e == '/' {
                Some(('/', pos + 2))
            } else if e == 'n' {
                Some(('\n', pos + 2))
            } else if e == 'r' {
                Some(('\r', pos + 2))
            } else if e == 't' {
                Some(('\t', pos + 2))
            } else if e == 'b' {
                Some(('\u{8}', pos + 2))
            } else if e == 'f' {
                Some(('\u{c}', pos + 2))
            } else if e == 'u' {
                parse_u_escape(t, pos)
            } else {
                None
            }
        }
    } else if t[pos] == '"' || (t[pos] as u32) < 0x20 {
        None
    } else {
        Some((t[pos], pos + 1))
    }
}

/// The rest of a quoted string from `pos` up to and including its closing
/// quote.
pub open spec fn parse_str_body(t: Seq<char>, pos: int) -> Option<(Seq<char>, int)>
    decreases t.len() - pos,
{
    if at(t, pos, '"') {
        Some((Seq::empty(), pos + 1))
    } else {
        match parse_char(t, pos) {
            Some((c, e)) => if pos < e <= t.len() {
                match parse_str_body(t, e) {
                    Some((s, e2)) => Some((seq![c] + s, e2)),
                    None => None,
                }
            } else {
                None
            },
            None => None,
        }
    }
}

/// A quoted string after whitespace from `pos`.
pub open spec fn parse_string(t: Seq<char>, pos: int) -> Option<(Seq<char>, int)> {
    let a = ws_end(t, pos);
    if at(t, a, '"') {
        parse_str_body(t, a + 1)
    } else {
        None
    }
}

/// Puts `acc` in front of the items that `r` found.
pub open spec fn prepend<T>(acc: Seq<T>, r: Option<(Seq<T>, int)>) -> Option<(Seq<T>, int)> {
    match r {
        Some((s, e)) => Some((acc + s, e)),
        None => None,
    }
}

/// Items read by `p` from `pos`, separated by commas, up to and including
/// `close`; whitespace may stand around each comma and before `close`.
pub open spec fn parse_items<T>(
    t: Seq<char>,
    pos: int,
    close: char,
    p: spec_fn(Seq<char>, int) -> Option<(T, int)>,
) -> Option<(Seq<T>, int)>
    decreases t.len() - pos,
{
    match p(t, pos) {
        Some((v, e)) => {
            let f = ws_end(t, e);
            if at(t, f, close) {
                Some((seq![v], f + 1))
            } else if at(t, f, ',') && pos < f {
                prepend(seq![v], parse_items(t, f + 1, close, p))
            } else {
                None
            }
        },
        None => None,
    }
}

/// A list between `open` and `close`, after whitespace from `pos`.
pub open spec fn parse_list<T>(
    t: Seq<char>,
    pos: int,
    open: char,
    close: char,
    p: spec_fn(Seq<char>, int) -> Option<(T, int)>,
) -> Option<(Seq<T>, int)> {
    let a = ws_end(t, pos);
    if at(t, a, open) {
        let b = ws_end(t, a + 1);
        if at(t, b, close) {
            Some((Seq::empty(), b + 1))
        } else {
            parse_items(t, a + 1, close, p)
        }
    } else {
        None
    }
}

/// An index pair after whitespace from `pos`.
pub open spec fn parse_pair(t: Seq<char>, pos: int) -> Option<((usize, usize), int)> {
    let a = ws_end(t, pos);
    if at(t, a, '[') {
        match parse_uint(t, a + 1) {
            Some((x, e1)) => {
                let c = ws_end(t, e1);
                if at(t, c, ',') {
                    match parse_uint(t, c + 1) {
                        Some((y, e2)) => {
                            let d = ws_end(t, e2);
                            if at(t, d, ']') {
                                Some(((x, y), d + 1))
                            } else {
                                None
                            }
                        },
                        None => None,
                    }
                } else {
                    None
                }
            },
            None => None,
        }
    } else {
        None
    }
}

pub open spec fn pair_reader() -> spec_fn(Seq<char>, int) -> Option<((usize, usize), int)> {
    |t: Seq<char>, pos: int| parse_pair(t, pos)
}

/// A partner member after whitespace from `pos`.
pub open spec fn parse_partner(t: Seq<char>, pos: int) -> Option<((Seq<char>, PairsView), int)> {
    match parse_string(t, pos) {
        Some((k, e1)) => {
            let c = ws_end(t, e1);
            if at(t, c, ':') {
                match parse_list(t, c + 1, '[', ']', pair_reader()) {
                    Some((v, e2)) => Some(((k, v), e2)),
                    None => None,
                }
            } else {
                None
            }
        },
        None => None,
    }
}

pub open spec fn partner_reader() -> spec_fn(Seq<char>, int) -> Option<((Seq<char>, PairsView), int)> {
    |t: Seq<char>, pos: int| parse_partner(t, pos)
}

/// A row member after whitespace from `pos`.
pub open spec fn parse_row(t: Seq<char>, pos: int) -> Option<((Seq<char>, PartnersView), int)> {
    match parse_string(t, pos) {
        Some((k, e1)) => {
            let c = ws_end(t, e1);
            if at(t, c, ':') {
                match parse_list(t, c + 1, '{', '}', partner_reader()) {
                    Some((v, e2)) => Some(((k, v), e2)),
                    None => None,
                }
            } else {
                None
            }
        },
        None => None,
    }
}

pub open spec fn row_reader() -> spec_fn(Seq<char>, int) -> Option<((Seq<char>, PartnersView), int)> {
    |t: Seq<char>, pos: int| parse_row(t, pos)
}

/// The correspondence map that the text `t` holds, if it holds one: the
/// whole text, whitespace around tokens aside, is one object of rows, and no
/// key repeats within an object.
pub open spec fn decode_rows(t: Seq<char>) -> Option<RowsView> {
    match parse_list(t, 0, '{', '}', row_reader()) {
        Some((v, e)) => if ws_end(t, e) == t.len() && map_wf(v) {
            Some(v)
        } else {
            None
        },
        None => None,
    }
}

} // verus!
