use vstd::prelude::*;

use crate::artifact::format::{
    lemma_char_code,
    code_of, dec_value, decode_rows, digits_end, hex4, hex_value, pair_reader, parse_char, parse_items, parse_list, parse_pair, parse_partner, parse_row, parse_str_body, parse_string, parse_u_escape, parse_uint, partner_reader, prepend, row_reader, u_escape, ws_end,
};
use crate::corrmap::{
    keys_unique, map_wf, partners_view, rows_view, CorrespondenceMap, PairsView, PartnersView,
};
use crate::error::TrackError;
use crate::text::{char_from_code, chars_of, string_from_chars};

verus! {

fn skip_ws(t: &Vec<char>, pos: usize) -> (r: usize)
    requires
        pos <= t@.len(),
    ensures
        r as int == ws_end(t@, pos as int),
        pos <= r <= t@.len(),
{
    let n = t.len();
    let mut k: usize = pos;
    while k < n && (t[k] == ' ' || t[k] == '\t' || t[k] == '\n' || t[k] == '\r')
        invariant
            n == t@.len(),
            pos <= k <= n,
            ws_end(t@, pos as int) == ws_end(t@, k as int),
        decreases n - k,
    {
        k = k + 1;
    }
    k
}

fn parse_uint_at(t: &Vec<char>, pos: usize) -> (r: Option<(usize, usize)>)
    requires
        pos <= t@.len(),
    ensures
        match r {
            Some((v, e)) => parse_uint(t@, pos as int) == Some((v, e as int)) && pos < e <= t@.len(),
            None => parse_uint(t@, pos as int) is None,
        },
{
    let n = t.len();
    let start = skip_ws(t, pos);
    let mut k: usize = start;
    let mut acc: usize = 0;
    let mut overflow = false;
    while k < n && '0' <= t[k] && t[k] <= '9'
        invariant
            n == t@.len(),
            start <= k <= n,
            digits_end(t@, start as int) == digits_end(t@, k as int),
            !overflow ==> acc == dec_value(t@.subrange(start as int, k as int)),
            overflow ==> dec_value(t@.subrange(start as int, k as int)) > usize::MAX,
        decreases n - k,
    {
        let d = (t[k] as u32 - 48) as usize;
        let ghost sub = t@.subrange(start as int, k + 1);
        assert(sub.drop_last() == t@.subrange(start as int, k as int));
        assert(sub.last() == t@[k as int]);
        assert(dec_value(sub) == dec_value(t@.subrange(start as int, k as int)) * 10 + d);
        if !overflow {
            if acc > (usize::MAX - d) / 10 {
                assert(acc * 10 + d > usize::MAX) by (nonlinear_arith)
                    requires
                        acc > (usize::MAX - d) / 10,
                        d < 10,
                ;
                overflow = true;
            } else {
                assert(acc * 10 + d <= usize::MAX) by (nonlinear_arith)
                    requires
                        acc <= (usize::MAX - d) / 10,
                        d < 10,
                ;
                acc = acc * 10 + d;
            }
        }
        k = k + 1;
    }
    if k == start || overflow {
        None
    } else {
        Some((acc, k))
    }
}

fn hex_at(c: char) -> (r: Option<u32>)
    ensures
        match r {
            Some(v) => hex_value(c) == Some(v as int) && v < 16,
            None => hex_value(c) is None,
        },
{
    if '0' <= c && c <= '9' {
        Some(c as u32 - 48)
    } else if 'a' <= c && c <= 'f' {
        Some(c as u32 - 87)
    } else if 'A' <= c && c <= 'F' {
        Some(c as u32 - 55)
    } else {
        None
    }
}

fn hex4_at(t: &Vec<char>, pos: usize) -> (r: Option<u32>)
    ensures
        match r {
            Some(v) => hex4(t@, pos as int) == Some(v as int) && v < 0x10000,
            None => hex4(t@, pos as int) is None,
        },
{
    if !(pos <= t.len() && t.len() - pos >= 4) {
        return None;
    }
    match (hex_at(t[pos]), hex_at(t[pos + 1]), hex_at(t[pos + 2]), hex_at(t[pos + 3])) {
        (Some(a), Some(b), Some(c), Some(d)) => Some(a * 4096 + b * 256 + c * 16 + d),
        _ => None,
    }
}

fn u_escape_at(t: &Vec<char>, pos: usize) -> (r: Option<u32>)
    ensures
        match r {
            Some(v) => u_escape(t@, pos as int) == Some(v as int) && v < 0x10000 && pos + 6
                <= t@.len(),
            None => u_escape(t@, pos as int) is None,
        },
{
    if pos < t.len() && t.len() - pos >= 2 && t[pos] == '\\' && t[pos + 1] == 'u' {
        hex4_at(t, pos + 2)
    } else {
        None
    }
}

fn parse_u_escape_at(t: &Vec<char>, pos: usize) -> (r: Option<(char, usize)>)
    requires
        pos < t@.len(),
    ensures
        match r {
            Some((c, e)) => parse_u_escape(t@, pos as int) == Some((c, e as int)),
            None => parse_u_escape(t@, pos as int) is None,
        },
{
    let first = u_escape_at(t, pos);
    let hi = match first {
        Some(v) => v,
        None => {
            return None;
        },
    };
    let n = t.len();
    assert(pos + 6 <= n);
    let after_first: usize = pos + 6;
    let (code, end) = if 0xD800 <= hi && hi <= 0xDBFF {
        if t.len() - pos < 6 {
            assert(u_escape(t@, pos + 6) is None);
            return None;
        }
        let lo = match u_escape_at(t, pos + 6) {
            Some(v) => v,
            None => {
                return None;
            },
        };
        if !(0xDC00 <= lo && lo <= 0xDFFF) {
            return None;
        }
        (0x10000 + (hi - 0xD800) * 1024 + (lo - 0xDC00), pos + 12)
    } else if 0xDC00 <= hi && hi <= 0xDFFF {
        return None;
    } else {
        (hi, after_first)
    };
    match char_from_code(code) {
        Some(c) => {
            assert(code_of(c) == code as int);
            proof {
                lemma_char_code(c);
            }
            Some((c, end))
        },
        None => None,
    }
}

fn parse_char_at(t: &Vec<char>, pos: usize) -> (r: Option<(char, usize)>)
    requires
        pos < t@.len(),
    ensures
        match r {
            Some((c, e)) => parse_char(t@, pos as int) == Some((c, e as int)),
            None => parse_char(t@, pos as int) is None,
        },
{
    let n = t.len();
    let c = t[pos];
    if c == '\\' {
        if pos + 1 >= n {
            return None;
        }
        let e = t[pos + 1];
        if e == '"' {
            Some(('"', pos + 2))
        } else if e == '\\' {
            Some(('\\', pos + 2))
        } else if e == '/' {
            Some(('/', pos + 2))
        } else if e == 'n' {
            Some(('\n', pos + 2))
        } else if e == 'r' {
            Some(('\r', pos + 2))
        } else if e == 't' {
            Some(('\t', pos + 2))
        } else if e == 'b' {
            Some(('\u{8}', pos + 2))
        } else if e == 'f' {
            Some(('\u{c}', pos + 2))
        } else if e == 'u' {
            parse_u_escape_at(t, pos)
        } else {
            None
        }
    } else if c == '"' || (c as u32) < 0x20 {
        None
    } else {
        Some((c, pos + 1))
    }
}

fn parse_string_at(t: &Vec<char>, pos: usize) -> (r: Option<(String, usize)>)
    requires
        pos <= t@.len(),
    ensures
        match r {
            Some((s, e)) => parse_string(t@, pos as int) == Some((s@, e as int)) && pos < e <= t@.len(),
            None => parse_string(t@, pos as int) is None,
        },
{
    let n = t.len();
    let a = skip_ws(t, pos);
    if !(a < n && t[a] == '"') {
        return None;
    }
    let mut acc: Vec<char> = Vec::new();
    let mut k: usize = a + 1;
    while k < n
        invariant
            n == t@.len(),
            a + 1 <= k <= n,
            a as int == ws_end(t@, pos as int),
            pos <= a,
            t@[a as int] == '"',
            parse_str_body(t@, a + 1) == prepend(acc@, parse_str_body(t@, k as int)),
        decreases n - k,
    {
        if t[k] == '"' {
            let s = string_from_chars(&acc);
            assert(parse_str_body(t@, k as int) == Some((Seq::<char>::empty(), k + 1)));
            assert(acc@ + Seq::<char>::empty() == acc@);
            return Some((s, k + 1));
        }
        match parse_char_at(t, k) {
            None => {
                return None;
            },
            Some((c, e)) => {
                proof {
                    let rest = parse_str_body(t@, e as int);
                    match rest {
                        Some((s2, e2)) => {
                            assert(acc@.push(c) + s2 == acc@ + (seq![c] + s2));
                        },
                        None => {},
                    }
                }
                acc.push(c);
                k = e;
            },
        }
    }
    None
}

fn parse_pair_at(t: &Vec<char>, pos: usize) -> (r: Option<((usize, usize), usize)>)
    requires
        pos <= t@.len(),
    ensures
        match r {
            Some((v, e)) => parse_pair(t@, pos as int) == Some((v, e as int)) && pos < e <= t@.len(),
            None => parse_pair(t@, pos as int) is None,
        },
{
    let n = t.len();
    let start = skip_ws(t, pos);
    if !(start < n && t[start] == '[') {
        return None;
    }
    let (a, e1) = match parse_uint_at(t, start + 1) {
        Some(x) => x,
        None => {
            return None;
        },
    };
    let c = skip_ws(t, e1);
    if !(c < n && t[c] == ',') {
        return None;
    }
    let (b, e2) = match parse_uint_at(t, c + 1) {
        Some(x) => x,
        None => {
            return None;
        },
    };
    let d = skip_ws(t, e2);
    if !(d < n && t[d] == ']') {
        return None;
    }
    Some(((a, b), d + 1))
}

fn parse_pairs_at(t: &Vec<char>, pos: usize) -> (r: Option<(Vec<(usize, usize)>, usize)>)
    requires
        pos <= t@.len(),
    ensures
        match r {
            Some((v, e)) => parse_list(t@, pos as int, '[', ']', pair_reader()) == Some(
                (v@, e as int),
            ) && pos < e <= t@.len(),
            None => parse_list(t@, pos as int, '[', ']', pair_reader()) is None,
        },
{
    let n = t.len();
    let start = skip_ws(t, pos);
    if !(start < n && t[start] == '[') {
        return None;
    }
    let b = skip_ws(t, start + 1);
    if b < n && t[b] == ']' {
        return Some((Vec::new(), b + 1));
    }
    let mut acc: Vec<(usize, usize)> = Vec::new();
    let mut k: usize = start + 1;
    while k < n
        invariant
            n == t@.len(),
            start + 1 <= k <= n,
            pos <= start,
            parse_list(t@, pos as int, '[', ']', pair_reader()) == prepend(
                acc@,
                parse_items(t@, k as int, ']', pair_reader()),
            ),
        decreases n - k,
    {
        match parse_pair_at(t, k) {
            None => {
                return None;
            },
            Some((v, e)) => {
                let g = skip_ws(t, e);
                if g < n && t[g] == ']' {
                    acc.push(v);
                    return Some((acc, g + 1));
                } else if g < n && t[g] == ',' {
                    proof {
                        match parse_items(t@, g + 1, ']', pair_reader()) {
                            Some((s2, e2)) => {
                                assert(acc@.push(v) + s2 == acc@ + (seq![v] + s2));
                            },
                            None => {},
                        }
                    }
                    acc.push(v);
                    k = g + 1;
                } else {
                    return None;
                }
            },
        }
    }
    None
}

fn parse_partner_at(t: &Vec<char>, pos: usize) -> (r: Option<((String, Vec<(usize, usize)>), usize)>)
    requires
        pos <= t@.len(),
    ensures
        match r {
            Some((v, e)) => parse_partner(t@, pos as int) == Some(((v.0@, v.1@), e as int)) && pos
                < e <= t@.len(),
            None => parse_partner(t@, pos as int) is None,
        },
{
    let n = t.len();
    let (k, e1) = match parse_string_at(t, pos) {
        Some(x) => x,
        None => {
            return None;
        },
    };
    let c = skip_ws(t, e1);
    if !(c < n && t[c] == ':') {
        return None;
    }
    let (v, e2) = match parse_pairs_at(t, c + 1) {
        Some(x) => x,
        None => {
            return None;
        },
    };
    Some(((k, v), e2))
}

fn parse_partners_at(t: &Vec<char>, pos: usize) -> (r: Option<(Vec<(String, Vec<(usize, usize)>)>, usize)>)
    requires
        pos <= t@.len(),
    ensures
        match r {
            Some((v, e)) => parse_list(t@, pos as int, '{', '}', partner_reader()) == Some(
                (partners_view(v@), e as int),
            ) && pos < e <= t@.len(),
            None => parse_list(t@, pos as int, '{', '}', partner_reader()) is None,
        },
{
    let n = t.len();
    let start = skip_ws(t, pos);
    if !(start < n && t[start] == '{') {
        return None;
    }
    let b = skip_ws(t, start + 1);
    if b < n && t[b] == '}' {
        let empty: Vec<(String, Vec<(usize, usize)>)> = Vec::new();
        assert(partners_view(empty@) == Seq::<(Seq<char>, PairsView)>::empty());
        return Some((empty, b + 1));
    }
    let mut acc: Vec<(String, Vec<(usize, usize)>)> = Vec::new();
    let mut k: usize = start + 1;
    while k < n
        invariant
            n == t@.len(),
            start + 1 <= k <= n,
            pos <= start,
            parse_list(t@, pos as int, '{', '}', partner_reader()) == prepend(
                partners_view(acc@),
                parse_items(t@, k as int, '}', partner_reader()),
            ),
        decreases n - k,
    {
        match parse_partner_at(t, k) {
            None => {
                return None;
            },
            Some((v, e)) => {
                let ghost vv = (v.0@, v.1@);
                let ghost before = partners_view(acc@);
                let g = skip_ws(t, e);
                if g < n && t[g] == '}' {
                    acc.push(v);
                    assert(partners_view(acc@) == before.push(vv));
                    assert(before + seq![vv] == before.push(vv));
                    return Some((acc, g + 1));
                } else if g < n && t[g] == ',' {
                    acc.push(v);
                    assert(partners_view(acc@) == before.push(vv));
                    proof {
                        match parse_items(t@, g + 1, '}', partner_reader()) {
                            Some((s2, e2)) => {
                                assert(before.push(vv) + s2 == before + (seq![vv] + s2));
                            },
                            None => {},
                        }
                    }
                    k = g + 1;
                } else {
                    return None;
                }
            },
        }
    }
    None
}

fn parse_row_at(t: &Vec<char>, pos: usize) -> (r: Option<((String, Vec<(String, Vec<(usize, usize)>)>), usize)>)
    requires
        pos <= t@.len(),
    ensures
        match r {
            Some((v, e)) => parse_row(t@, pos as int) == Some(((v.0@, partners_view(v.1@)), e as int))
                && pos < e <= t@.len(),
            None => parse_row(t@, pos as int) is None,
        },
{
    let n = t.len();
    let (k, e1) = match parse_string_at(t, pos) {
        Some(x) => x,
        None => {
            return None;
        },
    };
    let c = skip_ws(t, e1);
    if !(c < n && t[c] == ':') {
        return None;
    }
    let (v, e2) = match parse_partners_at(t, c + 1) {
        Some(x) => x,
        None => {
            return None;
        },
    };
    Some(((k, v), e2))
}

fn parse_rows_at(t: &Vec<char>, pos: usize) -> (r: Option<(Vec<(String, Vec<(String, Vec<(usize, usize)>)>)>, usize)>)
    requires
        pos <= t@.len(),
    ensures
        match r {
            Some((v, e)) => parse_list(t@, pos as int, '{', '}', row_reader()) == Some(
                (rows_view(v@), e as int),
            ) && pos < e <= t@.len(),
            None => parse_list(t@, pos as int, '{', '}', row_reader()) is None,
        },
{
    let n = t.len();
    let start = skip_ws(t, pos);
    if !(start < n && t[start] == '{') {
        return None;
    }
    let b = skip_ws(t, start + 1);
    if b < n && t[b] == '}' {
        let empty: Vec<(String, Vec<(String, Vec<(usize, usize)>)>)> = Vec::new();
        assert(rows_view(empty@) == Seq::<(Seq<char>, PartnersView)>::empty());
        return Some((empty, b + 1));
    }
    let mut acc: Vec<(String, Vec<(String, Vec<(usize, usize)>)>)> = Vec::new();
    let mut k: usize = start + 1;
    while k < n
        invariant
            n == t@.len(),
            start + 1 <= k <= n,
            pos <= start,
            parse_list(t@, pos as int, '{', '}', row_reader()) == prepend(
                rows_view(acc@),
                parse_items(t@, k as int, '}', row_reader()),
            ),
        decreases n - k,
    {
        match parse_row_at(t, k) {
            None => {
                return None;
            },
            Some((v, e)) => {
                let ghost vv = (v.0@, partners_view(v.1@));
                let ghost before = rows_view(acc@);
                let g = skip_ws(t, e);
                if g < n && t[g] == '}' {
                    acc.push(v);
                    assert(rows_view(acc@) == before.push(vv));
                    assert(before + seq![vv] == before.push(vv));
                    return Some((acc, g + 1));
                } else if g < n && t[g] == ',' {
                    acc.push(v);
                    assert(rows_view(acc@) == before.push(vv));
                    proof {
                        match parse_items(t@, g + 1, '}', row_reader()) {
                            Some((s2, e2)) => {
                                assert(before.push(vv) + s2 == before + (seq![vv] + s2));
                            },
                            None => {},
                        }
                    }
                    k = g + 1;
                } else {
                    return None;
                }
            },
        }
    }
    None
}

fn partner_keys_unique(v: &Vec<(String, Vec<(usize, usize)>)>) -> (r: bool)
    ensures
        r == keys_unique(partners_view(v@)),
{
    let ghost pv = partners_view(v@);
    let n = v.len();
    let mut i: usize = 0;
    while i < n
        invariant
            n == v@.len(),
            pv == partners_view(v@),
            i <= n,
            forall|a: int, b: int| 0 <= a < i && a < b < n ==> pv[a].0 != pv[b].0,
        decreases n - i,
    {
        let mut j: usize = i + 1;
        while j < n
            invariant
                n == v@.len(),
                pv == partners_view(v@),
                i < n,
                i + 1 <= j <= n,
                forall|a: int, b: int| 0 <= a < i && a < b < n ==> pv[a].0 != pv[b].0,
                forall|b: int| i < b < j ==> pv[i as int].0 != pv[b].0,
            decreases n - j,
        {
            if v[i].0.eq(&v[j].0) {
                assert(pv[i as int].0 == pv[j as int].0);
                return false;
            }
            j = j + 1;
        }
        i = i + 1;
    }
    true
}

fn row_keys_unique(v: &Vec<(String, Vec<(String, Vec<(usize, usize)>)>)>) -> (r: bool)
    ensures
        r == keys_unique(rows_view(v@)),
{
    let ghost rv = rows_view(v@);
    let n = v.len();
    let mut i: usize = 0;
    while i < n
        invariant
            n == v@.len(),
            rv == rows_view(v@),
            i <= n,
            forall|a: int, b: int| 0 <= a < i && a < b < n ==> rv[a].0 != rv[b].0,
        decreases n - i,
    {
        let mut j: usize = i + 1;
        while j < n
            invariant
                n == v@.len(),
                rv == rows_view(v@),
                i < n,
                i + 1 <= j <= n,
                forall|a: int, b: int| 0 <= a < i && a < b < n ==> rv[a].0 != rv[b].0,
                forall|b: int| i < b < j ==> rv[i as int].0 != rv[b].0,
            decreases n - j,
        {
            if v[i].0.eq(&v[j].0) {
                assert(rv[i as int].0 == rv[j as int].0);
                return false;
            }
            j = j + 1;
        }
        i = i + 1;
    }
    true
}

fn rows_wf(v: &Vec<(String, Vec<(String, Vec<(usize, usize)>)>)>) -> (r: bool)
    ensures
        r == map_wf(rows_view(v@)),
{
    let ghost rv = rows_view(v@);
    if !row_keys_unique(v) {
        return false;
    }
    let n = v.len();
    let mut i: usize = 0;
    while i < n
        invariant
            n == v@.len(),
            rv == rows_view(v@),
            i <= n,
            keys_unique(rv),
            forall|a: int| 0 <= a < i ==> keys_unique(#[trigger] rv[a].1),
        decreases n - i,
    {
        if !partner_keys_unique(&v[i].1) {
            assert(rv[i as int].1 == partners_view(v@[i as int].1@));
            return false;
        }
        i = i + 1;
    }
    true
}

/// Reads a persisted correspondence map back from its text. Fails with
/// `DecodeFailure` where the text is not one object from track to an
/// object from partner to an array of index pairs, or where a key repeats
/// within an object.
pub fn load(text: &str) -> (r: Result<CorrespondenceMap, TrackError>)
    ensures
        match r {
            Ok(m) => decode_rows(text@) == Some(m@),
            Err(e) => decode_rows(text@) is None && e == TrackError::DecodeFailure,
        },
{
    let t = chars_of(text);
    match parse_rows_at(&t, 0) {
        Some((rows, e)) => {
            if skip_ws(&t, e) == t.len() && rows_wf(&rows) {
                Ok(CorrespondenceMap { rows })
            } else {
                Err(TrackError::DecodeFailure)
            }
        },
        None => Err(TrackError::DecodeFailure),
    }
}

} // verus!
