use vstd::prelude::*;

use crate::artifact::format::{
    lemma_char_code,
    at, char_with_code, code_of, dec_value, decode_rows, digit_char, digits, digits_end, enc_items, enc_list, enc_pair, enc_pairs, enc_partner, enc_partners, enc_row, enc_rows, enc_str, esc_char, esc_str, hex4, hex_char, hex_value, is_digit, is_ws, pair_reader, pair_writer, parse_char, parse_items, parse_list, parse_pair, parse_partner, parse_row, parse_str_body, parse_string, parse_u_escape, parse_uint, partner_reader, partner_writer, row_reader, row_writer, u_escape, ws_end,
};
use crate::corrmap::{map_wf, PairsView, PartnersView, RowsView};

verus! {

proof fn lemma_split(t: Seq<char>, pos: int, a: Seq<char>, b: Seq<char>)
    requires
        0 <= pos,
        pos + a.len() + b.len() <= t.len(),
        t.subrange(pos, pos + a.len() + b.len()) == a + b,
    ensures
        t.subrange(pos, pos + a.len()) == a,
        t.subrange(pos + a.len(), pos + a.len() + b.len()) == b,
{
    assert forall|k: int| 0 <= k < a.len() implies t.subrange(pos, pos + a.len())[k] == a[k] by {
        assert(t.subrange(pos, pos + a.len() + b.len())[k] == (a + b)[k]);
    }
    assert forall|k: int| 0 <= k < b.len() implies t.subrange(
        pos + a.len(),
        pos + a.len() + b.len(),
    )[k] == b[k] by {
        assert(t.subrange(pos, pos + a.len() + b.len())[a.len() + k] == (a + b)[a.len() + k]);
        assert(t.subrange(pos, pos + a.len() + b.len())[a.len() + k] == t[pos + a.len() + k]);
        assert(t.subrange(pos + a.len(), pos + a.len() + b.len())[k] == t[pos + a.len() + k]);
    }
    assert(t.subrange(pos, pos + a.len()) =~= a);
    assert(t.subrange(pos + a.len(), pos + a.len() + b.len()) =~= b);
}

proof fn lemma_ws_stop(t: Seq<char>, q: int)
    requires
        0 <= q <= t.len(),
        q == t.len() || !is_ws(t[q]),
    ensures
        ws_end(t, q) == q,
{
}

proof fn lemma_digits(n: nat)
    ensures
        digits(n).len() >= 1,
        dec_value(digits(n)) == n,
        forall|k: int| 0 <= k < digits(n).len() ==> is_digit(#[trigger] digits(n)[k]),
    decreases n,
{
    if n < 10 {
        assert(digits(n).drop_last().len() == 0);
        assert(digit_char(n as int) as int == 48 + n);
        assert(dec_value(digits(n)) == dec_value(digits(n).drop_last()) * 10 + ((digits(n).last()
            as int - 48) as nat));
    } else {
        lemma_digits(n / 10);
        assert(digits(n).drop_last() == digits(n / 10));
        assert(digits(n).last() == digit_char((n % 10) as int));
        assert(digit_char((n % 10) as int) as int == 48 + n % 10);
        assert(dec_value(digits(n)) == dec_value(digits(n / 10)) * 10 + n % 10);
        assert((n / 10) * 10 + n % 10 == n);
        assert forall|k: int| 0 <= k < digits(n).len() implies is_digit(#[trigger] digits(n)[k]) by {
            if k < digits(n / 10).len() {
                assert(digits(n)[k] == digits(n / 10)[k]);
            }
        }
    }
}

proof fn lemma_digits_end(t: Seq<char>, pos: int, q: int)
    requires
        0 <= pos <= q <= t.len(),
        forall|k: int| pos <= k < q ==> is_digit(#[trigger] t[k]),
        q == t.len() || !is_digit(t[q]),
    ensures
        digits_end(t, pos) == q,
    decreases q - pos,
{
    if pos < q {
        lemma_digits_end(t, pos + 1, q);
    }
}

proof fn lemma_uint_back(t: Seq<char>, pos: int, n: usize)
    requires
        0 <= pos,
        pos + digits(n as nat).len() <= t.len(),
        t.subrange(pos, pos + digits(n as nat).len()) == digits(n as nat),
        pos + digits(n as nat).len() == t.len() || !is_digit(t[pos + digits(n as nat).len()]),
    ensures
        parse_uint(t, pos) == Some((n, pos + digits(n as nat).len())),
{
    let d = digits(n as nat);
    let q = pos + d.len();
    lemma_digits(n as nat);
    assert forall|k: int| pos <= k < q implies is_digit(#[trigger] t[k]) by {
        assert(t.subrange(pos, q)[k - pos] == d[k - pos]);
    }
    assert(is_digit(t[pos]));
    lemma_ws_stop(t, pos);
    lemma_digits_end(t, pos, q);
}

proof fn lemma_pair_back(t: Seq<char>, pos: int, v: (usize, usize))
    requires
        0 <= pos,
        pos + enc_pair(v).len() <= t.len(),
        t.subrange(pos, pos + enc_pair(v).len()) == enc_pair(v),
    ensures
        parse_pair(t, pos) == Some((v, pos + enc_pair(v).len())),
{
    let da = digits(v.0 as nat);
    let db = digits(v.1 as nat);
    let la = da.len();
    let lb = db.len();
    let end = pos + enc_pair(v).len();
    assert(enc_pair(v) == seq!['['] + (da + (seq![','] + (db + seq![']']))));
    lemma_split(t, pos, seq!['['], da + (seq![','] + (db + seq![']'])));
    lemma_split(t, pos + 1, da, seq![','] + (db + seq![']']));
    lemma_split(t, pos + 1 + la, seq![','], db + seq![']']);
    lemma_split(t, pos + 2 + la, db, seq![']']);
    assert(t[pos] == t.subrange(pos, pos + 1)[0]);
    assert(t[pos + 1 + la] == t.subrange(pos + 1 + la, pos + 2 + la)[0]);
    assert(t[pos + 2 + la + lb] == t.subrange(pos + 2 + la + lb, pos + 3 + la + lb)[0]);
    lemma_ws_stop(t, pos);
    lemma_ws_stop(t, pos + 1 + la);
    lemma_ws_stop(t, pos + 2 + la + lb);
    lemma_uint_back(t, pos + 1, v.0);
    lemma_uint_back(t, pos + 2 + la, v.1);
}

proof fn lemma_hex_back(d: int)
    requires
        0 <= d < 16,
    ensures
        hex_value(hex_char(d)) == Some(d),
{
}

proof fn lemma_char_back(t: Seq<char>, pos: int, c: char)
    requires
        0 <= pos,
        pos + esc_char(c).len() <= t.len(),
        t.subrange(pos, pos + esc_char(c).len()) == esc_char(c),
    ensures
        parse_char(t, pos) == Some((c, pos + esc_char(c).len())),
        t[pos] != '"',
{
    let e = esc_char(c);
    assert forall|k: int| 0 <= k < e.len() implies t[pos + k] == e[k] by {
        assert(t.subrange(pos, pos + e.len())[k] == e[k]);
    }
    if c == '"' || c == '\\' || c == '\n' || c == '\r' || c == '\t' || c == '\u{8}' || c == '\u{c}' {
        assert(t[pos] == '\\');
        assert(e.len() == 2);
        assert(t[pos + 1] == e[1]);
    } else if (c as u32) < 0x20 {
        let code = c as u32;
        assert(e.len() == 6);
        assert(t[pos] == '\\');
        assert(t[pos + 1] == 'u');
        assert(t[pos + 2] == '0');
        assert(t[pos + 3] == '0');
        lemma_hex_back(0);
        lemma_hex_back((code / 16) as int);
        lemma_hex_back((code % 16) as int);
        assert(t[pos + 4] == hex_char((code / 16) as int));
        assert(t[pos + 5] == hex_char((code % 16) as int));
        assert(hex_char(0) == '0');
        let v = (code / 16) as int * 16 + (code % 16) as int;
        assert(v == code as int);
        assert(hex4(t, pos + 2) == Some(v));
        assert(u_escape(t, pos) == Some(v));
        lemma_char_code(c);
        assert(parse_u_escape(t, pos) == Some((c, pos + 6)));
    } else {
        assert(e == seq![c]);
        assert(t.subrange(pos, pos + e.len())[0] == e[0]);
        assert(t[pos] == c);
    }
}

proof fn lemma_str_body_back(t: Seq<char>, pos: int, s: Seq<char>)
    requires
        0 <= pos,
        pos + esc_str(s).len() + 1 <= t.len(),
        t.subrange(pos, pos + esc_str(s).len() + 1) == esc_str(s) + seq!['"'],
    ensures
        parse_str_body(t, pos) == Some((s, pos + esc_str(s).len() + 1)),
    decreases s.len(),
{
    if s.len() == 0 {
        assert(t[pos] == t.subrange(pos, pos + 1)[0]);
    } else {
        let c = s[0];
        let rest = s.drop_first();
        let ec = esc_char(c);
        assert(esc_str(s) == ec + esc_str(rest));
        assert(esc_str(s) + seq!['"'] == ec + (esc_str(rest) + seq!['"']));
        lemma_split(t, pos, ec, esc_str(rest) + seq!['"']);
        lemma_char_back(t, pos, c);
        lemma_str_body_back(t, pos + ec.len(), rest);
        assert(seq![c] + rest == s);
    }
}

proof fn lemma_string_back(t: Seq<char>, pos: int, s: Seq<char>)
    requires
        0 <= pos,
        pos + enc_str(s).len() <= t.len(),
        t.subrange(pos, pos + enc_str(s).len()) == enc_str(s),
    ensures
        parse_string(t, pos) == Some((s, pos + enc_str(s).len())),
{
    assert(enc_str(s) == seq!['"'] + (esc_str(s) + seq!['"']));
    lemma_split(t, pos, seq!['"'], esc_str(s) + seq!['"']);
    assert(t[pos] == t.subrange(pos, pos + 1)[0]);
    lemma_ws_stop(t, pos);
    lemma_str_body_back(t, pos + 1, s);
}

/// `p` reads back at any position of `t` whatever `f` writes there.
pub open spec fn reads_back<T>(
    t: Seq<char>,
    f: spec_fn(T) -> Seq<char>,
    p: spec_fn(Seq<char>, int) -> Option<(T, int)>,
) -> bool {
    forall|v: T, q: int|
        #![trigger f(v), p(t, q)]
        0 <= q && q + f(v).len() <= t.len() && t.subrange(q, q + f(v).len()) == f(v) ==> p(t, q)
            == Some((v, q + f(v).len()))
}

/// What `f` writes is never empty and never starts with `c`.
pub open spec fn starts_apart<T>(f: spec_fn(T) -> Seq<char>, c: char) -> bool {
    forall|v: T| (#[trigger] f(v)).len() > 0 && f(v)[0] != c && !is_ws(f(v)[0])
}

proof fn lemma_items_back<T>(
    t: Seq<char>,
    pos: int,
    s: Seq<T>,
    close: char,
    f: spec_fn(T) -> Seq<char>,
    p: spec_fn(Seq<char>, int) -> Option<(T, int)>,
)
    requires
        s.len() >= 1,
        close != ',',
        !is_ws(close),
        reads_back(t, f, p),
        starts_apart(f, close),
        0 <= pos,
        pos + enc_items(s, f).len() + 1 <= t.len(),
        t.subrange(pos, pos + enc_items(s, f).len() + 1) == enc_items(s, f) + seq![close],
    ensures
        parse_items(t, pos, close, p) == Some((s, pos + enc_items(s, f).len() + 1)),
    decreases s.len(),
{
    let v = s[0];
    let fv = f(v);
    if s.len() == 1 {
        assert(enc_items(s, f) == fv);
        lemma_split(t, pos, fv, seq![close]);
        assert(t[pos + fv.len()] == t.subrange(pos + fv.len(), pos + fv.len() + 1)[0]);
        lemma_ws_stop(t, pos + fv.len());
        assert(p(t, pos) == Some((v, pos + fv.len())));
        assert(seq![v] == s);
    } else {
        let rest = s.drop_first();
        assert(enc_items(s, f) == fv + seq![','] + enc_items(rest, f));
        assert(enc_items(s, f) + seq![close] == fv + (seq![','] + (enc_items(rest, f) + seq![
            close,
        ])));
        lemma_split(t, pos, fv, seq![','] + (enc_items(rest, f) + seq![close]));
        lemma_split(t, pos + fv.len(), seq![','], enc_items(rest, f) + seq![close]);
        assert(t[pos + fv.len()] == t.subrange(pos + fv.len(), pos + fv.len() + 1)[0]);
        lemma_ws_stop(t, pos + fv.len());
        assert(p(t, pos) == Some((v, pos + fv.len())));
        lemma_items_back(t, pos + fv.len() + 1, rest, close, f, p);
        assert(seq![v] + rest == s);
    }
}

proof fn lemma_list_back<T>(
    t: Seq<char>,
    pos: int,
    s: Seq<T>,
    open: char,
    close: char,
    f: spec_fn(T) -> Seq<char>,
    p: spec_fn(Seq<char>, int) -> Option<(T, int)>,
)
    requires
        close != ',',
        !is_ws(open),
        !is_ws(close),
        reads_back(t, f, p),
        starts_apart(f, close),
        0 <= pos,
        pos + enc_list(s, open, close, f).len() <= t.len(),
        t.subrange(pos, pos + enc_list(s, open, close, f).len()) == enc_list(s, open, close, f),
    ensures
        parse_list(t, pos, open, close, p) == Some((s, pos + enc_list(s, open, close, f).len())),
{
    let body = enc_items(s, f);
    assert(enc_list(s, open, close, f) == seq![open] + (body + seq![close]));
    lemma_split(t, pos, seq![open], body + seq![close]);
    assert(t[pos] == t.subrange(pos, pos + 1)[0]);
    lemma_ws_stop(t, pos);
    if s.len() == 0 {
        assert(body.len() == 0);
        assert(t[pos + 1] == t.subrange(pos + 1, pos + 2)[0]);
        lemma_ws_stop(t, pos + 1);
    } else {
        assert(body == f(s[0]) || body == f(s[0]) + seq![','] + enc_items(s.drop_first(), f));
        assert(body[0] == f(s[0])[0]);
        assert(t[pos + 1] == t.subrange(pos + 1, pos + 2 + body.len())[0]);
        lemma_ws_stop(t, pos + 1);
        lemma_items_back(t, pos + 1, s, close, f, p);
    }
}

proof fn lemma_pairs_readable(t: Seq<char>)
    ensures
        reads_back(t, pair_writer(), pair_reader()),
        starts_apart(pair_writer(), ']'),
{
    assert forall|v: (usize, usize), q: int|
        #![trigger pair_writer()(v), pair_reader()(t, q)]
        0 <= q && q + pair_writer()(v).len() <= t.len() && t.subrange(q, q + pair_writer()(v).len())
            == pair_writer()(v) implies pair_reader()(t, q) == Some(
        (v, q + pair_writer()(v).len()),
    ) by {
        lemma_pair_back(t, q, v);
    }
}

proof fn lemma_partner_back(t: Seq<char>, pos: int, v: (Seq<char>, PairsView))
    requires
        0 <= pos,
        pos + enc_partner(v).len() <= t.len(),
        t.subrange(pos, pos + enc_partner(v).len()) == enc_partner(v),
    ensures
        parse_partner(t, pos) == Some((v, pos + enc_partner(v).len())),
{
    let k = enc_str(v.0);
    let l = enc_pairs(v.1);
    assert(enc_partner(v) == k + (seq![':'] + l));
    lemma_split(t, pos, k, seq![':'] + l);
    lemma_split(t, pos + k.len(), seq![':'], l);
    assert(t[pos + k.len()] == t.subrange(pos + k.len(), pos + k.len() + 1)[0]);
    lemma_ws_stop(t, pos + k.len());
    lemma_string_back(t, pos, v.0);
    lemma_pairs_readable(t);
    lemma_list_back(t, pos + k.len() + 1, v.1, '[', ']', pair_writer(), pair_reader());
}

proof fn lemma_partners_readable(t: Seq<char>)
    ensures
        reads_back(t, partner_writer(), partner_reader()),
        starts_apart(partner_writer(), '}'),
{
    assert forall|v: (Seq<char>, PairsView), q: int|
        #![trigger partner_writer()(v), partner_reader()(t, q)]
        0 <= q && q + partner_writer()(v).len() <= t.len() && t.subrange(
            q,
            q + partner_writer()(v).len(),
        ) == partner_writer()(v) implies partner_reader()(t, q) == Some(
        (v, q + partner_writer()(v).len()),
    ) by {
        lemma_partner_back(t, q, v);
    }
}

proof fn lemma_row_back(t: Seq<char>, pos: int, v: (Seq<char>, PartnersView))
    requires
        0 <= pos,
        pos + enc_row(v).len() <= t.len(),
        t.subrange(pos, pos + enc_row(v).len()) == enc_row(v),
    ensures
        parse_row(t, pos) == Some((v, pos + enc_row(v).len())),
{
    let k = enc_str(v.0);
    let l = enc_partners(v.1);
    assert(enc_row(v) == k + (seq![':'] + l));
    lemma_split(t, pos, k, seq![':'] + l);
    lemma_split(t, pos + k.len(), seq![':'], l);
    assert(t[pos + k.len()] == t.subrange(pos + k.len(), pos + k.len() + 1)[0]);
    lemma_ws_stop(t, pos + k.len());
    lemma_string_back(t, pos, v.0);
    lemma_partners_readable(t);
    lemma_list_back(t, pos + k.len() + 1, v.1, '{', '}', partner_writer(), partner_reader());
}

proof fn lemma_rows_readable(t: Seq<char>)
    ensures
        reads_back(t, row_writer(), row_reader()),
        starts_apart(row_writer(), '}'),
{
    assert forall|v: (Seq<char>, PartnersView), q: int|
        #![trigger row_writer()(v), row_reader()(t, q)]
        0 <= q && q + row_writer()(v).len() <= t.len() && t.subrange(q, q + row_writer()(v).len())
            == row_writer()(v) implies row_reader()(t, q) == Some(
        (v, q + row_writer()(v).len()),
    ) by {
        lemma_row_back(t, q, v);
    }
}

/// Reading back what `save` writes gives the map that was saved, for every
/// map whose keys are unique within each object.
pub proof fn lemma_round_trip(m: RowsView)
    requires
        map_wf(m),
    ensures
        decode_rows(enc_rows(m)) == Some(m),
{
    let t = enc_rows(m);
    lemma_rows_readable(t);
    assert(t.subrange(0, t.len() as int) == t);
    lemma_list_back(t, 0, m, '{', '}', row_writer(), row_reader());
    lemma_ws_stop(t, t.len() as int);
}

} // verus!
