use vstd::prelude::*;

use crate::artifact::format::{
    digits, enc_items, enc_pairs, enc_partners, enc_rows, enc_str, esc_char, esc_str, hex_char, pair_writer, partner_writer, row_writer,
};
use crate::corrmap::{partners_view, rows_view, CorrespondenceMap};
use crate::text::{chars_of, string_from_chars};

verus! {

proof fn lemma_esc_str_snoc(s: Seq<char>, i: int)
    requires
        0 <= i < s.len(),
    ensures
        esc_str(s.take(i + 1)) == esc_str(s.take(i)) + esc_char(s[i]),
    decreases i,
{
    if i == 0 {
        assert(s.take(1).drop_first().len() == 0);
        assert(esc_str(s.take(1)) == esc_char(s[0]) + esc_str(s.take(1).drop_first()));
        assert(esc_str(s.take(0)) == Seq::<char>::empty());
    } else {
        let t = s.drop_first();
        lemma_esc_str_snoc(t, i - 1);
        assert(s.take(i + 1).drop_first() == t.take(i));
        assert(s.take(i).drop_first() == t.take(i - 1));
        assert(s.take(i + 1)[0] == s[0]);
        assert(s.take(i)[0] == s[0]);
    }
}

proof fn lemma_enc_items_snoc<T>(s: Seq<T>, i: int, f: spec_fn(T) -> Seq<char>)
    requires
        1 <= i < s.len(),
    ensures
        enc_items(s.take(i + 1), f) == enc_items(s.take(i), f) + seq![','] + f(s[i]),
    decreases i,
{
    let t = s.drop_first();
    assert(s.take(i + 1).drop_first() == t.take(i));
    assert(s.take(i + 1)[0] == s[0]);
    if i == 1 {
        assert(t.take(1).len() == 1);
        assert(enc_items(s.take(2), f) == f(s[0]) + seq![','] + enc_items(t.take(1), f));
        assert(enc_items(s.take(1), f) == f(s[0]));
    } else {
        lemma_enc_items_snoc(t, i - 1, f);
        assert(s.take(i).drop_first() == t.take(i - 1));
        assert(s.take(i)[0] == s[0]);
    }
}

fn push_digits(out: &mut Vec<char>, n: usize)
    ensures
        final(out)@ == old(out)@ + digits(n as nat),
    decreases n,
{
    if n >= 10 {
        push_digits(out, n / 10);
    }
    let d = (n % 10) as u8;
    out.push((d + 48) as char);
}

fn push_escaped(out: &mut Vec<char>, s: &String)
    ensures
        final(out)@ == old(out)@ + enc_str(s@),
{
    let cs = chars_of(s.as_str());
    let n = cs.len();
    out.push('"');
    let ghost start = out@;
    let mut i: usize = 0;
    while i < n
        invariant
            n == cs@.len(),
            cs@ == s@,
            i <= n,
            out@ == start + esc_str(cs@.take(i as int)),
        decreases n - i,
    {
        let c = cs[i];
        proof {
            lemma_esc_str_snoc(cs@, i as int);
        }
        let ghost before = out@;
        if c == '"' {
            out.push('\\');
            out.push('"');
        } else if c == '\\' {
            out.push('\\');
            out.push('\\');
        } else if c == '\n' {
            out.push('\\');
            out.push('n');
        } else if c == '\r' {
            out.push('\\');
            out.push('r');
        } else if c == '\t' {
            out.push('\\');
            out.push('t');
        } else if c == '\u{8}' {
            out.push('\\');
            out.push('b');
        } else if c == '\u{c}' {
            out.push('\\');
            out.push('f');
        } else if (c as u32) < 0x20 {
            let code = c as u32;
            let hi = (code / 16) as u8;
            let lo = (code % 16) as u8;
            out.push('\\');
            out.push('u');
            out.push('0');
            out.push('0');
            let hc = if hi < 10 { (hi + 48) as char } else { (hi + 87) as char };
            let lc = if lo < 10 { (lo + 48) as char } else { (lo + 87) as char };
            assert(hc == hex_char((code / 16) as int));
            assert(lc == hex_char((code % 16) as int));
            out.push(hc);
            out.push(lc);
            assert(out@ == before + esc_char(c));
        } else {
            out.push(c);
            assert(out@ == before + esc_char(c));
        }
        assert(out@ == before + esc_char(c));
        i = i + 1;
    }
    assert(cs@.take(n as int) == cs@);
    out.push('"');
}

fn push_pairs(out: &mut Vec<char>, v: &Vec<(usize, usize)>)
    ensures
        final(out)@ == old(out)@ + enc_pairs(v@),
{
    let ghost start = old(out)@;
    out.push('[');
    let n = v.len();
    let mut i: usize = 0;
    while i < n
        invariant
            n == v@.len(),
            i <= n,
            out@ == start + seq!['['] + enc_items(v@.take(i as int), pair_writer()),
        decreases n - i,
    {
        let ghost before = out@;
        if i > 0 {
            out.push(',');
            proof {
                lemma_enc_items_snoc(v@, i as int, pair_writer());
            }
        } else {
            assert(v@.take(1).len() == 1);
            assert(enc_items(v@.take(0), pair_writer()) == Seq::<char>::empty());
        }
        let (a, b) = v[i];
        out.push('[');
        push_digits(out, a);
        out.push(',');
        push_digits(out, b);
        out.push(']');
        i = i + 1;
    }
    assert(v@.take(n as int) == v@);
    out.push(']');
}

fn push_partners(out: &mut Vec<char>, v: &Vec<(String, Vec<(usize, usize)>)>)
    ensures
        final(out)@ == old(out)@ + enc_partners(partners_view(v@)),
{
    let ghost start = old(out)@;
    let ghost pv = partners_view(v@);
    out.push('{');
    let n = v.len();
    let mut i: usize = 0;
    while i < n
        invariant
            n == v@.len(),
            pv == partners_view(v@),
            i <= n,
            out@ == start + seq!['{'] + enc_items(pv.take(i as int), partner_writer()),
        decreases n - i,
    {
        if i > 0 {
            out.push(',');
            proof {
                lemma_enc_items_snoc(pv, i as int, partner_writer());
            }
        } else {
            assert(pv.take(1).len() == 1);
            assert(enc_items(pv.take(0), partner_writer()) == Seq::<char>::empty());
        }
        push_escaped(out, &v[i].0);
        out.push(':');
        push_pairs(out, &v[i].1);
        i = i + 1;
    }
    assert(pv.take(n as int) == pv);
    out.push('}');
}

/// The persisted form of `map`.
pub fn save(map: &CorrespondenceMap) -> (r: String)
    ensures
        r@ == enc_rows(map@),
{
    let v = &map.rows;
    let ghost rv = map@;
    let mut out: Vec<char> = Vec::new();
    out.push('{');
    let n = v.len();
    let mut i: usize = 0;
    while i < n
        invariant
            n == v@.len(),
            rv == rows_view(v@),
            i <= n,
            out@ == seq!['{'] + enc_items(rv.take(i as int), row_writer()),
        decreases n - i,
    {
        if i > 0 {
            out.push(',');
            proof {
                lemma_enc_items_snoc(rv, i as int, row_writer());
            }
        } else {
            assert(rv.take(1).len() == 1);
            assert(enc_items(rv.take(0), row_writer()) == Seq::<char>::empty());
        }
        push_escaped(&mut out, &v[i].0);
        out.push(':');
        push_partners(&mut out, &v[i].1);
        i = i + 1;
    }
    assert(rv.take(n as int) == rv);
    out.push('}');
    string_from_chars(&out)
}

} // verus!
