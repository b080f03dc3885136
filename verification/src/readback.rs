//! Reading back what the writer writes: quoted strings, value/label pairs,
//! `;`-terminated statements.
use vstd::prelude::*;
use crate::lexer::{
    read_first_quoted_spec, scan_quoted, semicolon_from, take_word_spec, value_pairs_from,
};
use crate::lines::{lacks, lemma_cat_map_front};
use crate::numbers::{int_text, lemma_i64_roundtrip, lemma_nat_text_digits, nat_text, parse_i64_spec};
use crate::text::{find, is_sep, is_ws, lemma_find_at, trim, trim_end, trim_start, Sep};
use crate::writer::{cat_map, escape_char, escaped, pair_text, pairs_text, quoted};

verus! {

pub open spec fn no_ws(s: Seq<char>) -> bool {
    forall|i: int| 0 <= i < s.len() ==> !is_ws(#[trigger] s[i])
}

pub proof fn lemma_trim_start_id(s: Seq<char>)
    requires
        s.len() > 0 ==> !is_ws(s[0]),
    ensures
        trim_start(s) == s,
{
}

pub proof fn lemma_trim_end_id(s: Seq<char>)
    requires
        s.len() > 0 ==> !is_ws(s.last()),
    ensures
        trim_end(s) == s,
{
}

/// Whitespace in front is trimmed away.
pub proof fn lemma_trim_start_after_ws(w: Seq<char>, s: Seq<char>)
    requires
        forall|i: int| 0 <= i < w.len() ==> is_ws(#[trigger] w[i]),
        s.len() > 0 ==> !is_ws(s[0]),
    ensures
        trim_start(w + s) == s,
    decreases w.len(),
{
    if w.len() == 0 {
        assert(w + s =~= s);
    } else {
        assert((w + s)[0] == w[0]);
        assert((w + s).drop_first() =~= w.drop_first() + s);
        lemma_trim_start_after_ws(w.drop_first(), s);
    }
}

/// `trim` of a text that starts and ends with non-whitespace.
pub proof fn lemma_trim_id(s: Seq<char>)
    requires
        s.len() > 0,
        !is_ws(s[0]),
        !is_ws(s.last()),
    ensures
        trim(s) == s,
{
}

pub proof fn lemma_escaped_front(c: Seq<char>)
    requires
        c.len() > 0,
    ensures
        escaped(c) == escape_char(c[0]) + escaped(c.drop_first()),
{
    lemma_cat_map_front(c, |x: char| escape_char(x));
}

pub proof fn lemma_escaped_len(c: Seq<char>)
    ensures
        escaped(c).len() >= c.len(),
    decreases c.len(),
{
    if c.len() > 0 {
        lemma_escaped_front(c);
        lemma_escaped_len(c.drop_first());
    }
}

/// Scanning an escaped string up to its closing quote gives the string back.
pub proof fn lemma_scan_escaped(t: Seq<char>, a: int, c: Seq<char>, acc: Seq<char>)
    requires
        0 <= a,
        a + escaped(c).len() < t.len(),
        t.subrange(a, a + escaped(c).len()) == escaped(c),
        t[a + escaped(c).len()] == '"',
    ensures
        scan_quoted(t, a, acc) == (acc + c, a + escaped(c).len() + 1),
    decreases c.len(),
{
    if c.len() == 0 {
        assert(acc + c =~= acc);
    } else {
        lemma_escaped_front(c);
        let e0 = escape_char(c[0]);
        let rest = c.drop_first();
        let n0 = e0.len();
        assert(t[a] == escaped(c)[0]);
        assert forall|k: int| 0 <= k < escaped(rest).len() implies t.subrange(
            a + n0,
            a + n0 + escaped(rest).len(),
        )[k] == escaped(rest)[k] by {
            assert(t[a + n0 + k] == escaped(c)[n0 + k]);
        }
        assert(t.subrange(a + n0, a + n0 + escaped(rest).len()) =~= escaped(rest));
        lemma_scan_escaped(t, a + n0, rest, acc.push(c[0]));
        assert(acc.push(c[0]) + rest =~= acc + c);
        if c[0] == '\\' || c[0] == '"' {
            assert(t[a + 1] == escaped(c)[1]);
        }
    }
}

/// An escaped text between quotes reads back as the text, whatever follows.
pub proof fn lemma_escape_read_back(c: Seq<char>, r: Seq<char>)
    ensures
        read_first_quoted_spec(seq!['"'] + escaped(c) + seq!['"'] + r) == Some((c, r)),
{
    lemma_read_quoted(Seq::empty(), c, r);
    assert(Seq::<char>::empty() + quoted(c) + r =~= seq!['"'] + escaped(c) + seq!['"'] + r);
}

/// The first quoted string of `x + quoted(c) + r`, where `x` holds no quote,
/// is `c`, followed by `r`.
pub proof fn lemma_read_quoted(x: Seq<char>, c: Seq<char>, r: Seq<char>)
    requires
        lacks(x, '"'),
    ensures
        read_first_quoted_spec(x + quoted(c) + r) == Some((c, r)),
{
    let q = quoted(c);
    let s = x + q + r;
    let e = escaped(c);
    assert(s[x.len() as int] == '"');
    assert forall|j: int| 0 <= j < x.len() implies !is_sep(Sep::Char('"'), #[trigger] s[j]) by {
        assert(s[j] == x[j]);
    }
    lemma_find_at(s, Sep::Char('"'), x.len() as int);
    let a: int = x.len() as int + 1;
    assert(s.subrange(a, a + e.len()) =~= e);
    assert(s[a + e.len()] == '"');
    lemma_scan_escaped(s, a, c, Seq::empty());
    assert(Seq::<char>::empty() + c =~= c);
    assert(s.subrange(a + e.len() + 1, s.len() as int) =~= r);
}

/// The scan for a `;` passes over text with no quote and no `;`.
pub proof fn lemma_semi_plain(s: Seq<char>, i: int, j: int)
    requires
        0 <= i <= j <= s.len(),
        forall|k: int| i <= k < j ==> #[trigger] s[k] != '"' && s[k] != ';',
    ensures
        semicolon_from(s, i, false) == semicolon_from(s, j, false),
    decreases j - i,
{
    if i < j {
        lemma_semi_plain(s, i + 1, j);
    }
}

/// The scan for a `;` passes over an escaped string inside quotes, up to its
/// closing quote.
pub proof fn lemma_semi_escaped(s: Seq<char>, a: int, c: Seq<char>)
    requires
        0 <= a,
        a + escaped(c).len() < s.len(),
        s.subrange(a, a + escaped(c).len()) == escaped(c),
    ensures
        semicolon_from(s, a, true) == semicolon_from(s, a + escaped(c).len(), true),
    decreases c.len(),
{
    if c.len() > 0 {
        lemma_escaped_front(c);
        let e0 = escape_char(c[0]);
        let rest = c.drop_first();
        let n0 = e0.len();
        assert(s[a] == escaped(c)[0]);
        assert forall|k: int| 0 <= k < escaped(rest).len() implies s.subrange(
            a + n0,
            a + n0 + escaped(rest).len(),
        )[k] == escaped(rest)[k] by {
            assert(s[a + n0 + k] == escaped(c)[n0 + k]);
        }
        assert(s.subrange(a + n0, a + n0 + escaped(rest).len()) =~= escaped(rest));
        lemma_semi_escaped(s, a + n0, rest);
    }
}

/// The scan for a `;` passes over a quoted string.
pub proof fn lemma_semi_quoted(s: Seq<char>, a: int, c: Seq<char>)
    requires
        0 <= a,
        a + quoted(c).len() < s.len(),
        s.subrange(a, a + quoted(c).len()) == quoted(c),
    ensures
        semicolon_from(s, a, false) == semicolon_from(s, a + quoted(c).len(), false),
{
    let e = escaped(c);
    assert(s[a] == quoted(c)[0]);
    assert(s.subrange(a + 1, a + 1 + e.len()) =~= e) by {
        assert forall|k: int| 0 <= k < e.len() implies s.subrange(a + 1, a + 1 + e.len())[k]
            == e[k] by {
            assert(s[a + 1 + k] == quoted(c)[1 + k]);
        }
    }
    lemma_semi_escaped(s, a + 1, c);
    assert(s[a + 1 + e.len()] == quoted(c)[1 + e.len() as int]);
}

pub proof fn lemma_int_text_plain(i: int)
    ensures
        int_text(i).len() > 0,
        !is_ws(int_text(i)[0]),
        no_ws(int_text(i)),
        lacks(int_text(i), '"'),
        lacks(int_text(i), ';'),
        lacks(int_text(i), '\n'),
{
    if i < 0 {
        lemma_nat_text_digits((-i) as nat);
        let t = int_text(i);
        assert forall|k: int| 0 <= k < t.len() implies !is_ws(#[trigger] t[k]) && t[k] != '"'
            && t[k] != ';' && t[k] != '\n' by {
            if k > 0 {
                assert(t[k] == nat_text((-i) as nat)[k - 1]);
            }
        }
    } else {
        lemma_nat_text_digits(i as nat);
        let t = int_text(i);
        assert forall|k: int| 0 <= k < t.len() implies !is_ws(#[trigger] t[k]) && t[k] != '"'
            && t[k] != ';' && t[k] != '\n' by {
            assert(crate::numbers::is_digit(t[k]));
        }
    }
}

pub proof fn lemma_pairs_front(ps: Seq<(i64, Seq<char>)>)
    requires
        ps.len() > 0,
    ensures
        pairs_text(ps) == pair_text(ps[0]) + pairs_text(ps.drop_first()),
{
    lemma_cat_map_front(ps, |p: (i64, Seq<char>)| pair_text(p));
}

/// Written pairs end with a quote (or are empty).
pub proof fn lemma_pairs_text_end(ps: Seq<(i64, Seq<char>)>)
    ensures
        ps.len() == 0 <==> pairs_text(ps).len() == 0,
        ps.len() > 0 ==> pairs_text(ps).last() == '"',
        ps.len() > 0 ==> pairs_text(ps)[0] == ' ',
    decreases ps.len(),
{
    if ps.len() > 0 {
        assert(pairs_text(ps) == pairs_text(ps.drop_last()) + pair_text(ps.last()));
        lemma_pairs_text_end(ps.drop_last());
        lemma_pairs_front(ps);
        let p = ps.last();
        assert(pair_text(p).last() == '"');
    }
}

/// The scan for a `;` passes over written pairs.
pub proof fn lemma_semi_pairs(s: Seq<char>, a: int, ps: Seq<(i64, Seq<char>)>)
    requires
        0 <= a,
        a + pairs_text(ps).len() < s.len(),
        s.subrange(a, a + pairs_text(ps).len()) == pairs_text(ps),
    ensures
        semicolon_from(s, a, false) == semicolon_from(s, a + pairs_text(ps).len(), false),
    decreases ps.len(),
{
    if ps.len() > 0 {
        lemma_pairs_front(ps);
        let p = ps[0];
        let it = int_text(p.0 as int);
        lemma_int_text_plain(p.0 as int);
        let head = seq![' '] + it + seq![' '];
        let q = quoted(p.1);
        let pt = pair_text(p);
        assert(pt == head + q);
        let rest = ps.drop_first();
        assert forall|k: int| a <= k < a + head.len() implies #[trigger] s[k] != '"' && s[k]
            != ';' by {
            assert(s[k] == pairs_text(ps)[k - a]);
            assert(pairs_text(ps)[k - a] == head[k - a]);
            if k - a >= 1 && k - a < 1 + it.len() {
                assert(head[k - a] == it[k - a - 1]);
            }
        }
        lemma_semi_plain(s, a, a + head.len());
        assert(s.subrange(a + head.len(), a + head.len() + q.len()) =~= q) by {
            assert forall|k: int| 0 <= k < q.len() implies s.subrange(
                a + head.len(),
                a + head.len() + q.len(),
            )[k] == q[k] by {
                assert(s[a + head.len() + k] == pairs_text(ps)[head.len() + k]);
            }
        }
        lemma_semi_quoted(s, a + head.len(), p.1);
        assert(s.subrange(a + pt.len(), a + pt.len() + pairs_text(rest).len()) =~= pairs_text(
            rest,
        )) by {
            assert forall|k: int| 0 <= k < pairs_text(rest).len() implies s.subrange(
                a + pt.len(),
                a + pt.len() + pairs_text(rest).len(),
            )[k] == pairs_text(rest)[k] by {
                assert(s[a + pt.len() + k] == pairs_text(ps)[pt.len() + k]);
            }
        }
        lemma_semi_pairs(s, a + pt.len(), rest);
    }
}

/// Written pairs read back as themselves.
pub proof fn lemma_pairs_readback(ps: Seq<(i64, Seq<char>)>)
    ensures
        value_pairs_from(trim(pairs_text(ps))) == ps,
    decreases ps.len(),
{
    if ps.len() == 0 {
        assert(pairs_text(ps) =~= Seq::<char>::empty());
        assert(trim(Seq::<char>::empty()) == Seq::<char>::empty());
        assert(ps =~= Seq::<(i64, Seq<char>)>::empty());
    } else {
        lemma_pairs_front(ps);
        lemma_pairs_text_end(ps);
        let p = ps[0];
        let rest = ps.drop_first();
        let it = int_text(p.0 as int);
        lemma_int_text_plain(p.0 as int);
        let u = it + seq![' '] + quoted(p.1) + pairs_text(rest);
        assert(pairs_text(ps) =~= seq![' '] + u);
        lemma_trim_start_after_ws(seq![' '], u);
        assert(u.last() == pairs_text(ps).last());
        lemma_trim_end_id(u);
        assert(trim(pairs_text(ps)) == u);
        // take_word
        lemma_trim_start_id(u);
        assert forall|j: int| 0 <= j < it.len() implies !is_sep(Sep::Space, #[trigger] u[j]) by {
            assert(u[j] == it[j]);
        }
        assert(u[it.len() as int] == ' ');
        lemma_find_at(u, Sep::Space, it.len() as int);
        assert(u.subrange(0, it.len() as int) =~= it);
        let after = u.subrange(it.len() as int, u.len() as int);
        assert(after =~= seq![' '] + quoted(p.1) + pairs_text(rest));
        assert(take_word_spec(u) == (it, after));
        lemma_i64_roundtrip(p.0);
        assert(lacks(seq![' '], '"'));
        lemma_read_quoted(seq![' '], p.1, pairs_text(rest));
        lemma_pairs_readback(rest);
        let next = trim(pairs_text(rest));
        lemma_trim_len(pairs_text(rest));
        assert(next.len() < u.len());
        assert(ps =~= seq![(p.0, p.1)] + rest);
    }
}

pub proof fn lemma_trim_len(s: Seq<char>)
    ensures
        trim(s).len() <= s.len(),
{
    lemma_trim_start_len(s);
    lemma_trim_end_len(trim_start(s));
}

pub proof fn lemma_trim_start_len(s: Seq<char>)
    ensures
        trim_start(s).len() <= s.len(),
    decreases s.len(),
{
    if s.len() > 0 && is_ws(s[0]) {
        lemma_trim_start_len(s.drop_first());
    }
}

pub proof fn lemma_trim_end_len(s: Seq<char>)
    ensures
        trim_end(s).len() <= s.len(),
    decreases s.len(),
{
    if s.len() > 0 && is_ws(s.last()) {
        lemma_trim_end_len(s.drop_last());
    }
}

} // verus!
