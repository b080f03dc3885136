//! How a text made of lines splits back into those lines.
use vstd::prelude::*;
use crate::parser::input_lines;
use crate::text::{split_acc, split_on, trim_end_char};
use crate::writer::{cat_map, join};

verus! {

/// A line followed by its line break.
pub open spec fn nl(l: Seq<char>) -> Seq<char> {
    l + seq!['\n']
}

/// `s` holds no `c`.
pub open spec fn lacks(s: Seq<char>, c: char) -> bool {
    forall|i: int| 0 <= i < s.len() ==> s[i] != c
}

/// A physical line: no line break, no trailing carriage return.
pub open spec fn plain_line(l: Seq<char>) -> bool {
    lacks(l, '\n') && (l.len() > 0 ==> l.last() != '\r')
}

/// No carriage return right before a line break.
pub open spec fn crlf_free(s: Seq<char>) -> bool {
    forall|i: int| 0 <= i < s.len() - 1 ==> !(#[trigger] s[i] == '\r' && s[i + 1] == '\n')
}

/// No carriage return right before a line break, and none at the end.
pub open spec fn no_crlf(s: Seq<char>) -> bool {
    &&& crlf_free(s)
    &&& (s.len() > 0 ==> s.last() != '\r')
}

/// Two texts without a carriage return before a break, not joined at one.
pub proof fn lemma_crlf_free_add(a: Seq<char>, b: Seq<char>)
    requires
        crlf_free(a),
        crlf_free(b),
        !(a.len() > 0 && b.len() > 0 && a.last() == '\r' && b[0] == '\n'),
    ensures
        crlf_free(a + b),
{
    let s = a + b;
    assert forall|i: int| 0 <= i < s.len() - 1 implies !(#[trigger] s[i] == '\r' && s[i + 1] == '\n') by {
        if i + 1 < a.len() {
            assert(s[i] == a[i] && s[i + 1] == a[i + 1]);
        } else if i >= a.len() {
            assert(s[i] == b[i - a.len()] && s[i + 1] == b[i - a.len() + 1]);
        } else {
            assert(s[i] == a.last() && s[i + 1] == b[0]);
        }
    }
}

/// A text without a line break has none after a carriage return.
pub proof fn lemma_lacks_crlf_free(s: Seq<char>)
    requires
        lacks(s, '\n'),
    ensures
        crlf_free(s),
{
    assert forall|i: int| 0 <= i < s.len() - 1 implies !(#[trigger] s[i] == '\r' && s[i + 1] == '\n') by {
        assert(s[i + 1] != '\n');
    }
}

pub proof fn lemma_cat_map_append<T>(xs: Seq<T>, ys: Seq<T>, f: spec_fn(T) -> Seq<char>)
    ensures
        cat_map(xs + ys, f) == cat_map(xs, f) + cat_map(ys, f),
    decreases ys.len(),
{
    if ys.len() == 0 {
        assert(xs + ys =~= xs);
        assert(cat_map(xs, f) + Seq::<char>::empty() =~= cat_map(xs, f));
    } else {
        lemma_cat_map_append(xs, ys.drop_last(), f);
        assert((xs + ys).drop_last() =~= xs + ys.drop_last());
        assert((xs + ys).last() == ys.last());
        assert(cat_map(xs, f) + cat_map(ys.drop_last(), f) + f(ys.last()) =~= cat_map(xs, f) + (
        cat_map(ys.drop_last(), f) + f(ys.last())));
    }
}

pub proof fn lemma_cat_map_single<T>(x: T, f: spec_fn(T) -> Seq<char>)
    ensures
        cat_map(seq![x], f) == f(x),
{
    assert(seq![x].drop_last() =~= Seq::<T>::empty());
    assert(cat_map(Seq::<T>::empty(), f) == Seq::<char>::empty());
    assert(seq![x].last() == x);
    assert(Seq::<char>::empty() + f(x) =~= f(x));
}

pub proof fn lemma_cat_map_front<T>(xs: Seq<T>, f: spec_fn(T) -> Seq<char>)
    requires
        xs.len() > 0,
    ensures
        cat_map(xs, f) == f(xs[0]) + cat_map(xs.drop_first(), f),
{
    assert(xs =~= seq![xs[0]] + xs.drop_first());
    lemma_cat_map_append(seq![xs[0]], xs.drop_first(), f);
    lemma_cat_map_single(xs[0], f);
}

pub proof fn lemma_split_acc_plain(x: Seq<char>, c: char, cur: Seq<char>)
    requires
        lacks(x, c),
    ensures
        split_acc(x, c, cur) == seq![cur + x],
    decreases x.len(),
{
    if x.len() == 0 {
        assert(cur + x =~= cur);
    } else {
        lemma_split_acc_plain(x.drop_first(), c, cur.push(x[0]));
        assert(cur.push(x[0]) + x.drop_first() =~= cur + x);
    }
}

pub proof fn lemma_split_acc_line(x: Seq<char>, r: Seq<char>, c: char, cur: Seq<char>)
    requires
        lacks(x, c),
    ensures
        split_acc(x + seq![c] + r, c, cur) == seq![cur + x] + split_acc(r, c, Seq::empty()),
    decreases x.len(),
{
    let s = x + seq![c] + r;
    if x.len() == 0 {
        assert(s[0] == c);
        assert(s.drop_first() =~= r);
        assert(cur + x =~= cur);
    } else {
        assert(s[0] == x[0]);
        assert(s.drop_first() =~= x.drop_first() + seq![c] + r);
        lemma_split_acc_line(x.drop_first(), r, c, cur.push(x[0]));
        assert(cur.push(x[0]) + x.drop_first() =~= cur + x);
    }
}

/// A text made of lines, each followed by a line break, splits back into those
/// lines and a final empty piece.
pub proof fn lemma_split_lines(p: Seq<Seq<char>>)
    requires
        forall|k: int| 0 <= k < p.len() ==> lacks(#[trigger] p[k], '\n'),
    ensures
        split_on(cat_map(p, |l: Seq<char>| nl(l)), '\n') == p + seq![Seq::<char>::empty()],
    decreases p.len(),
{
    let f = |l: Seq<char>| nl(l);
    if p.len() == 0 {
        assert(cat_map(p, f) =~= Seq::<char>::empty());
        assert(p + seq![Seq::<char>::empty()] =~= seq![Seq::<char>::empty()]);
    } else {
        lemma_cat_map_front(p, f);
        let rest = p.drop_first();
        assert forall|k: int| 0 <= k < rest.len() implies lacks(#[trigger] rest[k], '\n') by {
            assert(rest[k] == p[k + 1]);
        }
        lemma_split_lines(rest);
        assert(cat_map(p, f) =~= p[0] + seq!['\n'] + cat_map(rest, f));
        lemma_split_acc_line(p[0], cat_map(rest, f), '\n', Seq::empty());
        assert(Seq::<char>::empty() + p[0] =~= p[0]);
        assert(p + seq![Seq::<char>::empty()] =~= seq![p[0]] + (rest + seq![Seq::<char>::empty()]));
    }
}

/// The lines of a text made of plain lines are those lines and a final empty
/// line.
pub proof fn lemma_input_lines(p: Seq<Seq<char>>)
    requires
        forall|k: int| 0 <= k < p.len() ==> plain_line(#[trigger] p[k]),
    ensures
        input_lines(cat_map(p, |l: Seq<char>| nl(l))) == p + seq![Seq::<char>::empty()],
{
    assert forall|k: int| 0 <= k < p.len() implies lacks(#[trigger] p[k], '\n') by {
        assert(plain_line(p[k]));
    }
    lemma_split_lines(p);
    let q = p + seq![Seq::<char>::empty()];
    assert forall|k: int| 0 <= k < q.len() implies trim_end_char(#[trigger] q[k], '\r') == q[k] by {
        if k < p.len() {
            assert(plain_line(p[k]));
            assert(q[k] == p[k]);
        }
    }
    assert(q.map_values(|l: Seq<char>| trim_end_char(l, '\r')) =~= q);
}

/// The lines of `cur + s`, each followed by a line break, give back
/// `cur + s` and a line break.
pub proof fn lemma_split_acc_text(s: Seq<char>, cur: Seq<char>)
    ensures
        cat_map(split_acc(s, '\n', cur), |l: Seq<char>| nl(l)) == cur + s + seq!['\n'],
    decreases s.len(),
{
    let f = |l: Seq<char>| nl(l);
    if s.len() == 0 {
        lemma_cat_map_single(cur, f);
        assert(cur + s =~= cur);
    } else if s[0] == '\n' {
        lemma_split_acc_text(s.drop_first(), Seq::empty());
        lemma_cat_map_append(seq![cur], split_acc(s.drop_first(), '\n', Seq::empty()), f);
        lemma_cat_map_single(cur, f);
        assert(cur + s + seq!['\n'] =~= nl(cur) + (Seq::<char>::empty() + s.drop_first() + seq![
            '\n',
        ]));
    } else {
        lemma_split_acc_text(s.drop_first(), cur.push(s[0]));
        assert(cur.push(s[0]) + s.drop_first() =~= cur + s);
    }
}

/// A text and a line break are the lines of the text, each with its break.
pub proof fn lemma_text_as_lines(s: Seq<char>)
    ensures
        cat_map(split_on(s, '\n'), |l: Seq<char>| nl(l)) == s + seq!['\n'],
{
    lemma_split_acc_text(s, Seq::empty());
    assert(Seq::<char>::empty() + s =~= s);
}

pub proof fn lemma_no_crlf_suffix(s: Seq<char>, k: int)
    requires
        no_crlf(s),
        0 <= k <= s.len(),
    ensures
        no_crlf(s.subrange(k, s.len() as int)),
{
    let t = s.subrange(k, s.len() as int);
    assert forall|i: int| 0 <= i < t.len() - 1 implies !(#[trigger] t[i] == '\r' && t[i + 1] == '\n') by {
        assert(t[i] == s[k + i] && t[i + 1] == s[k + i + 1]);
    }
    if t.len() > 0 {
        assert(t.last() == s.last());
    }
}

pub proof fn lemma_split_acc_plain_pieces(s: Seq<char>, cur: Seq<char>)
    requires
        lacks(cur, '\n'),
        no_crlf(cur + s),
    ensures
        forall|k: int|
            0 <= k < split_acc(s, '\n', cur).len() ==> plain_line(
                #[trigger] split_acc(s, '\n', cur)[k],
            ),
    decreases s.len(),
{
    let cs = cur + s;
    if s.len() == 0 {
        assert(cs =~= cur);
        assert(split_acc(s, '\n', cur) == seq![cur]);
        assert(plain_line(cur));
        assert(plain_line(split_acc(s, '\n', cur)[0]));
    } else if s[0] == '\n' {
        lemma_no_crlf_suffix(cs, cur.len() as int + 1);
        assert(cs.subrange(cur.len() as int + 1, cs.len() as int) =~= Seq::<char>::empty()
            + s.drop_first());
        lemma_split_acc_plain_pieces(s.drop_first(), Seq::empty());
        if cur.len() > 0 {
            assert(cs[cur.len() - 1] == cur.last());
            assert(cs[cur.len() as int] == '\n');
            assert(!(cs[cur.len() - 1] == '\r' && cs[cur.len() - 1 + 1] == '\n'));
        }
        assert(plain_line(cur));
        assert(split_acc(s, '\n', cur) == seq![cur] + split_acc(s.drop_first(), '\n', Seq::empty()));
        let r = split_acc(s.drop_first(), '\n', Seq::empty());
        assert forall|k: int| 0 <= k < split_acc(s, '\n', cur).len() implies plain_line(
            #[trigger] split_acc(s, '\n', cur)[k],
        ) by {
            if k > 0 {
                assert(split_acc(s, '\n', cur)[k] == r[k - 1]);
            }
        }
    } else {
        let c2 = cur.push(s[0]);
        assert forall|i: int| 0 <= i < c2.len() implies c2[i] != '\n' by {
            if i < cur.len() {
                assert(c2[i] == cur[i]);
            }
        }
        assert(c2 + s.drop_first() =~= cs);
        lemma_split_acc_plain_pieces(s.drop_first(), c2);
        assert(split_acc(s, '\n', cur) == split_acc(s.drop_first(), '\n', c2));
    }
}

/// The lines of a text without a carriage return before a break or at its
/// end are plain.
pub proof fn lemma_split_plain(s: Seq<char>)
    requires
        no_crlf(s),
    ensures
        forall|k: int| 0 <= k < split_on(s, '\n').len() ==> plain_line(#[trigger] split_on(s, '\n')[k]),
{
    assert(Seq::<char>::empty() + s =~= s);
    lemma_split_acc_plain_pieces(s, Seq::empty());
}

pub proof fn lemma_split_acc_len(s: Seq<char>, c: char, cur: Seq<char>)
    ensures
        split_acc(s, c, cur).len() >= 1,
    decreases s.len(),
{
    if s.len() > 0 {
        if s[0] == c {
            lemma_split_acc_len(s.drop_first(), c, Seq::empty());
        } else {
            lemma_split_acc_len(s.drop_first(), c, cur.push(s[0]));
        }
    }
}

/// Lines with their breaks are the lines joined by breaks, and a break.
pub proof fn lemma_lines_joined(p: Seq<Seq<char>>)
    requires
        p.len() > 0,
    ensures
        cat_map(p, |l: Seq<char>| nl(l)) == join(p, '\n') + seq!['\n'],
    decreases p.len(),
{
    let f = |l: Seq<char>| nl(l);
    if p.len() == 1 {
        lemma_cat_map_single(p[0], f);
        assert(p.drop_last().len() == 0);
        assert(cat_map(p, f) == cat_map(p.drop_last(), f) + f(p.last()));
        assert(p.last() == p[0]);
    } else {
        lemma_lines_joined(p.drop_last());
        assert(cat_map(p, f) == cat_map(p.drop_last(), f) + f(p.last()));
        assert(join(p.drop_last(), '\n') + seq!['\n'] + (p.last() + seq!['\n']) =~= join(
            p.drop_last(),
            '\n',
        ) + seq!['\n'] + p.last() + seq!['\n']);
    }
}

/// The lines of a text, joined by line breaks, are the text.
pub proof fn lemma_split_joined(s: Seq<char>)
    ensures
        split_on(s, '\n').len() >= 1,
        join(split_on(s, '\n'), '\n') == s,
{
    let p = split_on(s, '\n');
    lemma_split_acc_len(s, '\n', Seq::empty());
    lemma_text_as_lines(s);
    lemma_lines_joined(p);
    let j = join(p, '\n');
    assert((j + seq!['\n']).drop_last() =~= j);
    assert((s + seq!['\n']).drop_last() =~= s);
}

/// The first `m` lines of `p`, joined, are a prefix of all of them joined.
pub proof fn lemma_join_prefix(p: Seq<Seq<char>>, m: int)
    requires
        1 <= m <= p.len(),
    ensures
        join(p.take(m), '\n').len() <= join(p, '\n').len(),
        join(p, '\n').subrange(0, join(p.take(m), '\n').len() as int) == join(p.take(m), '\n'),
        m < p.len() ==> join(p.take(m), '\n').len() < join(p, '\n').len(),
        m < p.len() ==> join(p, '\n')[join(p.take(m), '\n').len() as int] == '\n',
    decreases p.len() - m,
{
    let jm = join(p.take(m), '\n');
    if m == p.len() {
        assert(p.take(m) =~= p);
        assert(join(p, '\n').subrange(0, jm.len() as int) =~= jm);
    } else {
        lemma_join_prefix(p, m + 1);
        let jn = join(p.take(m + 1), '\n');
        assert(p.take(m + 1).drop_last() =~= p.take(m));
        assert(p.take(m + 1).last() == p[m]);
        assert(jn == jm + seq!['\n'] + p[m]);
        let jp = join(p, '\n');
        assert(jp.subrange(0, jn.len() as int) == jn);
        assert forall|k: int| 0 <= k < jm.len() implies jp.subrange(0, jm.len() as int)[k] == jm[k] by {
            assert(jp[k] == jp.subrange(0, jn.len() as int)[k]);
            assert(jn[k] == jm[k]);
        }
        assert(jp.subrange(0, jm.len() as int) =~= jm);
        assert(jp[jm.len() as int] == jp.subrange(0, jn.len() as int)[jm.len() as int]);
    }
}

} // verus!
