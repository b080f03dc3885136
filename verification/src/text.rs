//! Character-level text primitives: whitespace, trimming, searching and
//! splitting, each stated as a spec function over `Seq<char>` and implemented
//! on `Vec<char>`.
use vstd::prelude::*;

verus! {

/// The Unicode `White_Space` property, which is what `char::is_whitespace`
/// tests.
pub open spec fn is_ws(c: char) -> bool {
    ('\u{9}' <= c && c <= '\u{d}') || c == ' ' || c == '\u{85}' || c == '\u{a0}' || c
        == '\u{1680}' || ('\u{2000}' <= c && c <= '\u{200a}') || c == '\u{2028}' || c == '\u{2029}'
        || c == '\u{202f}' || c == '\u{205f}' || c == '\u{3000}'
}

pub fn is_whitespace(c: char) -> (r: bool)
    ensures
        r == is_ws(c),
{
    ('\u{9}' <= c && c <= '\u{d}') || c == ' ' || c == '\u{85}' || c == '\u{a0}' || c
        == '\u{1680}' || ('\u{2000}' <= c && c <= '\u{200a}') || c == '\u{2028}' || c == '\u{2029}'
        || c == '\u{202f}' || c == '\u{205f}' || c == '\u{3000}'
}

/// The separator classes the format splits on.
#[derive(Clone, Copy, PartialEq, Eq)]
pub enum Sep {
    /// Any whitespace character.
    Space,
    /// A space, a tab or a comma (the separators of a receiver list).
    ListSep,
    /// One given character.
    Char(char),
    /// The exponent mark of a number, `e` or `E`.
    ExponentMark,
    /// Anything but an ASCII digit.
    NonDigit,
}

pub open spec fn is_sep(k: Sep, c: char) -> bool {
    match k {
        Sep::Space => is_ws(c),
        Sep::ListSep => c == ' ' || c == '\t' || c == ',',
        Sep::Char(d) => c == d,
        Sep::ExponentMark => c == 'e' || c == 'E',
        Sep::NonDigit => !('0' <= c && c <= '9'),
    }
}

pub fn sep_matches(k: Sep, c: char) -> (r: bool)
    ensures
        r == is_sep(k, c),
{
    match k {
        Sep::Space => is_whitespace(c),
        Sep::ListSep => c == ' ' || c == '\t' || c == ',',
        Sep::Char(d) => c == d,
        Sep::ExponentMark => c == 'e' || c == 'E',
        Sep::NonDigit => !('0' <= c && c <= '9'),
    }
}

/// Index of the first separator of class `k` in `s`.
pub open spec fn find(s: Seq<char>, k: Sep) -> Option<int>
    decreases s.len(),
{
    if s.len() == 0 {
        None
    } else if is_sep(k, s[0]) {
        Some(0)
    } else {
        match find(s.drop_first(), k) {
            Some(i) => Some(i + 1),
            None => None,
        }
    }
}

pub proof fn lemma_find(s: Seq<char>, k: Sep)
    ensures
        match find(s, k) {
            Some(i) => 0 <= i < s.len() && is_sep(k, s[i]) && forall|j: int|
                0 <= j < i ==> !is_sep(k, #[trigger] s[j]),
            None => forall|j: int| 0 <= j < s.len() ==> !is_sep(k, #[trigger] s[j]),
        },
    decreases s.len(),
{
    if s.len() > 0 && !is_sep(k, s[0]) {
        lemma_find(s.drop_first(), k);
        assert forall|j: int| 1 <= j < s.len() implies s[j] == s.drop_first()[j - 1] by {}
    }
}

/// `find` is determined by the first separator position.
pub proof fn lemma_find_at(s: Seq<char>, k: Sep, i: int)
    requires
        0 <= i <= s.len(),
        forall|j: int| 0 <= j < i ==> !is_sep(k, #[trigger] s[j]),
        i < s.len() ==> is_sep(k, s[i]),
    ensures
        find(s, k) == (if i < s.len() {
            Some(i)
        } else {
            None::<int>
        }),
{
    lemma_find(s, k);
    match find(s, k) {
        Some(j) => {
            if j < i {
            } else if j > i {
                assert(!is_sep(k, s[i]));
            }
        },
        None => {
            if i < s.len() {
                assert(is_sep(k, s[i]));
            }
        },
    }
}

/// Collects characters into a `String` (`FromIterator<char> for String`).
#[verifier::external_body]
pub(crate) fn to_string(v: &Vec<char>) -> (s: String)
    ensures
        s@ == v@,
{
    v.iter().collect()
}

/// The characters of `s`.
pub fn chars_of(s: &str) -> (r: Vec<char>)
    ensures
        r@ == s@,
{
    broadcast use vstd::string::group_string_axioms;

    let mut r: Vec<char> = Vec::new();
    for c in it: s.chars()
        invariant
            r@ == it.seq().take(it.index()),
            it.seq() == s@,
    {
        r.push(c);
    }
    r
}

/// Copy of `s[lo..hi]`.
pub fn slice(s: &Vec<char>, lo: usize, hi: usize) -> (r: Vec<char>)
    requires
        lo <= hi <= s.len(),
    ensures
        r@ == s@.subrange(lo as int, hi as int),
{
    let mut r: Vec<char> = Vec::new();
    let mut i = lo;
    while i < hi
        invariant
            lo <= i <= hi <= s.len(),
            r@ == s@.subrange(lo as int, i as int),
        decreases hi - i,
    {
        r.push(s[i]);
        i += 1;
    }
    r
}

/// Concatenation `a + b`.
pub fn concat(a: &Vec<char>, b: &Vec<char>) -> (r: Vec<char>)
    ensures
        r@ == a@ + b@,
{
    let mut r = slice(a, 0, a.len());
    let mut i: usize = 0;
    while i < b.len()
        invariant
            i <= b.len(),
            r@ == a@ + b@.subrange(0, i as int),
        decreases b.len() - i,
    {
        r.push(b[i]);
        i += 1;
    }
    r
}

/// Appends `b` to `a`.
pub fn push_all(a: &mut Vec<char>, b: &Vec<char>)
    ensures
        final(a)@ == old(a)@ + b@,
{
    let mut i: usize = 0;
    while i < b.len()
        invariant
            i <= b.len(),
            a@ == old(a)@ + b@.subrange(0, i as int),
        decreases b.len() - i,
    {
        a.push(b[i]);
        i += 1;
    }
}

/// Position of the first separator of class `k` in `s`.
pub fn find_sep(s: &Vec<char>, k: Sep) -> (r: Option<usize>)
    ensures
        match r {
            Some(i) => find(s@, k) == Some(i as int),
            None => find(s@, k) is None,
        },
{
    let mut i: usize = 0;
    while i < s.len()
        invariant
            i <= s.len(),
            forall|j: int| 0 <= j < i ==> !is_sep(k, #[trigger] s@[j]),
        decreases s.len() - i,
    {
        if sep_matches(k, s[i]) {
            proof {
                lemma_find_at(s@, k, i as int);
            }
            return Some(i);
        }
        i += 1;
    }
    proof {
        lemma_find_at(s@, k, i as int);
    }
    None
}

pub open spec fn trim_start(s: Seq<char>) -> Seq<char>
    decreases s.len(),
{
    if s.len() > 0 && is_ws(s[0]) {
        trim_start(s.drop_first())
    } else {
        s
    }
}

pub open spec fn trim_end(s: Seq<char>) -> Seq<char>
    decreases s.len(),
{
    if s.len() > 0 && is_ws(s.last()) {
        trim_end(s.drop_last())
    } else {
        s
    }
}

/// `str::trim`: both ends stripped of whitespace.
pub open spec fn trim(s: Seq<char>) -> Seq<char> {
    trim_end(trim_start(s))
}

/// `trim_end_matches(c)`: every trailing `c` removed.
pub open spec fn trim_end_char(s: Seq<char>, c: char) -> Seq<char>
    decreases s.len(),
{
    if s.len() > 0 && s.last() == c {
        trim_end_char(s.drop_last(), c)
    } else {
        s
    }
}

pub fn trim_start_chars(s: &Vec<char>) -> (r: Vec<char>)
    ensures
        r@ == trim_start(s@),
{
    let n = s.len();
    let mut lo: usize = 0;
    assert(s@.subrange(0, n as int) =~= s@);
    while lo < n && is_whitespace(s[lo])
        invariant
            lo <= n == s.len(),
            trim_start(s@) == trim_start(s@.subrange(lo as int, n as int)),
        decreases n - lo,
    {
        assert(s@.subrange(lo as int, n as int).drop_first() =~= s@.subrange(lo + 1, n as int));
        lo += 1;
    }
    slice(s, lo, n)
}

pub fn trim_chars(s: &Vec<char>) -> (r: Vec<char>)
    ensures
        r@ == trim(s@),
{
    let t = trim_start_chars(s);
    let n = t.len();
    let mut hi: usize = n;
    assert(t@.subrange(0, n as int) =~= t@);
    while hi > 0 && is_whitespace(t[hi - 1])
        invariant
            hi <= n == t.len(),
            trim_end(t@) == trim_end(t@.subrange(0, hi as int)),
        decreases hi,
    {
        assert(t@.subrange(0, hi as int).drop_last() =~= t@.subrange(0, hi - 1));
        hi -= 1;
    }
    slice(&t, 0, hi)
}

pub fn trim_end_char_chars(s: &Vec<char>, c: char) -> (r: Vec<char>)
    ensures
        r@ == trim_end_char(s@, c),
{
    let n = s.len();
    let mut hi: usize = n;
    assert(s@.subrange(0, n as int) =~= s@);
    while hi > 0 && s[hi - 1] == c
        invariant
            hi <= n == s.len(),
            trim_end_char(s@, c) == trim_end_char(s@.subrange(0, hi as int), c),
        decreases hi,
    {
        assert(s@.subrange(0, hi as int).drop_last() =~= s@.subrange(0, hi - 1));
        hi -= 1;
    }
    slice(s, 0, hi)
}

pub open spec fn starts_with(s: Seq<char>, p: Seq<char>) -> bool {
    p.len() <= s.len() && s.subrange(0, p.len() as int) == p
}

pub fn has_prefix(s: &Vec<char>, p: &Vec<char>) -> (r: bool)
    ensures
        r == starts_with(s@, p@),
{
    if p.len() > s.len() {
        return false;
    }
    let mut i: usize = 0;
    while i < p.len()
        invariant
            i <= p.len() <= s.len(),
            forall|j: int| 0 <= j < i ==> s@[j] == p@[j],
        decreases p.len() - i,
    {
        if s[i] != p[i] {
            assert(s@.subrange(0, p.len() as int)[i as int] != p@[i as int]);
            return false;
        }
        i += 1;
    }
    assert(s@.subrange(0, p.len() as int) =~= p@);
    true
}

/// `strip_prefix`: the rest of `s` after `p`, when `s` starts with `p`.
pub fn strip_prefix(s: &Vec<char>, p: &Vec<char>) -> (r: Option<Vec<char>>)
    ensures
        match r {
            Some(t) => starts_with(s@, p@) && t@ == s@.subrange(p@.len() as int, s@.len() as int),
            None => !starts_with(s@, p@),
        },
{
    if has_prefix(s, p) {
        Some(slice(s, p.len(), s.len()))
    } else {
        None
    }
}

/// Number of leading characters of `s` that are not separators of class `k`.
pub open spec fn word_len(s: Seq<char>, k: Sep) -> nat
    decreases s.len(),
{
    if s.len() == 0 || is_sep(k, s[0]) {
        0
    } else {
        1 + word_len(s.drop_first(), k)
    }
}

pub proof fn lemma_word_len(s: Seq<char>, k: Sep)
    ensures
        word_len(s, k) <= s.len(),
        forall|j: int| 0 <= j < word_len(s, k) ==> !is_sep(k, #[trigger] s[j]),
        word_len(s, k) < s.len() ==> is_sep(k, s[word_len(s, k) as int]),
    decreases s.len(),
{
    if s.len() > 0 && !is_sep(k, s[0]) {
        lemma_word_len(s.drop_first(), k);
        assert forall|j: int| 0 <= j < word_len(s, k) implies !is_sep(k, #[trigger] s[j]) by {
            if j > 0 {
                assert(s[j] == s.drop_first()[j - 1]);
            }
        }
    }
}

pub proof fn lemma_word_len_at(s: Seq<char>, k: Sep, i: int)
    requires
        0 <= i <= s.len(),
        forall|j: int| 0 <= j < i ==> !is_sep(k, #[trigger] s[j]),
        i < s.len() ==> is_sep(k, s[i]),
    ensures
        word_len(s, k) == i,
{
    lemma_word_len(s, k);
    if word_len(s, k) < i {
        assert(!is_sep(k, s[word_len(s, k) as int]));
    } else if word_len(s, k) > i {
        assert(!is_sep(k, s[i]));
    }
}

/// The number of leading characters of `s` that are not separators of class
/// `k` (the position of the first separator, or the length).
pub fn word_len_exec(s: &Vec<char>, k: Sep) -> (r: usize)
    ensures
        r == word_len(s@, k),
{
    let mut i: usize = 0;
    while i < s.len() && !sep_matches(k, s[i])
        invariant
            i <= s.len(),
            forall|j: int| 0 <= j < i ==> !is_sep(k, #[trigger] s@[j]),
        decreases s.len() - i,
    {
        i += 1;
    }
    proof {
        lemma_word_len_at(s@, k, i as int);
    }
    i
}

/// `split(sep).filter(|t| !t.is_empty())`: the maximal non-empty runs of
/// non-separator characters, in order.
pub open spec fn tokens(s: Seq<char>, k: Sep) -> Seq<Seq<char>>
    decreases s.len(),
{
    if s.len() == 0 {
        seq![]
    } else if is_sep(k, s[0]) {
        tokens(s.drop_first(), k)
    } else {
        let w = word_len(s, k);
        proof {
            lemma_word_len(s, k);
        }
        seq![s.subrange(0, w as int)] + tokens(s.subrange(w as int, s.len() as int), k)
    }
}

pub fn split_tokens(s: &Vec<char>, k: Sep) -> (r: Vec<Vec<char>>)
    ensures
        r@.map_values(|t: Vec<char>| t@) == tokens(s@, k),
{
    let n = s.len();
    let mut out: Vec<Vec<char>> = Vec::new();
    let mut i: usize = 0;
    assert(s@.subrange(0, n as int) =~= s@);
    while i < n
        invariant
            i <= n == s.len(),
            tokens(s@, k) == out@.map_values(|t: Vec<char>| t@) + tokens(
                s@.subrange(i as int, n as int),
                k,
            ),
        decreases n - i,
    {
        let ghost rest = s@.subrange(i as int, n as int);
        if sep_matches(k, s[i]) {
            assert(rest.drop_first() =~= s@.subrange(i + 1, n as int));
            i += 1;
        } else {
            let start = i;
            while i < n && !sep_matches(k, s[i])
                invariant
                    start <= i <= n == s.len(),
                    forall|j: int| start <= j < i ==> !is_sep(k, #[trigger] s@[j]),
                decreases n - i,
            {
                i += 1;
            }
            proof {
                assert forall|j: int| 0 <= j < i - start implies !is_sep(k, #[trigger] rest[j]) by {
                    assert(rest[j] == s@[start + j]);
                }
                lemma_word_len_at(rest, k, i - start);
                assert(rest.subrange(0, i - start) =~= s@.subrange(start as int, i as int));
                assert(rest.subrange(i - start, rest.len() as int) =~= s@.subrange(
                    i as int,
                    n as int,
                ));
            }
            let w = slice(s, start, i);
            let ghost before = out@.map_values(|t: Vec<char>| t@);
            out.push(w);
            assert(out@.map_values(|t: Vec<char>| t@) =~= before.push(w@));
            assert(before.push(w@) + tokens(s@.subrange(i as int, n as int), k) =~= before + (seq![
                w@,
            ] + tokens(s@.subrange(i as int, n as int), k)));
        }
    }
    assert(s@.subrange(n as int, n as int) =~= Seq::<char>::empty());
    assert(out@.map_values(|t: Vec<char>| t@) + Seq::<Seq<char>>::empty() =~= out@.map_values(
        |t: Vec<char>| t@,
    ));
    out
}

/// `split(c)` with the piece under construction `cur`: the pieces between
/// occurrences of `c`, empty pieces included.
pub open spec fn split_acc(s: Seq<char>, c: char, cur: Seq<char>) -> Seq<Seq<char>>
    decreases s.len(),
{
    if s.len() == 0 {
        seq![cur]
    } else if s[0] == c {
        seq![cur] + split_acc(s.drop_first(), c, Seq::empty())
    } else {
        split_acc(s.drop_first(), c, cur.push(s[0]))
    }
}

/// `str::split(c)`.
pub open spec fn split_on(s: Seq<char>, c: char) -> Seq<Seq<char>> {
    split_acc(s, c, Seq::empty())
}

pub fn split_on_char(s: &Vec<char>, c: char) -> (r: Vec<Vec<char>>)
    ensures
        r@.map_values(|t: Vec<char>| t@) == split_on(s@, c),
{
    let n = s.len();
    let mut out: Vec<Vec<char>> = Vec::new();
    let mut cur: Vec<char> = Vec::new();
    let mut i: usize = 0;
    assert(s@.subrange(0, n as int) =~= s@);
    while i < n
        invariant
            i <= n == s.len(),
            split_on(s@, c) == out@.map_values(|t: Vec<char>| t@) + split_acc(
                s@.subrange(i as int, n as int),
                c,
                cur@,
            ),
        decreases n - i,
    {
        let ghost rest = s@.subrange(i as int, n as int);
        assert(rest.drop_first() =~= s@.subrange(i + 1, n as int));
        if s[i] == c {
            let ghost before = out@.map_values(|t: Vec<char>| t@);
            let piece = cur;
            cur = Vec::new();
            out.push(piece);
            assert(out@.map_values(|t: Vec<char>| t@) =~= before.push(piece@));
            assert(before.push(piece@) + split_acc(s@.subrange(i + 1, n as int), c, cur@)
                =~= before + (seq![piece@] + split_acc(s@.subrange(i + 1, n as int), c, cur@)));
        } else {
            cur.push(s[i]);
        }
        i += 1;
    }
    let ghost before = out@.map_values(|t: Vec<char>| t@);
    assert(s@.subrange(n as int, n as int) =~= Seq::<char>::empty());
    out.push(cur);
    assert(out@.map_values(|t: Vec<char>| t@) =~= before + seq![cur@]);
    out
}

} // verus!
