//! Small lexing steps of the format: quoted strings, words, `;`-terminated
//! statements that may span several lines, and value/label pairs.
use vstd::prelude::*;
use vstd::string::StringSliceAdditionalSpecFns;
use crate::numbers::{parse_i64, parse_i64_spec};
use crate::text::{
    find, find_sep, has_prefix, is_sep, lemma_find, slice, starts_with, trim, trim_chars, trim_start,
    trim_start_chars, Sep,
};

verus! {

/// Scans a quoted string body from `t[i]` on: `\` takes the next character
/// literally, `"` ends the string.  Returns the content and the index just
/// past the closing quote (the length when the quote is never closed).
pub open spec fn scan_quoted(t: Seq<char>, i: int, acc: Seq<char>) -> (Seq<char>, int)
    decreases t.len() - i,
{
    if i < 0 || i >= t.len() {
        (acc, t.len() as int)
    } else if t[i] == '\\' {
        if i + 1 < t.len() {
            scan_quoted(t, i + 2, acc.push(t[i + 1]))
        } else {
            (acc, t.len() as int)
        }
    } else if t[i] == '"' {
        (acc, i + 1)
    } else {
        scan_quoted(t, i + 1, acc.push(t[i]))
    }
}

/// The first double-quoted string in `s`, with `\"` and `\\` escapes
/// resolved, and the text after its closing quote.  An unterminated string
/// runs to the end.
pub open spec fn read_first_quoted_spec(s: Seq<char>) -> Option<(Seq<char>, Seq<char>)> {
    match find(s, Sep::Char('"')) {
        None => None,
        Some(k) => {
            let sc = scan_quoted(s, k + 1, Seq::empty());
            Some((sc.0, s.subrange(sc.1, s.len() as int)))
        },
    }
}

pub proof fn lemma_scan_quoted_bounds(t: Seq<char>, i: int, acc: Seq<char>)
    requires
        0 <= i,
    ensures
        i <= scan_quoted(t, i, acc).1 <= t.len() || (i > t.len() && scan_quoted(t, i, acc).1
            == t.len()),
        i < t.len() ==> i < scan_quoted(t, i, acc).1,
    decreases t.len() - i,
{
    if i < t.len() {
        if t[i] == '\\' {
            if i + 1 < t.len() {
                lemma_scan_quoted_bounds(t, i + 2, acc.push(t[i + 1]));
            }
        } else if t[i] != '"' {
            lemma_scan_quoted_bounds(t, i + 1, acc.push(t[i]));
        }
    }
}

/// `read_first_quoted`.
pub fn read_first_quoted(s: &Vec<char>) -> (r: Option<(Vec<char>, Vec<char>)>)
    ensures
        match r {
            Some((c, rest)) => read_first_quoted_spec(s@) == Some((c@, rest@)),
            None => read_first_quoted_spec(s@) is None,
        },
{
    let k = match find_sep(s, Sep::Char('"')) {
        Some(k) => k,
        None => return None,
    };
    proof {
        lemma_find(s@, Sep::Char('"'));
    }
    let n = s.len();
    let mut acc: Vec<char> = Vec::new();
    let mut i = k + 1;
    while i < n
        invariant
            k < i <= n == s.len(),
            find(s@, Sep::Char('"')) == Some(k as int),
            scan_quoted(s@, k + 1, Seq::empty()) == scan_quoted(s@, i as int, acc@),
        decreases n - i,
    {
        let c = s[i];
        if c == '\\' {
            if i + 1 < n {
                acc.push(s[i + 1]);
                i += 2;
            } else {
                i = n;
            }
        } else if c == '"' {
            let rest = slice(s, i + 1, n);
            assert(scan_quoted(s@, i as int, acc@) == (acc@, i as int + 1));
            return Some((acc, rest));
        } else {
            acc.push(c);
            i += 1;
        }
    }
    let rest: Vec<char> = Vec::new();
    assert(s@.subrange(n as int, n as int) =~= rest@);
    Some((acc, rest))
}

/// `unquote`: the content of the first quoted string.
pub open spec fn unquote_spec(s: Seq<char>) -> Option<Seq<char>> {
    match read_first_quoted_spec(s) {
        Some((c, _)) => Some(c),
        None => None,
    }
}

pub fn unquote(s: &Vec<char>) -> (r: Option<Vec<char>>)
    ensures
        match r {
            Some(c) => unquote_spec(s@) == Some(c@),
            None => unquote_spec(s@) is None,
        },
{
    match read_first_quoted(s) {
        Some((c, _)) => Some(c),
        None => None,
    }
}

/// `take_word`: the first whitespace-delimited word (after leading
/// whitespace) and the text after it, starting at the delimiter.
pub open spec fn take_word_spec(s: Seq<char>) -> (Seq<char>, Seq<char>) {
    let t = trim_start(s);
    match find(t, Sep::Space) {
        Some(p) => (t.subrange(0, p), t.subrange(p, t.len() as int)),
        None => (t, Seq::empty()),
    }
}

pub fn take_word(s: &Vec<char>) -> (r: (Vec<char>, Vec<char>))
    ensures
        (r.0@, r.1@) == take_word_spec(s@),
{
    let t = trim_start_chars(s);
    match find_sep(&t, Sep::Space) {
        Some(p) => {
            proof {
                lemma_find(t@, Sep::Space);
            }
            (slice(&t, 0, p), slice(&t, p, t.len()))
        },
        None => (t, Vec::new()),
    }
}

/// Scans for the first `;` outside a double-quoted string from `s[i]` on; in a
/// quoted string a `\` skips the next character.
pub open spec fn semicolon_from(s: Seq<char>, i: int, in_quote: bool) -> Option<int>
    decreases s.len() - i,
{
    if i < 0 || i >= s.len() {
        None
    } else if s[i] == '\\' && in_quote {
        if i + 2 >= s.len() {
            None
        } else {
            semicolon_from(s, i + 2, in_quote)
        }
    } else if s[i] == '"' {
        semicolon_from(s, i + 1, !in_quote)
    } else if s[i] == ';' && !in_quote {
        Some(i)
    } else {
        semicolon_from(s, i + 1, in_quote)
    }
}

/// `unquoted_semicolon`: position of the first `;` outside a quoted string.
pub open spec fn unquoted_semicolon_spec(s: Seq<char>) -> Option<int> {
    semicolon_from(s, 0, false)
}

pub proof fn lemma_semicolon_from(s: Seq<char>, i: int, q: bool)
    ensures
        semicolon_from(s, i, q) matches Some(p) ==> 0 <= i <= p < s.len() && s[p] == ';',
    decreases s.len() - i,
{
    if 0 <= i < s.len() {
        if s[i] == '\\' && q {
            if i + 2 < s.len() {
                lemma_semicolon_from(s, i + 2, q);
            }
        } else if s[i] == '"' {
            lemma_semicolon_from(s, i + 1, !q);
        } else if !(s[i] == ';' && !q) {
            lemma_semicolon_from(s, i + 1, q);
        }
    }
}

/// The character index of the first `;` outside a double-quoted string.
fn semicolon_index(s: &Vec<char>) -> (r: Option<usize>)
    ensures
        match r {
            Some(p) => unquoted_semicolon_spec(s@) == Some(p as int),
            None => unquoted_semicolon_spec(s@) is None,
        },
{
    let n = s.len();
    let mut in_quote = false;
    let mut i: usize = 0;
    while i < n
        invariant
            i <= n == s.len(),
            unquoted_semicolon_spec(s@) == semicolon_from(s@, i as int, in_quote),
        decreases n - i,
    {
        let c = s[i];
        if c == '\\' && in_quote {
            if n - i <= 2 {
                return None;
            }
            i += 2;
        } else if c == '"' {
            in_quote = !in_quote;
            i += 1;
        } else if c == ';' && !in_quote {
            return Some(i);
        } else {
            i += 1;
        }
    }
    None
}

/// The scan of `unquoted_semicolon` over the bytes of a text from byte `i`
/// on: a `"` opens or closes a quoted string, in which a `\` skips the next
/// byte; the first `;` outside one is the result.
pub open spec fn byte_semicolon_from(b: Seq<u8>, i: int, in_quote: bool) -> Option<int>
    decreases b.len() - i,
{
    if i < 0 || i >= b.len() {
        None
    } else if b[i] == 92u8 && in_quote {
        if i + 2 >= b.len() {
            None
        } else {
            byte_semicolon_from(b, i + 2, in_quote)
        }
    } else if b[i] == 34u8 {
        byte_semicolon_from(b, i + 1, !in_quote)
    } else if b[i] == 59u8 && !in_quote {
        Some(i)
    } else {
        byte_semicolon_from(b, i + 1, in_quote)
    }
}

/// `unquoted_semicolon`: the byte offset of the first `;` outside a
/// double-quoted string, honouring `\` escapes inside one.
pub fn unquoted_semicolon(s: &str) -> (r: Option<usize>)
    ensures
        match r {
            Some(p) => byte_semicolon_from(s.spec_bytes(), 0, false) == Some(p as int),
            None => byte_semicolon_from(s.spec_bytes(), 0, false) is None,
        },
{
    let bytes = s.as_bytes();
    let n = bytes.len();
    let mut in_quote = false;
    let mut i: usize = 0;
    while i < n
        invariant
            i <= n == bytes@.len(),
            bytes@ == s.spec_bytes(),
            byte_semicolon_from(s.spec_bytes(), 0, false) == byte_semicolon_from(
                bytes@,
                i as int,
                in_quote,
            ),
        decreases n - i,
    {
        let c = bytes[i];
        if c == 92u8 && in_quote {
            if n - i <= 2 {
                return None;
            }
            i += 2;
        } else if c == 34u8 {
            in_quote = !in_quote;
            i += 1;
        } else if c == 59u8 && !in_quote {
            return Some(i);
        } else {
            i += 1;
        }
    }
    None
}

/// `join_statement` from line `i` on, with `out` accumulated so far over
/// `consumed` lines.
pub open spec fn join_from(lines: Seq<Seq<char>>, i: int, out: Seq<char>, consumed: nat) -> (
    Seq<char>,
    nat,
)
    decreases lines.len() - i,
{
    if i < 0 || i >= lines.len() {
        (out, consumed)
    } else {
        let out2 = (if out.len() > 0 {
            out.push('\n')
        } else {
            out
        }) + lines[i];
        match unquoted_semicolon_spec(out2) {
            Some(p) => (out2.subrange(0, p + 1), consumed + 1),
            None => join_from(lines, i + 1, out2, consumed + 1),
        }
    }
}

/// `join_statement`: the physical lines from `start` on, joined with `\n`, up
/// to the first `;` outside a quoted string (the statement is cut there), and
/// the number of lines used.
pub open spec fn join_statement_spec(lines: Seq<Seq<char>>, start: int) -> (Seq<char>, nat) {
    join_from(lines, start, Seq::empty(), 0)
}

pub fn join_statement(lines: &Vec<Vec<char>>, start: usize) -> (r: (Vec<char>, usize))
    ensures
        (r.0@, r.1 as nat) == join_statement_spec(lines@.map_values(|l: Vec<char>| l@), start as int),
        start < lines.len() ==> 1 <= r.1 <= lines.len() - start,
        start >= lines.len() ==> r.0@.len() == 0 && r.1 == 0,
{
    let ghost lv = lines@.map_values(|l: Vec<char>| l@);
    let mut out: Vec<char> = Vec::new();
    let mut consumed: usize = 0;
    let mut i = start;
    if start >= lines.len() {
        return (out, 0);
    }
    while i < lines.len()
        invariant
            start <= i <= lines.len(),
            consumed == i - start,
            lv == lines@.map_values(|l: Vec<char>| l@),
            join_statement_spec(lv, start as int) == join_from(lv, i as int, out@, consumed as nat),
        decreases lines.len() - i,
    {
        if out.len() > 0 {
            out.push('\n');
        }
        crate::text::push_all(&mut out, &lines[i]);
        assert(lv[i as int] == lines@[i as int]@);
        consumed += 1;
        match semicolon_index(&out) {
            Some(p) => {
                proof {
                    lemma_semicolon_from(out@, 0, false);
                }
                assert(p < out.len());
                let stmt = slice(&out, 0, p + 1);
                return (stmt, consumed);
            },
            None => {},
        }
        i += 1;
    }
    (out, consumed)
}

/// The keywords of the statements that end with `;` and so may span lines.
pub open spec fn statement_keywords() -> Seq<Seq<char>> {
    seq![
        "CM_"@,
        "VAL_TABLE_"@,
        "VAL_"@,
        "BA_DEF_DEF_REL_"@,
        "BA_DEF_DEF_"@,
        "BA_DEF_REL_"@,
        "BA_DEF_"@,
        "BA_REL_"@,
        "BA_"@,
        "SIG_GROUP_"@,
        "SIG_VALTYPE_"@,
        "BO_TX_BU_"@,
        "EV_DATA_"@,
        "ENVVAR_DATA_"@,
        "SG_MUL_VAL_"@,
        "FILTER"@,
        "CAT_"@,
        "SGTYPE_"@,
    ]
}

/// `needs_semicolon`: the line starts a `;`-terminated statement.
pub open spec fn needs_semicolon_spec(t: Seq<char>) -> bool {
    exists|k: int| 0 <= k < statement_keywords().len() && starts_with(t, #[trigger] statement_keywords()[k])
}

fn statement_keyword_list() -> (r: Vec<Vec<char>>)
    ensures
        r@.map_values(|l: Vec<char>| l@) == statement_keywords(),
{
    let mut r: Vec<Vec<char>> = Vec::new();
    r.push(crate::text::chars_of("CM_"));
    r.push(crate::text::chars_of("VAL_TABLE_"));
    r.push(crate::text::chars_of("VAL_"));
    r.push(crate::text::chars_of("BA_DEF_DEF_REL_"));
    r.push(crate::text::chars_of("BA_DEF_DEF_"));
    r.push(crate::text::chars_of("BA_DEF_REL_"));
    r.push(crate::text::chars_of("BA_DEF_"));
    r.push(crate::text::chars_of("BA_REL_"));
    r.push(crate::text::chars_of("BA_"));
    r.push(crate::text::chars_of("SIG_GROUP_"));
    r.push(crate::text::chars_of("SIG_VALTYPE_"));
    r.push(crate::text::chars_of("BO_TX_BU_"));
    r.push(crate::text::chars_of("EV_DATA_"));
    r.push(crate::text::chars_of("ENVVAR_DATA_"));
    r.push(crate::text::chars_of("SG_MUL_VAL_"));
    r.push(crate::text::chars_of("FILTER"));
    r.push(crate::text::chars_of("CAT_"));
    r.push(crate::text::chars_of("SGTYPE_"));
    assert(r@.map_values(|l: Vec<char>| l@) =~= statement_keywords());
    r
}

pub fn needs_semicolon(t: &Vec<char>) -> (r: bool)
    ensures
        r == needs_semicolon_spec(t@),
{
    let kws = statement_keyword_list();
    let ghost kv = statement_keywords();
    let mut i: usize = 0;
    while i < kws.len()
        invariant
            i <= kws.len(),
            kws@.map_values(|l: Vec<char>| l@) == kv,
            kv == statement_keywords(),
            forall|k: int| 0 <= k < i ==> !starts_with(t@, #[trigger] kv[k]),
        decreases kws.len() - i,
    {
        assert(kv[i as int] == kws@[i as int]@);
        if has_prefix(t, &kws[i]) {
            return true;
        }
        i += 1;
    }
    false
}

/// `parse_value_pairs` on the trimmed text `rest`: `<number> "<label>"`
/// pairs up to the first piece that does not fit.
pub open spec fn value_pairs_from(rest: Seq<char>) -> Seq<(i64, Seq<char>)>
    decreases rest.len(),
{
    if rest.len() == 0 {
        Seq::empty()
    } else {
        let (num, after) = take_word_spec(rest);
        if num.len() == 0 {
            Seq::empty()
        } else {
            match parse_i64_spec(num) {
                None => Seq::empty(),
                Some(v) => match read_first_quoted_spec(after) {
                    None => Seq::empty(),
                    Some((label, after_label)) => {
                        let next = trim(after_label);
                        if next.len() < rest.len() {
                            seq![(v, label)] + value_pairs_from(next)
                        } else {
                            seq![(v, label)]
                        }
                    },
                },
            }
        }
    }
}

/// `parse_value_pairs`.
pub open spec fn value_pairs_spec(s: Seq<char>) -> Seq<(i64, Seq<char>)> {
    value_pairs_from(trim(s))
}

pub fn parse_value_pairs(s: &Vec<char>) -> (r: Vec<(i64, Vec<char>)>)
    ensures
        r@.map_values(|p: (i64, Vec<char>)| (p.0, p.1@)) == value_pairs_spec(s@),
{
    let mut out: Vec<(i64, Vec<char>)> = Vec::new();
    let mut rest = trim_chars(s);
    loop
        invariant
            value_pairs_spec(s@) == out@.map_values(|p: (i64, Vec<char>)| (p.0, p.1@))
                + value_pairs_from(rest@),
        decreases rest@.len(),
    {
        let ghost before = out@.map_values(|p: (i64, Vec<char>)| (p.0, p.1@));
        if rest.len() == 0 {
            assert(before + Seq::<(i64, Seq<char>)>::empty() =~= before);
            return out;
        }
        let (num, after) = take_word(&rest);
        if num.len() == 0 {
            assert(before + Seq::<(i64, Seq<char>)>::empty() =~= before);
            return out;
        }
        let v = match parse_i64(&num) {
            Some(v) => v,
            None => {
                assert(before + Seq::<(i64, Seq<char>)>::empty() =~= before);
                return out;
            },
        };
        match read_first_quoted(&after) {
            None => {
                assert(before + Seq::<(i64, Seq<char>)>::empty() =~= before);
                return out;
            },
            Some((label, after_label)) => {
                let next = trim_chars(&after_label);
                let ghost lv = label@;
                out.push((v, label));
                assert(out@.map_values(|p: (i64, Vec<char>)| (p.0, p.1@)) =~= before + seq![
                    (v, lv),
                ]);
                if next.len() < rest.len() {
                    assert(before + (seq![(v, lv)] + value_pairs_from(next@)) =~= before + seq![
                        (v, lv),
                    ] + value_pairs_from(next@));
                    rest = next;
                } else {
                    return out;
                }
            },
        }
    }
}

} // verus!
