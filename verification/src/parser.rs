//! A parser for the subset of the DBC format that matters for editing:
//! version, nodes, value tables, messages, signals, comments and value
//! descriptions.  Anything else is kept verbatim in [`Dbc::extra`].
use vstd::prelude::*;
use crate::decimal::{parse_number, parse_number_spec, Number, NumberView};
use crate::lexer::{
    join_statement, join_statement_spec, needs_semicolon, needs_semicolon_spec, parse_value_pairs,
    read_first_quoted, read_first_quoted_spec, take_word, take_word_spec, unquote, unquote_spec,
    value_pairs_spec,
};
use crate::model::{
    messages_view, nodes_view, opt_text, pairs, signals_view, tables_view, texts, vector_xxx,
    vector_xxx_string, ByteOrder, Dbc, DbcView, Message, MessageView, Multiplexer, Node, NodeView,
    Signal, SignalView, ValueTable, ValueTableView, ValueType,
};
use crate::numbers::{nat_text, parse_u32, parse_u32_spec, parse_u64, parse_u64_spec, u64_chars};
use crate::text::{
    chars_of, find, find_sep, has_prefix, is_sep, lemma_find, push_all, slice, split_on,
    split_on_char, split_tokens, starts_with, strip_prefix, to_string, tokens, trim,
    trim_chars, trim_end_char, trim_end_char_chars, Sep,
};

verus! {

// ---------------------------------------------------------------------------
// Statements, as spec functions.
/// `s` after the prefix `p`, or `s` itself when it does not start with `p`
/// (`strip_prefix(p).unwrap_or(s)`).
pub open spec fn after_prefix(s: Seq<char>, p: Seq<char>) -> Seq<char> {
    if starts_with(s, p) {
        s.subrange(p.len() as int, s.len() as int)
    } else {
        s
    }
}

/// `'<text>'` inside an error message.
pub open spec fn in_quotes(t: Seq<char>) -> Seq<char> {
    seq!['\''] + t + seq!['\'']
}

/// `parse_message`: `BO_ <id> <name>: <size> <transmitter>`.
pub open spec fn parse_message_spec(line: Seq<char>) -> Result<MessageView, Seq<char>> {
    let toks = tokens(after_prefix(line, "BO_ "@), Sep::Space);
    if toks.len() < 1 {
        Err("BO_ missing id"@)
    } else if parse_u32_spec(toks[0]) is None {
        Err("bad message id "@ + in_quotes(toks[0]))
    } else if toks.len() < 2 {
        Err("BO_ missing name"@)
    } else if toks.len() < 3 {
        Err("BO_ missing size"@)
    } else if parse_u64_spec(toks[2]) is None {
        Err("bad dlc "@ + in_quotes(toks[2]))
    } else {
        Ok(
            MessageView {
                id: parse_u32_spec(toks[0]).unwrap(),
                name: trim_end_char(toks[1], ':'),
                size: parse_u64_spec(toks[2]).unwrap(),
                transmitter: if toks.len() >= 4 {
                    toks[3]
                } else {
                    vector_xxx()
                },
                signals: Seq::empty(),
                comment: None,
            },
        )
    }
}

/// The outcome of reading a signal line.  The line is cut at the positions of
/// its delimiters; reading aborts when a closing delimiter comes before the one
/// it closes.
pub enum SignalRead {
    Read(SignalView),
    Failed(Seq<char>),
    Panics,
}

/// The multiplexer token after a signal's name.
pub open spec fn mux_spec(head: Seq<Seq<char>>) -> Multiplexer {
    if head.len() < 2 {
        Multiplexer::Normal
    } else if head[1] == seq!['M'] {
        Multiplexer::Multiplexor
    } else if head[1].len() > 0 && head[1][0] == 'm' {
        let t = head[1].subrange(1, head[1].len() as int);
        let digits = t.subrange(0, crate::text::word_len(t, Sep::NonDigit) as int);
        match parse_u64_spec(digits) {
            Some(n) => Multiplexer::Multiplexed(n),
            None => Multiplexer::Normal,
        }
    } else {
        Multiplexer::Normal
    }
}

/// `(<factor>,<offset>)`: the inner text between the parentheses.
pub open spec fn scaling_spec(inner: Seq<char>) -> Result<(NumberView, NumberView), Seq<char>> {
    match find(inner, Sep::Char(',')) {
        None => Err("SG_ bad (factor,offset)"@),
        Some(comma) => match parse_number_spec(trim(inner.subrange(0, comma))) {
            None => Err("bad factor"@),
            Some(f) => match parse_number_spec(
                trim(inner.subrange(comma + 1, inner.len() as int)),
            ) {
                None => Err("bad offset"@),
                Some(o) => Ok((f, o)),
            },
        },
    }
}

/// `[<min>|<max>]`: the inner text between the brackets.
pub open spec fn range_spec(inner: Seq<char>) -> Result<(NumberView, NumberView), Seq<char>> {
    match find(inner, Sep::Char('|')) {
        None => Err("SG_ bad [min|max]"@),
        Some(bar) => match parse_number_spec(trim(inner.subrange(0, bar))) {
            None => Err("bad min"@),
            Some(lo) => match parse_number_spec(trim(inner.subrange(bar + 1, inner.len() as int))) {
                None => Err("bad max"@),
                Some(hi) => Ok((lo, hi)),
            },
        },
    }
}

/// `"<unit>" <receivers>` after the closing bracket.
pub open spec fn unit_receivers_spec(tail: Seq<char>) -> (Seq<char>, Seq<Seq<char>>) {
    let (unit, rest) = match read_first_quoted_spec(tail) {
        Some((u, r)) => (u, r),
        None => (Seq::empty(), tail),
    };
    let recv = tokens(rest, Sep::ListSep);
    (unit, if recv.len() == 0 {
        seq![vector_xxx()]
    } else {
        recv
    })
}

/// `<start>|<size>@<order><sign>`: the trimmed text before the parenthesis.
pub enum BitsRead {
    Read(u64, u64, ByteOrder, ValueType),
    Failed(Seq<char>),
    Panics,
}

pub open spec fn bits_spec(bitspec: Seq<char>) -> BitsRead {
    match find(bitspec, Sep::Char('|')) {
        None => BitsRead::Failed("SG_ missing '|'"@),
        Some(bar) => match parse_u64_spec(trim(bitspec.subrange(0, bar))) {
            None => BitsRead::Failed("bad start bit"@),
            Some(start) => match find(bitspec, Sep::Char('@')) {
                None => BitsRead::Failed("SG_ missing '@'"@),
                Some(at) => if at < bar + 1 {
                    BitsRead::Panics
                } else {
                    match parse_u64_spec(trim(bitspec.subrange(bar + 1, at))) {
                        None => BitsRead::Failed("bad size"@),
                        Some(size) => {
                            let os = bitspec.subrange(at + 1, bitspec.len() as int);
                            BitsRead::Read(
                                start,
                                size,
                                if os.len() > 0 && os[0] == '0' {
                                    ByteOrder::BigEndian
                                } else {
                                    ByteOrder::LittleEndian
                                },
                                if find(os, Sep::Char('-')) is Some {
                                    ValueType::Signed
                                } else {
                                    ValueType::Unsigned
                                },
                            )
                        },
                    }
                },
            },
        },
    }
}

/// `parse_signal`:
/// `SG_ <name> [M|m<n>] : <start>|<size>@<order><sign> (<factor>,<offset>) [<min>|<max>] "<unit>" <receivers>`.
pub open spec fn parse_signal_spec(line: Seq<char>) -> SignalRead {
    let rest = after_prefix(line, "SG_ "@);
    match find(rest, Sep::Char(':')) {
        None => SignalRead::Failed("SG_ missing ':'"@),
        Some(colon) => {
            let head = tokens(rest.subrange(0, colon), Sep::Space);
            let spec = rest.subrange(colon + 1, rest.len() as int);
            if head.len() < 1 {
                SignalRead::Failed("SG_ missing name"@)
            } else {
                match find(spec, Sep::Char('(')) {
                    None => SignalRead::Failed("SG_ missing '('"@),
                    Some(paren) => match bits_spec(trim(spec.subrange(0, paren))) {
                        BitsRead::Failed(e) => SignalRead::Failed(e),
                        BitsRead::Panics => SignalRead::Panics,
                        BitsRead::Read(start, size, order, vtype) => match find(
                            spec,
                            Sep::Char(')'),
                        ) {
                            None => SignalRead::Failed("SG_ missing ')'"@),
                            Some(close) => if close < paren + 1 {
                                SignalRead::Panics
                            } else {
                                match scaling_spec(spec.subrange(paren + 1, close)) {
                                    Err(e) => SignalRead::Failed(e),
                                    Ok((factor, offset)) => {
                                        let after = spec.subrange(close + 1, spec.len() as int);
                                        match find(after, Sep::Char('[')) {
                                            None => SignalRead::Failed("SG_ missing '['"@),
                                            Some(lb) => match find(after, Sep::Char(']')) {
                                                None => SignalRead::Failed("SG_ missing ']'"@),
                                                Some(rb) => if rb < lb + 1 {
                                                    SignalRead::Panics
                                                } else {
                                                    match range_spec(after.subrange(lb + 1, rb)) {
                                                        Err(e) => SignalRead::Failed(e),
                                                        Ok((min, max)) => {
                                                            let ur = unit_receivers_spec(
                                                                after.subrange(
                                                                    rb + 1,
                                                                    after.len() as int,
                                                                ),
                                                            );
                                                            SignalRead::Read(
                                                                SignalView {
                                                                    name: head[0],
                                                                    multiplexer: mux_spec(head),
                                                                    start_bit: start,
                                                                    size,
                                                                    byte_order: order,
                                                                    value_type: vtype,
                                                                    factor,
                                                                    offset,
                                                                    min,
                                                                    max,
                                                                    unit: ur.0,
                                                                    receivers: ur.1,
                                                                    comment: None,
                                                                    value_descriptions: Seq::empty(),
                                                                },
                                                            )
                                                        },
                                                    }
                                                },
                                            },
                                        }
                                    },
                                }
                            },
                        },
                    },
                }
            }
        },
    }
}

/// `rest.trim().trim_end_matches(';').trim()`.
pub open spec fn statement_body(rest: Seq<char>) -> Seq<char> {
    trim(trim_end_char(trim(rest), ';'))
}

/// `parse_value_table`: `<name> <value> "<label>" ...`.
pub open spec fn parse_value_table_spec(rest: Seq<char>) -> Option<ValueTableView> {
    let r = statement_body(rest);
    if r.len() == 0 {
        None
    } else {
        match find(r, Sep::Space) {
            Some(p) => Some(
                ValueTableView {
                    name: r.subrange(0, p),
                    values: value_pairs_spec(r.subrange(p, r.len() as int)),
                },
            ),
            None => Some(ValueTableView { name: r, values: Seq::empty() }),
        }
    }
}

/// A `VAL_` statement waiting to be attached to its signal.
pub struct ValDefView {
    pub message_id: u32,
    pub signal: Seq<char>,
    pub values: Seq<(i64, Seq<char>)>,
}

/// `parse_val`: `<message id> <signal> <value> "<label>" ...`, split at the
/// first two whitespace characters.
pub open spec fn parse_val_spec(rest: Seq<char>) -> Option<ValDefView> {
    let r = statement_body(rest);
    let k1 = crate::text::word_len(r, Sep::Space);
    let p1 = r.subrange(0, k1 as int);
    match parse_u32_spec(p1) {
        None => None,
        Some(id) => if k1 >= r.len() {
            None
        } else {
            let r2 = r.subrange(k1 as int + 1, r.len() as int);
            let k2 = crate::text::word_len(r2, Sep::Space);
            let pairs_text = if k2 < r2.len() {
                r2.subrange(k2 as int + 1, r2.len() as int)
            } else {
                Seq::empty()
            };
            Some(
                ValDefView {
                    message_id: id,
                    signal: r2.subrange(0, k2 as int),
                    values: value_pairs_spec(pairs_text),
                },
            )
        },
    }
}

/// A comment statement waiting to be attached.
pub enum CommentView {
    Network(Seq<char>),
    Node(Seq<char>, Seq<char>),
    Message(u32, Seq<char>),
    Signal(u32, Seq<char>, Seq<char>),
}

/// The quoted text of a comment.
pub open spec fn comment_text(after: Seq<char>) -> Option<Seq<char>> {
    unquote_spec(after)
}

/// `parse_comment`: `[BU_ <node> | BO_ <id> | SG_ <id> <signal>] "<text>"`.
pub open spec fn parse_comment_spec(rest: Seq<char>) -> Option<CommentView> {
    let r = trim(rest);
    let body = trim(
        if r.len() > 0 && r.last() == ';' {
            r.drop_last()
        } else {
            r
        },
    );
    if starts_with(body, "BU_ "@) {
        let (node, after) = take_word_spec(trim(body.subrange(4, body.len() as int)));
        match comment_text(after) {
            Some(t) => Some(CommentView::Node(node, t)),
            None => None,
        }
    } else if starts_with(body, "BO_ "@) {
        let (ids, after) = take_word_spec(trim(body.subrange(4, body.len() as int)));
        match parse_u32_spec(ids) {
            None => None,
            Some(id) => match comment_text(after) {
                Some(t) => Some(CommentView::Message(id, t)),
                None => None,
            },
        }
    } else if starts_with(body, "SG_ "@) {
        let (ids, after) = take_word_spec(trim(body.subrange(4, body.len() as int)));
        match parse_u32_spec(ids) {
            None => None,
            Some(id) => {
                let (sig, after2) = take_word_spec(trim(after));
                match comment_text(after2) {
                    Some(t) => Some(CommentView::Signal(id, sig, t)),
                    None => None,
                }
            },
        }
    } else {
        match comment_text(body) {
            Some(t) => Some(CommentView::Network(t)),
            None => None,
        }
    }
}


// ---------------------------------------------------------------------------
// Statements.
fn strings_of(v: &Vec<Vec<char>>) -> (r: Vec<String>)
    ensures
        texts(r@) == v@.map_values(|t: Vec<char>| t@),
{
    let mut r: Vec<String> = Vec::new();
    let mut i: usize = 0;
    while i < v.len()
        invariant
            i <= v.len(),
            texts(r@) == v@.take(i as int).map_values(|t: Vec<char>| t@),
        decreases v.len() - i,
    {
        let t = to_string(&v[i]);
        let ghost old_r = r@;
        r.push(t);
        assert(r@ == old_r.push(t));
        assert(texts(r@) =~= texts(old_r).push(t@));
        assert(v@.take(i + 1).map_values(|t: Vec<char>| t@) =~= v@.take(i as int).map_values(
            |t: Vec<char>| t@,
        ).push(v@[i as int]@));
        i += 1;
    }
    assert(v@.take(v.len() as int) =~= v@);
    r
}

fn pairs_of(v: &Vec<(i64, Vec<char>)>) -> (r: Vec<(i64, String)>)
    ensures
        pairs(r@) == v@.map_values(|p: (i64, Vec<char>)| (p.0, p.1@)),
{
    let mut r: Vec<(i64, String)> = Vec::new();
    let mut i: usize = 0;
    while i < v.len()
        invariant
            i <= v.len(),
            pairs(r@) == v@.take(i as int).map_values(|p: (i64, Vec<char>)| (p.0, p.1@)),
        decreases v.len() - i,
    {
        let t = to_string(&v[i].1);
        let ghost old_r = r@;
        r.push((v[i].0, t));
        assert(pairs(r@) =~= pairs(old_r).push((v@[i as int].0, t@)));
        assert(v@.take(i + 1).map_values(|p: (i64, Vec<char>)| (p.0, p.1@)) =~= v@.take(
            i as int,
        ).map_values(|p: (i64, Vec<char>)| (p.0, p.1@)).push((v@[i as int].0, v@[i as int].1@)));
        i += 1;
    }
    assert(v@.take(v.len() as int) =~= v@);
    r
}

fn after_prefix_exec(s: &Vec<char>, p: &str) -> (r: Vec<char>)
    ensures
        r@ == after_prefix(s@, p@),
{
    match strip_prefix(s, &chars_of(p)) {
        Some(t) => t,
        None => slice(s, 0, s.len()),
    }
}

fn in_quotes_exec(t: &Vec<char>) -> (r: Vec<char>)
    ensures
        r@ == in_quotes(t@),
{
    let mut r = vec!['\''];
    push_all(&mut r, t);
    r.push('\'');
    assert(r@ =~= in_quotes(t@));
    r
}

fn text_then(a: &str, t: &Vec<char>) -> (r: Vec<char>)
    ensures
        r@ == a@ + t@,
{
    let mut r = chars_of(a);
    push_all(&mut r, t);
    r
}

/// `parse_message`.
fn parse_message(line: &Vec<char>) -> (r: Result<Message, Vec<char>>)
    ensures
        match r {
            Ok(m) => parse_message_spec(line@) == Ok::<MessageView, Seq<char>>(m@),
            Err(e) => parse_message_spec(line@) == Err::<MessageView, Seq<char>>(e@),
        },
{
    let rest = after_prefix_exec(line, "BO_ ");
    let toks = split_tokens(&rest, Sep::Space);
    let ghost tv = toks@.map_values(|t: Vec<char>| t@);
    if toks.len() < 1 {
        return Err(chars_of("BO_ missing id"));
    }
    assert(tv[0] == toks@[0]@);
    let id = match parse_u32(&toks[0]) {
        Some(v) => v,
        None => return Err(text_then("bad message id ", &in_quotes_exec(&toks[0]))),
    };
    if toks.len() < 2 {
        return Err(chars_of("BO_ missing name"));
    }
    if toks.len() < 3 {
        return Err(chars_of("BO_ missing size"));
    }
    assert(tv[1] == toks@[1]@);
    assert(tv[2] == toks@[2]@);
    let size = match parse_u64(&toks[2]) {
        Some(v) => v,
        None => return Err(text_then("bad dlc ", &in_quotes_exec(&toks[2]))),
    };
    let name = to_string(&trim_end_char_chars(&toks[1], ':'));
    let transmitter = if toks.len() >= 4 {
        assert(tv[3] == toks@[3]@);
        to_string(&toks[3])
    } else {
        vector_xxx_string()
    };
    let signals: Vec<Signal> = Vec::new();
    let m = Message { id, name, size, transmitter, signals, comment: None };
    assert(signals_view(m.signals@) =~= Seq::<SignalView>::empty());
    Ok(m)
}

/// The multiplexer token after a signal's name.
fn parse_mux(head: &Vec<Vec<char>>) -> (r: Multiplexer)
    ensures
        r == mux_spec(head@.map_values(|t: Vec<char>| t@)),
{
    let ghost hv = head@.map_values(|t: Vec<char>| t@);
    if head.len() < 2 {
        return Multiplexer::Normal;
    }
    let t = &head[1];
    assert(hv[1] == t@);
    if t.len() == 1 && t[0] == 'M' {
        assert(t@ =~= seq!['M']);
        return Multiplexer::Multiplexor;
    }
    assert(t@ != seq!['M']) by {
        if t@ == seq!['M'] {
            assert(t@.len() == 1 && t@[0] == 'M');
        }
    }
    if t.len() > 0 && t[0] == 'm' {
        let tail = slice(t, 1, t.len());
        let k = crate::text::word_len_exec(&tail, Sep::NonDigit);
        proof {
            crate::text::lemma_word_len(tail@, Sep::NonDigit);
        }
        let digits = slice(&tail, 0, k);
        match parse_u64(&digits) {
            Some(n) => Multiplexer::Multiplexed(n),
            None => Multiplexer::Normal,
        }
    } else {
        Multiplexer::Normal
    }
}

fn find_char(s: &Vec<char>, c: char) -> (r: Option<usize>)
    ensures
        match r {
            Some(i) => find(s@, Sep::Char(c)) == Some(i as int) && i < s.len() && s@[i as int] == c,
            None => find(s@, Sep::Char(c)) is None,
        },
{
    proof {
        lemma_find(s@, Sep::Char(c));
    }
    find_sep(s, Sep::Char(c))
}

/// `<start>|<size>@<order><sign>`; `Err(None)` where reading aborts.
fn parse_bits(bitspec: &Vec<char>) -> (r: Result<(u64, u64, ByteOrder, ValueType), Option<Vec<char>>>)
    ensures
        match r {
            Ok((a, b, o, v)) => bits_spec(bitspec@) == BitsRead::Read(a, b, o, v),
            Err(Some(e)) => bits_spec(bitspec@) == BitsRead::Failed(e@),
            Err(None) => bits_spec(bitspec@) == BitsRead::Panics,
        },
{
    let bar = match find_char(bitspec, '|') {
        Some(b) => b,
        None => return Err(Some(chars_of("SG_ missing '|'"))),
    };
    let start = match parse_u64(&trim_chars(&slice(bitspec, 0, bar))) {
        Some(v) => v,
        None => return Err(Some(chars_of("bad start bit"))),
    };
    let at = match find_char(bitspec, '@') {
        Some(a) => a,
        None => return Err(Some(chars_of("SG_ missing '@'"))),
    };
    if at < bar + 1 {
        return Err(None);
    }
    let size = match parse_u64(&trim_chars(&slice(bitspec, bar + 1, at))) {
        Some(v) => v,
        None => return Err(Some(chars_of("bad size"))),
    };
    let os = slice(bitspec, at + 1, bitspec.len());
    let order = if os.len() > 0 && os[0] == '0' {
        ByteOrder::BigEndian
    } else {
        ByteOrder::LittleEndian
    };
    let vtype = if find_char(&os, '-').is_some() {
        ValueType::Signed
    } else {
        ValueType::Unsigned
    };
    Ok((start, size, order, vtype))
}

fn parse_pair_of_numbers(inner: &Vec<char>, sep: char) -> (r: Result<(Number, Number), u8>)
    ensures
        match r {
            Ok((a, b)) => ({
                &&& find(inner@, Sep::Char(sep)) matches Some(k)
                &&& parse_number_spec(trim(inner@.subrange(0, k))) == Some(a@)
                &&& parse_number_spec(trim(inner@.subrange(k + 1, inner@.len() as int))) == Some(b@)
            }),
            Err(0) => find(inner@, Sep::Char(sep)) is None,
            Err(1) => find(inner@, Sep::Char(sep)) matches Some(k) && parse_number_spec(
                trim(inner@.subrange(0, k)),
            ) is None,
            Err(_) => find(inner@, Sep::Char(sep)) matches Some(k) && parse_number_spec(
                trim(inner@.subrange(0, k)),
            ) is Some && parse_number_spec(trim(inner@.subrange(k + 1, inner@.len() as int)))
                is None,
        },
{
    let k = match find_char(inner, sep) {
        Some(k) => k,
        None => return Err(0),
    };
    let a = match parse_number(&trim_chars(&slice(inner, 0, k))) {
        Some(a) => a,
        None => return Err(1),
    };
    let b = match parse_number(&trim_chars(&slice(inner, k + 1, inner.len()))) {
        Some(b) => b,
        None => return Err(2),
    };
    Ok((a, b))
}

fn unit_and_receivers(tail: &Vec<char>) -> (r: (String, Vec<String>))
    ensures
        (r.0@, texts(r.1@)) == unit_receivers_spec(tail@),
{
    let (unit, rest) = match read_first_quoted(tail) {
        Some((u, r)) => (u, r),
        None => (Vec::new(), slice(tail, 0, tail.len())),
    };
    assert((unit@, rest@) == (match read_first_quoted_spec(tail@) {
        Some((u, r)) => (u, r),
        None => (Seq::<char>::empty(), tail@),
    }));
    let recv = split_tokens(&rest, Sep::ListSep);
    let receivers = if recv.len() == 0 {
        let v = vec![vector_xxx_string()];
        assert(texts(v@) =~= seq![vector_xxx()]);
        v
    } else {
        strings_of(&recv)
    };
    (to_string(&unit), receivers)
}

/// `parse_signal`; `Err(None)` where reading aborts.
fn parse_signal(line: &Vec<char>) -> (r: Result<Signal, Option<Vec<char>>>)
    ensures
        match r {
            Ok(s) => parse_signal_spec(line@) == SignalRead::Read(s@),
            Err(Some(e)) => parse_signal_spec(line@) == SignalRead::Failed(e@),
            Err(None) => parse_signal_spec(line@) == SignalRead::Panics,
        },
{
    let rest = after_prefix_exec(line, "SG_ ");
    let colon = match find_char(&rest, ':') {
        Some(c) => c,
        None => return Err(Some(chars_of("SG_ missing ':'"))),
    };
    let head = split_tokens(&slice(&rest, 0, colon), Sep::Space);
    let spec = slice(&rest, colon + 1, rest.len());
    let ghost hv = head@.map_values(|t: Vec<char>| t@);
    if head.len() < 1 {
        return Err(Some(chars_of("SG_ missing name")));
    }
    assert(hv[0] == head@[0]@);
    let paren = match find_char(&spec, '(') {
        Some(p) => p,
        None => return Err(Some(chars_of("SG_ missing '('"))),
    };
    let (start_bit, size, byte_order, value_type) = match parse_bits(
        &trim_chars(&slice(&spec, 0, paren)),
    ) {
        Ok(b) => b,
        Err(e) => return Err(e),
    };
    let close = match find_char(&spec, ')') {
        Some(c) => c,
        None => return Err(Some(chars_of("SG_ missing ')'"))),
    };
    if close < paren + 1 {
        return Err(None);
    }
    let (factor, offset) = match parse_pair_of_numbers(&slice(&spec, paren + 1, close), ',') {
        Ok(p) => p,
        Err(0) => return Err(Some(chars_of("SG_ bad (factor,offset)"))),
        Err(1) => return Err(Some(chars_of("bad factor"))),
        Err(_) => return Err(Some(chars_of("bad offset"))),
    };
    let after = slice(&spec, close + 1, spec.len());
    let lb = match find_char(&after, '[') {
        Some(b) => b,
        None => return Err(Some(chars_of("SG_ missing '['"))),
    };
    let rb = match find_char(&after, ']') {
        Some(b) => b,
        None => return Err(Some(chars_of("SG_ missing ']'"))),
    };
    if rb < lb + 1 {
        return Err(None);
    }
    let (min, max) = match parse_pair_of_numbers(&slice(&after, lb + 1, rb), '|') {
        Ok(p) => p,
        Err(0) => return Err(Some(chars_of("SG_ bad [min|max]"))),
        Err(1) => return Err(Some(chars_of("bad min"))),
        Err(_) => return Err(Some(chars_of("bad max"))),
    };
    let (unit, receivers) = unit_and_receivers(&slice(&after, rb + 1, after.len()));
    let multiplexer = parse_mux(&head);
    let value_descriptions: Vec<(i64, String)> = Vec::new();
    let s = Signal {
        name: to_string(&head[0]),
        multiplexer,
        start_bit,
        size,
        byte_order,
        value_type,
        factor,
        offset,
        min,
        max,
        unit,
        receivers,
        comment: None,
        value_descriptions,
    };
    assert(pairs(s.value_descriptions@) =~= Seq::<(i64, Seq<char>)>::empty());
    Ok(s)
}


fn statement_body_exec(rest: &Vec<char>) -> (r: Vec<char>)
    ensures
        r@ == statement_body(rest@),
{
    trim_chars(&trim_end_char_chars(&trim_chars(rest), ';'))
}

fn pairs_from_text(t: &Vec<char>) -> (r: Vec<(i64, String)>)
    ensures
        pairs(r@) == value_pairs_spec(t@),
{
    let v = parse_value_pairs(t);
    pairs_of(&v)
}

/// `parse_value_table`.
fn parse_value_table(rest: &Vec<char>) -> (r: Option<ValueTable>)
    ensures
        match r {
            Some(t) => parse_value_table_spec(rest@) == Some(t@),
            None => parse_value_table_spec(rest@) is None,
        },
{
    let r = statement_body_exec(rest);
    if r.len() == 0 {
        return None;
    }
    match find_sep(&r, Sep::Space) {
        Some(p) => {
            proof {
                lemma_find(r@, Sep::Space);
            }
            let name = to_string(&slice(&r, 0, p));
            let values = pairs_from_text(&slice(&r, p, r.len()));
            Some(ValueTable { name, values })
        },
        None => {
            let values: Vec<(i64, String)> = Vec::new();
            let t = ValueTable { name: to_string(&r), values };
            assert(pairs(t.values@) =~= Seq::<(i64, Seq<char>)>::empty());
            Some(t)
        },
    }
}

/// A `VAL_` statement waiting to be attached.
struct ValDef {
    message_id: u32,
    signal: Vec<char>,
    values: Vec<(i64, String)>,
}

impl View for ValDef {
    type V = ValDefView;

    closed spec fn view(&self) -> ValDefView {
        ValDefView { message_id: self.message_id, signal: self.signal@, values: pairs(self.values@) }
    }
}

/// `parse_val`.
fn parse_val(rest: &Vec<char>) -> (r: Option<ValDef>)
    ensures
        match r {
            Some(v) => parse_val_spec(rest@) == Some(v@),
            None => parse_val_spec(rest@) is None,
        },
{
    let r = statement_body_exec(rest);
    let k1 = crate::text::word_len_exec(&r, Sep::Space);
    proof {
        crate::text::lemma_word_len(r@, Sep::Space);
    }
    let id = match parse_u32(&slice(&r, 0, k1)) {
        Some(id) => id,
        None => return None,
    };
    if k1 >= r.len() {
        return None;
    }
    let r2 = slice(&r, k1 + 1, r.len());
    let k2 = crate::text::word_len_exec(&r2, Sep::Space);
    proof {
        crate::text::lemma_word_len(r2@, Sep::Space);
    }
    let pairs_text = if k2 < r2.len() {
        slice(&r2, k2 + 1, r2.len())
    } else {
        Vec::new()
    };
    assert(pairs_text@ =~= (if k2 < r2@.len() {
        r2@.subrange(k2 as int + 1, r2@.len() as int)
    } else {
        Seq::<char>::empty()
    }));
    Some(ValDef { message_id: id, signal: slice(&r2, 0, k2), values: pairs_from_text(&pairs_text) })
}

/// A comment statement waiting to be attached.
enum Comment {
    Network(Vec<char>),
    Node(Vec<char>, Vec<char>),
    Message(u32, Vec<char>),
    Signal(u32, Vec<char>, Vec<char>),
}

impl View for Comment {
    type V = CommentView;

    closed spec fn view(&self) -> CommentView {
        match self {
            Comment::Network(t) => CommentView::Network(t@),
            Comment::Node(n, t) => CommentView::Node(n@, t@),
            Comment::Message(id, t) => CommentView::Message(*id, t@),
            Comment::Signal(id, sig, t) => CommentView::Signal(*id, sig@, t@),
        }
    }
}

/// `parse_comment`.
fn parse_comment(rest: &Vec<char>) -> (r: Option<Comment>)
    ensures
        match r {
            Some(c) => parse_comment_spec(rest@) == Some(c@),
            None => parse_comment_spec(rest@) is None,
        },
{
    let r = trim_chars(rest);
    let body = if r.len() > 0 && r[r.len() - 1] == ';' {
        trim_chars(&slice(&r, 0, r.len() - 1))
    } else {
        trim_chars(&r)
    };
    assert(r@.len() > 0 ==> r@.last() == r@[r@.len() - 1]);
    assert(r@.len() > 0 ==> r@.drop_last() =~= r@.subrange(0, r@.len() - 1));
    proof {
        reveal_strlit("BU_ ");
        reveal_strlit("BO_ ");
        reveal_strlit("SG_ ");
    }
    if has_prefix(&body, &chars_of("BU_ ")) {
        let (node, after) = take_word(&trim_chars(&slice(&body, 4, body.len())));
        match unquote(&after) {
            Some(t) => Some(Comment::Node(node, t)),
            None => None,
        }
    } else if has_prefix(&body, &chars_of("BO_ ")) {
        let (ids, after) = take_word(&trim_chars(&slice(&body, 4, body.len())));
        match parse_u32(&ids) {
            None => None,
            Some(id) => match unquote(&after) {
                Some(t) => Some(Comment::Message(id, t)),
                None => None,
            },
        }
    } else if has_prefix(&body, &chars_of("SG_ ")) {
        let (ids, after) = take_word(&trim_chars(&slice(&body, 4, body.len())));
        match parse_u32(&ids) {
            None => None,
            Some(id) => {
                let (sig, after2) = take_word(&trim_chars(&after));
                match unquote(&after2) {
                    Some(t) => Some(Comment::Signal(id, sig, t)),
                    None => None,
                }
            },
        }
    } else {
        match unquote(&body) {
            Some(t) => Some(Comment::Network(t)),
            None => None,
        }
    }
}

// ---------------------------------------------------------------------------
// Attaching comments and value descriptions.
/// Index of the first element satisfying `p`.
pub open spec fn first_index<T>(xs: Seq<T>, p: spec_fn(T) -> bool) -> Option<int>
    decreases xs.len(),
{
    if xs.len() == 0 {
        None
    } else {
        match first_index(xs.drop_last(), p) {
            Some(i) => Some(i),
            None => if p(xs.last()) {
                Some(xs.len() - 1)
            } else {
                None
            },
        }
    }
}

pub proof fn lemma_first_index<T>(xs: Seq<T>, p: spec_fn(T) -> bool)
    ensures
        match first_index(xs, p) {
            Some(i) => 0 <= i < xs.len() && p(xs[i]) && forall|j: int|
                0 <= j < i ==> !p(#[trigger] xs[j]),
            None => forall|j: int| 0 <= j < xs.len() ==> !p(#[trigger] xs[j]),
        },
    decreases xs.len(),
{
    if xs.len() > 0 {
        lemma_first_index(xs.drop_last(), p);
        assert forall|j: int| 0 <= j < xs.len() - 1 implies xs[j] == xs.drop_last()[j] by {}
    }
}

pub proof fn lemma_first_index_at<T>(xs: Seq<T>, p: spec_fn(T) -> bool, i: int)
    requires
        0 <= i <= xs.len(),
        forall|j: int| 0 <= j < i ==> !p(#[trigger] xs[j]),
        i < xs.len() ==> p(xs[i]),
    ensures
        first_index(xs, p) == (if i < xs.len() {
            Some(i)
        } else {
            None::<int>
        }),
{
    lemma_first_index(xs, p);
    match first_index(xs, p) {
        Some(k) => {
            if k < i {
            } else if k > i {
                assert(!p(xs[i]));
            }
        },
        None => {
            if i < xs.len() {
                assert(p(xs[i]));
            }
        },
    }
}

pub open spec fn node_named(name: Seq<char>) -> spec_fn(NodeView) -> bool {
    |n: NodeView| n.name == name
}

pub open spec fn message_with_id(id: u32) -> spec_fn(MessageView) -> bool {
    |m: MessageView| m.id == id
}

pub open spec fn signal_named(name: Seq<char>) -> spec_fn(SignalView) -> bool {
    |s: SignalView| s.name == name
}

/// Applies one comment: to the network, or to the first node, message or
/// signal it names (and to nothing when there is none).
pub open spec fn apply_comment(d: DbcView, c: CommentView) -> DbcView {
    match c {
        CommentView::Network(t) => DbcView { comment: Some(t), ..d },
        CommentView::Node(name, t) => match first_index(d.nodes, node_named(name)) {
            Some(i) => DbcView {
                nodes: d.nodes.update(i, NodeView { comment: Some(t), ..d.nodes[i] }),
                ..d
            },
            None => d,
        },
        CommentView::Message(id, t) => match first_index(d.messages, message_with_id(id)) {
            Some(i) => DbcView {
                messages: d.messages.update(i, MessageView { comment: Some(t), ..d.messages[i] }),
                ..d
            },
            None => d,
        },
        CommentView::Signal(id, sig, t) => match first_index(d.messages, message_with_id(id)) {
            Some(i) => match first_index(d.messages[i].signals, signal_named(sig)) {
                Some(j) => DbcView {
                    messages: d.messages.update(
                        i,
                        MessageView {
                            signals: d.messages[i].signals.update(
                                j,
                                SignalView { comment: Some(t), ..d.messages[i].signals[j] },
                            ),
                            ..d.messages[i]
                        },
                    ),
                    ..d
                },
                None => d,
            },
            None => d,
        },
    }
}

/// `attach_comments`: the comments applied in order.
pub open spec fn attach_comments_spec(d: DbcView, cs: Seq<CommentView>) -> DbcView
    decreases cs.len(),
{
    if cs.len() == 0 {
        d
    } else {
        apply_comment(attach_comments_spec(d, cs.drop_last()), cs.last())
    }
}

/// Applies one `VAL_`: the values replace those of the first signal of that
/// name in the first message with that id.
pub open spec fn apply_values(d: DbcView, v: ValDefView) -> DbcView {
    match first_index(d.messages, message_with_id(v.message_id)) {
        Some(i) => match first_index(d.messages[i].signals, signal_named(v.signal)) {
            Some(j) => DbcView {
                messages: d.messages.update(
                    i,
                    MessageView {
                        signals: d.messages[i].signals.update(
                            j,
                            SignalView { value_descriptions: v.values, ..d.messages[i].signals[j] },
                        ),
                        ..d.messages[i]
                    },
                ),
                ..d
            },
            None => d,
        },
        None => d,
    }
}

/// `attach_values`: the value descriptions applied in order.
pub open spec fn attach_values_spec(d: DbcView, vs: Seq<ValDefView>) -> DbcView
    decreases vs.len(),
{
    if vs.len() == 0 {
        d
    } else {
        apply_values(attach_values_spec(d, vs.drop_last()), vs.last())
    }
}


// ---------------------------------------------------------------------------
// The parser.
fn eq_chars(a: &Vec<char>, b: &Vec<char>) -> (r: bool)
    ensures
        r == (a@ == b@),
{
    if a.len() != b.len() {
        return false;
    }
    let mut i: usize = 0;
    while i < a.len()
        invariant
            i <= a.len() == b.len(),
            forall|j: int| 0 <= j < i ==> a@[j] == b@[j],
        decreases a.len() - i,
    {
        if a[i] != b[i] {
            return false;
        }
        i += 1;
    }
    assert(a@ =~= b@);
    true
}

fn find_node(nodes: &Vec<Node>, name: &Vec<char>) -> (r: Option<usize>)
    ensures
        match r {
            Some(i) => first_index(nodes_view(nodes@), node_named(name@)) == Some(i as int) && i
                < nodes.len(),
            None => first_index(nodes_view(nodes@), node_named(name@)) is None,
        },
{
    let ghost nv = nodes_view(nodes@);
    let mut i: usize = 0;
    while i < nodes.len()
        invariant
            i <= nodes.len(),
            nv == nodes_view(nodes@),
            forall|j: int| 0 <= j < i ==> !node_named(name@)(#[trigger] nv[j]),
        decreases nodes.len() - i,
    {
        assert(nv[i as int] == nodes@[i as int]@);
        if eq_chars(&chars_of(nodes[i].name.as_str()), name) {
            proof {
                lemma_first_index_at(nv, node_named(name@), i as int);
            }
            return Some(i);
        }
        i += 1;
    }
    proof {
        lemma_first_index_at(nv, node_named(name@), i as int);
    }
    None
}

fn find_message_index(msgs: &Vec<Message>, id: u32) -> (r: Option<usize>)
    ensures
        match r {
            Some(i) => first_index(messages_view(msgs@), message_with_id(id)) == Some(i as int) && i
                < msgs.len(),
            None => first_index(messages_view(msgs@), message_with_id(id)) is None,
        },
{
    let ghost mv = messages_view(msgs@);
    let mut i: usize = 0;
    while i < msgs.len()
        invariant
            i <= msgs.len(),
            mv == messages_view(msgs@),
            forall|j: int| 0 <= j < i ==> !message_with_id(id)(#[trigger] mv[j]),
        decreases msgs.len() - i,
    {
        assert(mv[i as int] == msgs@[i as int]@);
        if msgs[i].id == id {
            proof {
                lemma_first_index_at(mv, message_with_id(id), i as int);
            }
            return Some(i);
        }
        i += 1;
    }
    proof {
        lemma_first_index_at(mv, message_with_id(id), i as int);
    }
    None
}

fn find_signal(sigs: &Vec<Signal>, name: &Vec<char>) -> (r: Option<usize>)
    ensures
        match r {
            Some(i) => first_index(signals_view(sigs@), signal_named(name@)) == Some(i as int) && i
                < sigs.len(),
            None => first_index(signals_view(sigs@), signal_named(name@)) is None,
        },
{
    let ghost sv = signals_view(sigs@);
    let mut i: usize = 0;
    while i < sigs.len()
        invariant
            i <= sigs.len(),
            sv == signals_view(sigs@),
            forall|j: int| 0 <= j < i ==> !signal_named(name@)(#[trigger] sv[j]),
        decreases sigs.len() - i,
    {
        assert(sv[i as int] == sigs@[i as int]@);
        if eq_chars(&chars_of(sigs[i].name.as_str()), name) {
            proof {
                lemma_first_index_at(sv, signal_named(name@), i as int);
            }
            return Some(i);
        }
        i += 1;
    }
    proof {
        lemma_first_index_at(sv, signal_named(name@), i as int);
    }
    None
}

fn apply_comment_exec(d: &mut Dbc, c: &Comment)
    ensures
        final(d)@ == apply_comment(old(d)@, c@),
{
    match c {
        Comment::Network(t) => {
            d.comment = Some(to_string(t));
        },
        Comment::Node(name, t) => {
            match find_node(&d.nodes, name) {
                Some(i) => {
                    let ghost before = nodes_view(d.nodes@);
                    d.nodes[i].comment = Some(to_string(t));
                    assert(nodes_view(d.nodes@) =~= before.update(
                        i as int,
                        NodeView { comment: Some(t@), ..before[i as int] },
                    ));
                },
                None => {},
            }
        },
        Comment::Message(id, t) => {
            match find_message_index(&d.messages, *id) {
                Some(i) => {
                    let ghost before = messages_view(d.messages@);
                    d.messages[i].comment = Some(to_string(t));
                    assert(messages_view(d.messages@) =~= before.update(
                        i as int,
                        MessageView { comment: Some(t@), ..before[i as int] },
                    ));
                },
                None => {},
            }
        },
        Comment::Signal(id, sig, t) => {
            match find_message_index(&d.messages, *id) {
                Some(i) => {
                    let ghost before = messages_view(d.messages@);
                    match find_signal(&d.messages[i].signals, sig) {
                        Some(j) => {
                            let ghost sb = signals_view(d.messages@[i as int].signals@);
                            assert(sb == before[i as int].signals);
                            d.messages[i].signals[j].comment = Some(to_string(t));
                            assert(signals_view(d.messages@[i as int].signals@) =~= sb.update(
                                j as int,
                                SignalView { comment: Some(t@), ..sb[j as int] },
                            ));
                            assert(messages_view(d.messages@) =~= before.update(
                                i as int,
                                MessageView {
                                    signals: sb.update(
                                        j as int,
                                        SignalView { comment: Some(t@), ..sb[j as int] },
                                    ),
                                    ..before[i as int]
                                },
                            ));
                        },
                        None => {},
                    }
                },
                None => {},
            }
        },
    }
}

fn apply_values_exec(d: &mut Dbc, v: &ValDef)
    ensures
        final(d)@ == apply_values(old(d)@, v@),
{
    match find_message_index(&d.messages, v.message_id) {
        Some(i) => {
            let ghost before = messages_view(d.messages@);
            match find_signal(&d.messages[i].signals, &v.signal) {
                Some(j) => {
                    let ghost sb = signals_view(d.messages@[i as int].signals@);
                    assert(sb == before[i as int].signals);
                    let values = copy_pairs(&v.values);
                    d.messages[i].signals[j].value_descriptions = values;
                    assert(signals_view(d.messages@[i as int].signals@) =~= sb.update(
                        j as int,
                        SignalView { value_descriptions: v@.values, ..sb[j as int] },
                    ));
                    assert(messages_view(d.messages@) =~= before.update(
                        i as int,
                        MessageView {
                            signals: sb.update(
                                j as int,
                                SignalView { value_descriptions: v@.values, ..sb[j as int] },
                            ),
                            ..before[i as int]
                        },
                    ));
                },
                None => {},
            }
        },
        None => {},
    }
}

fn copy_pairs(v: &Vec<(i64, String)>) -> (r: Vec<(i64, String)>)
    ensures
        pairs(r@) == pairs(v@),
{
    let mut r: Vec<(i64, String)> = Vec::new();
    let mut i: usize = 0;
    while i < v.len()
        invariant
            i <= v.len(),
            pairs(r@) == pairs(v@.take(i as int)),
        decreases v.len() - i,
    {
        let t = v[i].1.clone();
        let ghost old_r = r@;
        r.push((v[i].0, t));
        assert(pairs(r@) =~= pairs(old_r).push((v@[i as int].0, v@[i as int].1@)));
        assert(pairs(v@.take(i + 1)) =~= pairs(v@.take(i as int)).push(
            (v@[i as int].0, v@[i as int].1@),
        ));
        i += 1;
    }
    assert(v@.take(v.len() as int) =~= v@);
    r
}

fn attach_comments_exec(d: &mut Dbc, cs: &Vec<Comment>)
    ensures
        final(d)@ == attach_comments_spec(old(d)@, cs@.map_values(|c: Comment| c@)),
{
    let ghost cv = cs@.map_values(|c: Comment| c@);
    let mut i: usize = 0;
    while i < cs.len()
        invariant
            i <= cs.len(),
            cv == cs@.map_values(|c: Comment| c@),
            d@ == attach_comments_spec(old(d)@, cv.take(i as int)),
        decreases cs.len() - i,
    {
        assert(cv.take(i + 1).drop_last() =~= cv.take(i as int));
        assert(cv[i as int] == cs@[i as int]@);
        apply_comment_exec(d, &cs[i]);
        i += 1;
    }
    assert(cv.take(cs.len() as int) =~= cv);
}

fn attach_values_exec(d: &mut Dbc, vs: &Vec<ValDef>)
    ensures
        final(d)@ == attach_values_spec(old(d)@, vs@.map_values(|v: ValDef| v@)),
{
    let ghost vv = vs@.map_values(|v: ValDef| v@);
    let mut i: usize = 0;
    while i < vs.len()
        invariant
            i <= vs.len(),
            vv == vs@.map_values(|v: ValDef| v@),
            d@ == attach_values_spec(old(d)@, vv.take(i as int)),
        decreases vs.len() - i,
    {
        assert(vv.take(i + 1).drop_last() =~= vv.take(i as int));
        assert(vv[i as int] == vs@[i as int]@);
        apply_values_exec(d, &vs[i]);
        i += 1;
    }
    assert(vv.take(vs.len() as int) =~= vv);
}

// ---------------------------------------------------------------------------
// The document.
/// The physical lines of a document, each without its trailing `\r`s.
pub open spec fn input_lines(input: Seq<char>) -> Seq<Seq<char>> {
    split_on(input, '\n').map_values(|l: Seq<char>| trim_end_char(l, '\r'))
}

/// The state of a parse: the database so far and the comments and value
/// descriptions still to attach.
pub struct ParseState {
    pub dbc: DbcView,
    pub comments: Seq<CommentView>,
    pub values: Seq<ValDefView>,
}

pub open spec fn empty_dbc() -> DbcView {
    DbcView {
        version: Seq::empty(),
        new_symbols: Seq::empty(),
        nodes: Seq::empty(),
        value_tables: Seq::empty(),
        messages: Seq::empty(),
        comment: None,
        extra: Seq::empty(),
    }
}

pub open spec fn initial_state() -> ParseState {
    ParseState { dbc: empty_dbc(), comments: Seq::empty(), values: Seq::empty() }
}

/// The entries of the indented `NS_` block from line `j` on, and the line
/// after the block.
pub open spec fn ns_block(lines: Seq<Seq<char>>, j: int) -> (Seq<Seq<char>>, int)
    decreases lines.len() - j,
{
    if j < 0 || j >= lines.len() {
        (Seq::empty(), j)
    } else {
        let l = lines[j];
        if trim(l).len() == 0 || !(l.len() > 0 && (l[0] == ' ' || l[0] == '\t')) {
            (Seq::empty(), j)
        } else {
            let r = ns_block(lines, j + 1);
            (seq![trim(l)] + r.0, r.1)
        }
    }
}

/// `line N: <message>`.
pub open spec fn line_error(i: int, e: Seq<char>) -> Seq<char> {
    "line "@ + nat_text((i + 1) as nat) + ": "@ + e
}

/// One step of the parse at line `i`.
pub enum Step {
    Next(int, ParseState),
    Failed(Seq<char>),
    Panics,
}

/// A `;`-terminated statement, already joined and trimmed.
pub open spec fn statement_step(st: ParseState, stmt: Seq<char>) -> ParseState {
    let d = st.dbc;
    if starts_with(stmt, "VAL_TABLE_ "@) {
        match parse_value_table_spec(stmt.subrange(11, stmt.len() as int)) {
            Some(vt) => ParseState { dbc: DbcView { value_tables: d.value_tables.push(vt), ..d }, ..st },
            None => ParseState { dbc: DbcView { extra: d.extra.push(stmt), ..d }, ..st },
        }
    } else if starts_with(stmt, "VAL_ "@) {
        match parse_val_spec(stmt.subrange(5, stmt.len() as int)) {
            Some(v) => ParseState { values: st.values.push(v), ..st },
            None => ParseState { dbc: DbcView { extra: d.extra.push(stmt), ..d }, ..st },
        }
    } else if starts_with(stmt, "CM_ "@) {
        match parse_comment_spec(stmt.subrange(4, stmt.len() as int)) {
            Some(c) => ParseState { comments: st.comments.push(c), ..st },
            None => ParseState { dbc: DbcView { extra: d.extra.push(stmt), ..d }, ..st },
        }
    } else {
        ParseState { dbc: DbcView { extra: d.extra.push(stmt), ..d }, ..st }
    }
}

pub open spec fn step(lines: Seq<Seq<char>>, i: int, st: ParseState) -> Step {
    let line = lines[i];
    let t = trim(line);
    let d = st.dbc;
    if t.len() == 0 {
        Step::Next(i + 1, st)
    } else if starts_with(t, "NS_"@) {
        let b = ns_block(lines, i + 1);
        Step::Next(b.1, ParseState { dbc: DbcView { new_symbols: d.new_symbols + b.0, ..d }, ..st })
    } else if starts_with(t, "BS_:"@) || starts_with(t, "BS_ :"@) {
        Step::Next(i + 1, st)
    } else if starts_with(t, "VERSION "@) {
        let v = match unquote_spec(trim(t.subrange(8, t.len() as int))) {
            Some(v) => v,
            None => Seq::empty(),
        };
        Step::Next(i + 1, ParseState { dbc: DbcView { version: v, ..d }, ..st })
    } else if starts_with(t, "BU_:"@) {
        let names = tokens(t.subrange(4, t.len() as int), Sep::Space);
        Step::Next(
            i + 1,
            ParseState {
                dbc: DbcView {
                    nodes: d.nodes + names.map_values(|n: Seq<char>| NodeView { name: n, comment: None }),
                    ..d
                },
                ..st
            },
        )
    } else if starts_with(t, "BO_ "@) {
        match parse_message_spec(t) {
            Ok(m) => Step::Next(
                i + 1,
                ParseState { dbc: DbcView { messages: d.messages.push(m), ..d }, ..st },
            ),
            Err(e) => Step::Failed(line_error(i, e)),
        }
    } else if starts_with(t, "SG_ "@) {
        if d.messages.len() == 0 {
            Step::Failed(line_error(i, "SG_ without preceding BO_"@))
        } else {
            match parse_signal_spec(t) {
                SignalRead::Read(s) => {
                    let last = d.messages.last();
                    Step::Next(
                        i + 1,
                        ParseState {
                            dbc: DbcView {
                                messages: d.messages.update(
                                    d.messages.len() - 1,
                                    MessageView { signals: last.signals.push(s), ..last },
                                ),
                                ..d
                            },
                            ..st
                        },
                    )
                },
                SignalRead::Failed(e) => Step::Failed(line_error(i, e)),
                SignalRead::Panics => Step::Panics,
            }
        }
    } else if needs_semicolon_spec(t) {
        let (stmt, consumed) = join_statement_spec(lines, i);
        Step::Next(i + consumed, statement_step(st, trim(stmt)))
    } else {
        Step::Next(i + 1, ParseState { dbc: DbcView { extra: d.extra.push(t), ..d }, ..st })
    }
}

/// A failed parse: the message naming the line, and the database read up to
/// that line.
#[derive(Clone, Debug, PartialEq)]
pub struct ParseError {
    pub message: String,
    pub partial: Dbc,
}

/// The outcome of a parse.
pub enum ParseOutcome {
    Parsed(DbcView),
    /// The error message, and the database read up to the failing line (its
    /// comments and value descriptions read so far attached).
    Failed(Seq<char>, DbcView),
    /// Reading aborts: a signal line's delimiters come out of order.
    Panics,
}

pub open spec fn finish(st: ParseState) -> DbcView {
    attach_values_spec(attach_comments_spec(st.dbc, st.comments), st.values)
}

/// The parse from line `i` on.
pub open spec fn parse_from(lines: Seq<Seq<char>>, i: int, st: ParseState) -> ParseOutcome
    decreases lines.len() - i,
{
    if i < 0 || i >= lines.len() {
        ParseOutcome::Parsed(finish(st))
    } else {
        match step(lines, i, st) {
            Step::Next(j, st2) => if i < j <= lines.len() {
                parse_from(lines, j, st2)
            } else {
                ParseOutcome::Parsed(finish(st2))
            },
            Step::Failed(e) => ParseOutcome::Failed(e, finish(st)),
            Step::Panics => ParseOutcome::Panics,
        }
    }
}

/// What parsing `input` gives.
pub open spec fn parse_spec(input: Seq<char>) -> ParseOutcome {
    parse_from(input_lines(input), 0, initial_state())
}


// ---------------------------------------------------------------------------
// The parse loop.
spec fn state_view(d: Dbc, cs: Seq<Comment>, vs: Seq<ValDef>) -> ParseState {
    ParseState {
        dbc: d@,
        comments: cs.map_values(|c: Comment| c@),
        values: vs.map_values(|v: ValDef| v@),
    }
}

spec fn lines_view(lines: Seq<Vec<char>>) -> Seq<Seq<char>> {
    lines.map_values(|l: Vec<char>| l@)
}

fn ns_block_exec(lines: &Vec<Vec<char>>, start: usize) -> (r: (Vec<String>, usize))
    requires
        start <= lines.len(),
    ensures
        (texts(r.0@), r.1 as int) == ns_block(lines_view(lines@), start as int),
        start <= r.1 <= lines.len(),
{
    let ghost lv = lines_view(lines@);
    let mut syms: Vec<String> = Vec::new();
    let mut j = start;
    loop
        invariant
            start <= j <= lines.len(),
            lv == lines_view(lines@),
            ns_block(lv, start as int) == (texts(syms@) + ns_block(lv, j as int).0, ns_block(
                lv,
                j as int,
            ).1),
        decreases lines.len() - j,
    {
        if j >= lines.len() {
            assert(texts(syms@) + Seq::<Seq<char>>::empty() =~= texts(syms@));
            return (syms, j);
        }
        let l = &lines[j];
        assert(lv[j as int] == l@);
        let t = trim_chars(l);
        if t.len() == 0 || !(l.len() > 0 && (l[0] == ' ' || l[0] == '\t')) {
            assert(texts(syms@) + Seq::<Seq<char>>::empty() =~= texts(syms@));
            return (syms, j);
        }
        let ghost old_syms = texts(syms@);
        syms.push(to_string(&t));
        assert(texts(syms@) =~= old_syms.push(t@));
        assert(old_syms + (seq![t@] + ns_block(lv, j + 1).0) =~= old_syms.push(t@) + ns_block(
            lv,
            j + 1,
        ).0);
        j += 1;
    }
}

fn line_error_exec(i: usize, e: &Vec<char>) -> (r: Vec<char>)
    requires
        i < usize::MAX,
    ensures
        r@ == line_error(i as int, e@),
{
    let mut r = chars_of("line ");
    push_all(&mut r, &u64_chars((i + 1) as u64));
    push_all(&mut r, &chars_of(": "));
    push_all(&mut r, e);
    r
}

fn statement_step_exec(d: &mut Dbc, cs: &mut Vec<Comment>, vs: &mut Vec<ValDef>, stmt: &Vec<char>)
    ensures
        state_view(*final(d), final(cs)@, final(vs)@) == statement_step(
            state_view(*old(d), old(cs)@, old(vs)@),
            stmt@,
        ),
{
    proof {
        reveal_strlit("VAL_TABLE_ ");
        reveal_strlit("VAL_ ");
        reveal_strlit("CM_ ");
    }
    let ghost ev = texts(d.extra@);
    if has_prefix(stmt, &chars_of("VAL_TABLE_ ")) {
        match parse_value_table(&slice(stmt, 11, stmt.len())) {
            Some(vt) => {
                let ghost tv = tables_view(d.value_tables@);
                let ghost vtv = vt@;
                d.value_tables.push(vt);
                assert(tables_view(d.value_tables@) =~= tv.push(vtv));
            },
            None => {
                d.extra.push(to_string(stmt));
                assert(texts(d.extra@) =~= ev.push(stmt@));
            },
        }
    } else if has_prefix(stmt, &chars_of("VAL_ ")) {
        match parse_val(&slice(stmt, 5, stmt.len())) {
            Some(v) => {
                let ghost before = vs@.map_values(|v: ValDef| v@);
                let ghost vv = v@;
                vs.push(v);
                assert(vs@.map_values(|v: ValDef| v@) =~= before.push(vv));
            },
            None => {
                d.extra.push(to_string(stmt));
                assert(texts(d.extra@) =~= ev.push(stmt@));
            },
        }
    } else if has_prefix(stmt, &chars_of("CM_ ")) {
        match parse_comment(&slice(stmt, 4, stmt.len())) {
            Some(c) => {
                let ghost before = cs@.map_values(|c: Comment| c@);
                let ghost cv = c@;
                cs.push(c);
                assert(cs@.map_values(|c: Comment| c@) =~= before.push(cv));
            },
            None => {
                d.extra.push(to_string(stmt));
                assert(texts(d.extra@) =~= ev.push(stmt@));
            },
        }
    } else {
        d.extra.push(to_string(stmt));
        assert(texts(d.extra@) =~= ev.push(stmt@));
    }
}

fn push_nodes(d: &mut Dbc, names: &Vec<Vec<char>>)
    ensures
        final(d)@ == (DbcView {
            nodes: old(d)@.nodes + names@.map_values(|t: Vec<char>| t@).map_values(
                |n: Seq<char>| NodeView { name: n, comment: None },
            ),
            ..old(d)@
        }),
{
    let ghost nv0 = old(d)@.nodes;
    let ghost tv = names@.map_values(|t: Vec<char>| t@);
    let mut i: usize = 0;
    while i < names.len()
        invariant
            i <= names.len(),
            tv == names@.map_values(|t: Vec<char>| t@),
            d@ == (DbcView {
                nodes: nv0 + tv.take(i as int).map_values(
                    |n: Seq<char>| NodeView { name: n, comment: None },
                ),
                ..old(d)@
            }),
        decreases names.len() - i,
    {
        let ghost before = nodes_view(d.nodes@);
        let n = Node { name: to_string(&names[i]), comment: None };
        assert(tv[i as int] == names@[i as int]@);
        d.nodes.push(n);
        assert(nodes_view(d.nodes@) =~= before.push(NodeView { name: tv[i as int], comment: None }));
        assert(tv.take(i + 1).map_values(|n: Seq<char>| NodeView { name: n, comment: None })
            =~= tv.take(i as int).map_values(|n: Seq<char>| NodeView { name: n, comment: None }).push(
            NodeView { name: tv[i as int], comment: None },
        ));
        i += 1;
    }
    assert(tv.take(names.len() as int) =~= tv);
}

fn push_signal_into_last(d: &mut Dbc, s: Signal)
    requires
        old(d).messages.len() > 0,
    ensures
        ({
            let od = old(d)@;
            let last = od.messages.last();
            final(d)@ == (DbcView {
                messages: od.messages.update(
                    od.messages.len() - 1,
                    MessageView { signals: last.signals.push(s@), ..last },
                ),
                ..od
            })
        }),
{
    let ghost od = d@;
    let n = d.messages.len();
    let ghost sb = signals_view(d.messages@[n - 1].signals@);
    let ghost sv = s@;
    d.messages[n - 1].signals.push(s);
    assert(signals_view(d.messages@[n - 1].signals@) =~= sb.push(sv));
    assert(messages_view(d.messages@) =~= od.messages.update(
        n - 1,
        MessageView { signals: sb.push(sv), ..od.messages.last() },
    ));
}

/// One step of the parse at line `i`: `Ok` with the next line, or the error
/// (`Err(None)` where reading aborts).
fn step_exec(
    lines: &Vec<Vec<char>>,
    i: usize,
    d: &mut Dbc,
    cs: &mut Vec<Comment>,
    vs: &mut Vec<ValDef>,
) -> (r: Result<usize, Option<Vec<char>>>)
    requires
        i < lines.len(),
    ensures
        match r {
            Ok(j) => i < j <= lines.len() && step(
                lines_view(lines@),
                i as int,
                state_view(*old(d), old(cs)@, old(vs)@),
            ) == Step::Next(j as int, state_view(*final(d), final(cs)@, final(vs)@)),
            Err(Some(e)) => step(
                lines_view(lines@),
                i as int,
                state_view(*old(d), old(cs)@, old(vs)@),
            ) == Step::Failed(e@) && *final(d) == *old(d) && final(cs)@ == old(cs)@ && final(vs)@
                == old(vs)@,
            Err(None) => step(
                lines_view(lines@),
                i as int,
                state_view(*old(d), old(cs)@, old(vs)@),
            ) == Step::Panics,
        },
{
    proof {
        reveal_strlit("VERSION ");
        reveal_strlit("BU_:");
    }
    let ghost lv = lines_view(lines@);
    assert(lv[i as int] == lines@[i as int]@);
    let t = trim_chars(&lines[i]);
    if t.len() == 0 {
        return Ok(i + 1);
    }
    if has_prefix(&t, &chars_of("NS_")) {
        let (mut syms, j) = ns_block_exec(lines, i + 1);
        let ghost before = texts(d.new_symbols@);
        let ghost sv = texts(syms@);
        d.new_symbols.append(&mut syms);
        assert(texts(d.new_symbols@) =~= before + sv);
        return Ok(j);
    }
    if has_prefix(&t, &chars_of("BS_:")) || has_prefix(&t, &chars_of("BS_ :")) {
        return Ok(i + 1);
    }
    match strip_prefix(&t, &chars_of("VERSION ")) {
        Some(rest) => {
            let v = match unquote(&trim_chars(&rest)) {
                Some(v) => v,
                None => Vec::new(),
            };
            d.version = to_string(&v);
            return Ok(i + 1);
        },
        None => {},
    }
    match strip_prefix(&t, &chars_of("BU_:")) {
        Some(rest) => {
            let names = split_tokens(&rest, Sep::Space);
            push_nodes(d, &names);
            return Ok(i + 1);
        },
        None => {},
    }
    if has_prefix(&t, &chars_of("BO_ ")) {
        match parse_message(&t) {
            Ok(m) => {
                let ghost before = messages_view(d.messages@);
                let ghost mv = m@;
                d.messages.push(m);
                assert(messages_view(d.messages@) =~= before.push(mv));
                return Ok(i + 1);
            },
            Err(e) => {
                return Err(Some(line_error_exec(i, &e)));
            },
        }
    }
    if has_prefix(&t, &chars_of("SG_ ")) {
        if d.messages.len() == 0 {
            return Err(Some(line_error_exec(i, &chars_of("SG_ without preceding BO_"))));
        }
        match parse_signal(&t) {
            Ok(s) => {
                push_signal_into_last(d, s);
                return Ok(i + 1);
            },
            Err(Some(e)) => {
                return Err(Some(line_error_exec(i, &e)));
            },
            Err(None) => {
                return Err(None);
            },
        }
    }
    if needs_semicolon(&t) {
        let (stmt, consumed) = join_statement(lines, i);
        let stmt = trim_chars(&stmt);
        statement_step_exec(d, cs, vs, &stmt);
        return Ok(i + consumed);
    }
    let ghost ev = texts(d.extra@);
    d.extra.push(to_string(&t));
    assert(texts(d.extra@) =~= ev.push(t@));
    Ok(i + 1)
}

fn input_lines_exec(input: &str) -> (r: Vec<Vec<char>>)
    ensures
        lines_view(r@) == input_lines(input@),
{
    let chars = chars_of(input);
    let pieces = split_on_char(&chars, '\n');
    let ghost pv = pieces@.map_values(|t: Vec<char>| t@);
    let mut lines: Vec<Vec<char>> = Vec::new();
    let mut i: usize = 0;
    while i < pieces.len()
        invariant
            i <= pieces.len(),
            pv == pieces@.map_values(|t: Vec<char>| t@),
            lines_view(lines@) == pv.take(i as int).map_values(
                |l: Seq<char>| trim_end_char(l, '\r'),
            ),
        decreases pieces.len() - i,
    {
        let ghost before = lines_view(lines@);
        let l = trim_end_char_chars(&pieces[i], '\r');
        assert(pv[i as int] == pieces@[i as int]@);
        lines.push(l);
        assert(lines_view(lines@) =~= before.push(l@));
        assert(pv.take(i + 1).map_values(|l: Seq<char>| trim_end_char(l, '\r')) =~= pv.take(
            i as int,
        ).map_values(|l: Seq<char>| trim_end_char(l, '\r')).push(trim_end_char(pv[i as int], '\r')));
        i += 1;
    }
    assert(pv.take(pieces.len() as int) =~= pv);
    lines
}

/// Parses a `.dbc` document.  Unrecognised lines are kept in [`Dbc::extra`];
/// the parse fails only on a broken message or signal line (or a signal
/// before any message), and then hands back the data read up to that line
/// with the error.  `None` stands for the inputs on which reading aborts: a
/// signal line whose `@`, `)` or `]` comes before the `|`, `(` or `[` it
/// closes.
pub fn parse_checked(input: &str) -> (r: Option<Result<Dbc, ParseError>>)
    ensures
        match parse_spec(input@) {
            ParseOutcome::Parsed(dv) => r matches Some(Ok(d)) && d@ == dv,
            ParseOutcome::Failed(e, pv) => r matches Some(Err(f)) && f.message@ == e && f.partial@
                == pv,
            ParseOutcome::Panics => r is None,
        },
{
    let lines = input_lines_exec(input);
    let ghost lv = lines_view(lines@);
    let mut d = Dbc::default();
    let mut cs: Vec<Comment> = Vec::new();
    let mut vs: Vec<ValDef> = Vec::new();
    assert(state_view(d, cs@, vs@) =~= initial_state()) by {
        assert(cs@.map_values(|c: Comment| c@) =~= Seq::<CommentView>::empty());
        assert(vs@.map_values(|v: ValDef| v@) =~= Seq::<ValDefView>::empty());
    }
    let mut i: usize = 0;
    while i < lines.len()
        invariant
            i <= lines.len(),
            lv == lines_view(lines@),
            lv == input_lines(input@),
            parse_spec(input@) == parse_from(lv, i as int, state_view(d, cs@, vs@)),
        decreases lines.len() - i,
    {
        match step_exec(&lines, i, &mut d, &mut cs, &mut vs) {
            Ok(j) => {
                i = j;
            },
            Err(Some(e)) => {
                let ghost st = state_view(d, cs@, vs@);
                attach_comments_exec(&mut d, &cs);
                attach_values_exec(&mut d, &vs);
                assert(d@ == finish(st));
                return Some(Err(ParseError { message: to_string(&e), partial: d }));
            },
            Err(None) => {
                return None;
            },
        }
    }
    let ghost st = state_view(d, cs@, vs@);
    attach_comments_exec(&mut d, &cs);
    attach_values_exec(&mut d, &vs);
    assert(d@ == finish(st));
    Some(Ok(d))
}

/// Parses a `.dbc` document (see [`parse_checked`]) on an input on which
/// reading does not abort.
pub fn parse(input: &str) -> (r: Result<Dbc, ParseError>)
    requires
        !(parse_spec(input@) is Panics),
    ensures
        match parse_spec(input@) {
            ParseOutcome::Parsed(dv) => r matches Ok(d) && d@ == dv,
            ParseOutcome::Failed(e, pv) => r matches Err(f) && f.message@ == e && f.partial@ == pv,
            ParseOutcome::Panics => false,
        },
{
    match parse_checked(input) {
        Some(r) => r,
        None => Err(ParseError { message: String::new(), partial: Dbc::default() }),
    }
}

} // verus!
