//! How the parser reads each kind of row the writer writes.
use vstd::prelude::*;
use crate::document::{nodes_line, row_lines, symbol_row, table_line, version_line};
use crate::lexer::{
    join_from, join_statement_spec, needs_semicolon_spec, read_first_quoted_spec,
    semicolon_from, statement_keywords, unquote_spec, unquoted_semicolon_spec,
};
use crate::lines::lacks;
use crate::model::{DbcView, MessageView, NodeView, SignalView, ValueTableView};
use crate::parser::{
    ns_block, parse_from, parse_value_table_spec, statement_body, statement_step, step,
    ParseOutcome, ParseState, Step,
};
use crate::readback::{
    lemma_pairs_readback, lemma_pairs_text_end, lemma_read_quoted, lemma_semi_pairs,
    lemma_semi_plain, lemma_trim_end_id, lemma_trim_id, lemma_trim_start_after_ws,
    lemma_trim_start_id, no_ws,
};
use crate::decimal::{canonical, number_text, NumberView};
use crate::roundtrip::{is_name, is_statement_name, one_line, wf_symbol, wf_table};
use crate::text::{find, is_sep, is_ws, lemma_find_at, lemma_word_len_at, split_on, starts_with, tokens, trim, trim_end, trim_end_char, trim_start, word_len, Sep};
use crate::writer::{cat_map, pairs_text, quoted};

verus! {

// ---------------------------------------------------------------------------
// Tools.
/// One step that moves on to a later line continues the parse there.
pub proof fn lemma_parse_next(lines: Seq<Seq<char>>, i: int, st: ParseState, j: int, st2: ParseState)
    requires
        0 <= i < j <= lines.len(),
        step(lines, i, st) == Step::Next(j, st2),
    ensures
        parse_from(lines, i, st) == parse_from(lines, j, st2),
{
}

pub proof fn lemma_tokens_concat(a: Seq<char>, b: Seq<char>, k: Sep)
    requires
        b.len() == 0 || is_sep(k, b[0]),
    ensures
        tokens(a + b, k) == tokens(a, k) + tokens(b, k),
    decreases a.len(),
{
    let s = a + b;
    if a.len() == 0 {
        assert(s =~= b);
    } else if is_sep(k, a[0]) {
        assert(s[0] == a[0]);
        assert(s.drop_first() =~= a.drop_first() + b);
        lemma_tokens_concat(a.drop_first(), b, k);
    } else {
        assert(s[0] == a[0]);
        let w = word_len(a, k);
        crate::text::lemma_word_len(a, k);
        assert forall|j: int| 0 <= j < w implies !is_sep(k, #[trigger] s[j]) by {
            assert(s[j] == a[j]);
        }
        if w < a.len() {
            assert(s[w as int] == a[w as int]);
        } else {
            if b.len() > 0 {
                assert(s[w as int] == b[0]);
            }
        }
        lemma_word_len_at(s, k, w as int);
        assert(s.subrange(0, w as int) =~= a.subrange(0, w as int));
        assert(s.subrange(w as int, s.len() as int) =~= a.subrange(w as int, a.len() as int) + b);
        lemma_tokens_concat(a.subrange(w as int, a.len() as int), b, k);
        assert(seq![a.subrange(0, w as int)] + (tokens(a.subrange(w as int, a.len() as int), k)
            + tokens(b, k)) =~= seq![a.subrange(0, w as int)] + tokens(
            a.subrange(w as int, a.len() as int),
            k,
        ) + tokens(b, k));
    }
}

pub open spec fn no_sep(s: Seq<char>, k: Sep) -> bool {
    forall|i: int| 0 <= i < s.len() ==> !is_sep(k, #[trigger] s[i])
}

pub proof fn lemma_tokens_word(w: Seq<char>, k: Sep)
    requires
        w.len() > 0,
        no_sep(w, k),
    ensures
        tokens(w, k) == seq![w],
{
    lemma_word_len_at(w, k, w.len() as int);
    assert(w.subrange(0, w.len() as int) =~= w);
    assert(w.subrange(w.len() as int, w.len() as int) =~= Seq::<char>::empty());
    assert(tokens(Seq::<char>::empty(), k) =~= Seq::<Seq<char>>::empty());
    assert(seq![w] + Seq::<Seq<char>>::empty() =~= seq![w]);
}

/// A separator followed by a word reads as that word.
pub proof fn lemma_tokens_sep_word(c: char, w: Seq<char>, k: Sep)
    requires
        is_sep(k, c),
        w.len() > 0,
        no_sep(w, k),
    ensures
        tokens(seq![c] + w, k) == seq![w],
{
    assert((seq![c] + w).drop_first() =~= w);
    lemma_tokens_word(w, k);
}

pub proof fn lemma_no_ws_no_space(s: Seq<char>)
    requires
        no_ws(s),
    ensures
        no_sep(s, Sep::Space),
{
}

/// The whitespace-separated words of `" a b c"` are `a`, `b`, `c`.
pub proof fn lemma_tokens_spaced(ns: Seq<NodeView>)
    requires
        forall|k: int| 0 <= k < ns.len() ==> is_name(#[trigger] ns[k].name),
    ensures
        tokens(cat_map(ns, |n: NodeView| seq![' '] + n.name), Sep::Space) == ns.map_values(
            |n: NodeView| n.name,
        ),
    decreases ns.len(),
{
    let f = |n: NodeView| seq![' '] + n.name;
    if ns.len() == 0 {
        assert(tokens(Seq::<char>::empty(), Sep::Space) =~= Seq::<Seq<char>>::empty());
        assert(ns.map_values(|n: NodeView| n.name) =~= Seq::<Seq<char>>::empty());
    } else {
        let ys = ns.drop_last();
        assert forall|k: int| 0 <= k < ys.len() implies is_name(#[trigger] ys[k].name) by {
            assert(ys[k] == ns[k]);
        }
        lemma_tokens_spaced(ys);
        let x = ns.last();
        assert(is_name(ns[ns.len() - 1].name));
        lemma_tokens_concat(cat_map(ys, f), seq![' '] + x.name, Sep::Space);
        lemma_tokens_sep_word(' ', x.name, Sep::Space);
        assert(ns.map_values(|n: NodeView| n.name) =~= ys.map_values(|n: NodeView| n.name).push(
            x.name,
        ));
    }
}

pub proof fn lemma_trim_after_space(x: Seq<char>)
    requires
        x.len() > 0,
        !is_ws(x[0]),
        !is_ws(x.last()),
    ensures
        trim(seq![' '] + x) == x,
{
    lemma_trim_start_after_ws(seq![' '], x);
    lemma_trim_end_id(x);
}

/// The quoted text read back from a quoted string.
pub proof fn lemma_unquote_quoted(x: Seq<char>, c: Seq<char>)
    requires
        lacks(x, '"'),
    ensures
        unquote_spec(x + quoted(c)) == Some(c),
{
    lemma_read_quoted(x, c, Seq::empty());
    assert(x + quoted(c) + Seq::<char>::empty() =~= x + quoted(c));
}

// ---------------------------------------------------------------------------
// The header rows.
#[verifier::rlimit(50)]
pub proof fn lemma_step_empty(lines: Seq<Seq<char>>, i: int, st: ParseState)
    requires
        0 <= i < lines.len(),
        lines[i] == Seq::<char>::empty(),
    ensures
        step(lines, i, st) == Step::Next(i + 1, st),
{
}

#[verifier::rlimit(50)]
pub proof fn lemma_step_version(lines: Seq<Seq<char>>, i: int, st: ParseState, d: DbcView)
    requires
        0 <= i < lines.len(),
        lines[i] == version_line(d),
        one_line(d.version),
    ensures
        step(lines, i, st) == Step::Next(
            i + 1,
            ParseState { dbc: DbcView { version: d.version, ..st.dbc }, ..st },
        ),
{
    reveal_strlit("VERSION ");
    reveal_strlit("NS_");
    reveal_strlit("BS_:");
    reveal_strlit("BS_ :");
    let t = version_line(d);
    let q = quoted(d.version);
    crate::roundtrip::lemma_quoted_one_line(d.version);
    lemma_trim_id(t);
    assert(t[0] == 'V');
    assert(!starts_with(t, "NS_"@)) by {
        assert(t.subrange(0, 3)[0] != "NS_"@[0]);
    }
    assert(!starts_with(t, "BS_:"@)) by {
        assert(t.subrange(0, 4)[0] != "BS_:"@[0]);
    }
    assert(!starts_with(t, "BS_ :"@)) by {
        assert(t.subrange(0, 5)[0] != "BS_ :"@[0]);
    }
    assert(t.subrange(0, 8) =~= "VERSION "@);
    assert(t.subrange(8, t.len() as int) =~= q);
    lemma_trim_id(q);
    lemma_unquote_quoted(Seq::empty(), d.version);
    assert(Seq::<char>::empty() + q =~= q);
}

#[verifier::rlimit(50)]
pub proof fn lemma_step_bs(lines: Seq<Seq<char>>, i: int, st: ParseState)
    requires
        0 <= i < lines.len(),
        lines[i] == "BS_:"@,
    ensures
        step(lines, i, st) == Step::Next(i + 1, st),
{
    reveal_strlit("BS_:");
    reveal_strlit("NS_");
    let t = "BS_:"@;
    lemma_trim_id(t);
    assert(!starts_with(t, "NS_"@)) by {
        assert(t.subrange(0, 3)[0] != "NS_"@[0]);
    }
    assert(t.subrange(0, 4) =~= t);
}

/// The indented new-symbol rows up to a blank line.
pub proof fn lemma_ns_block(lines: Seq<Seq<char>>, j: int, syms: Seq<Seq<char>>)
    requires
        0 <= j,
        j + syms.len() < lines.len(),
        forall|k: int| 0 <= k < syms.len() ==> lines[j + k] == symbol_row(#[trigger] syms[k]),
        forall|k: int| 0 <= k < syms.len() ==> wf_symbol(#[trigger] syms[k]),
        lines[j + syms.len()] == Seq::<char>::empty(),
    ensures
        ns_block(lines, j) == (syms, j + syms.len()),
    decreases syms.len(),
{
    if syms.len() == 0 {
        assert(lines[j + 0] == Seq::<char>::empty());
        assert(trim(Seq::<char>::empty()) == Seq::<char>::empty());
    } else {
        let s0 = syms[0];
        let rest = syms.drop_first();
        assert(lines[j + 0] == symbol_row(syms[0]));
        assert(wf_symbol(syms[0]));
        let l = symbol_row(s0);
        lemma_trim_start_after_ws(seq!['\t'], s0);
        lemma_trim_end_id(s0);
        assert forall|k: int| 0 <= k < rest.len() implies lines[(j + 1) + k] == symbol_row(
            #[trigger] rest[k],
        ) by {
            assert(rest[k] == syms[k + 1]);
            assert(lines[j + (k + 1)] == symbol_row(syms[k + 1]));
        }
        assert forall|k: int| 0 <= k < rest.len() implies wf_symbol(#[trigger] rest[k]) by {
            assert(rest[k] == syms[k + 1]);
        }
        lemma_ns_block(lines, j + 1, rest);
        assert(seq![s0] + rest =~= syms);
    }
}

#[verifier::rlimit(50)]
pub proof fn lemma_step_ns(lines: Seq<Seq<char>>, i: int, st: ParseState, syms: Seq<Seq<char>>)
    requires
        0 <= i,
        i + 1 + syms.len() < lines.len(),
        lines[i] == "NS_ :"@,
        forall|k: int| 0 <= k < syms.len() ==> lines[i + 1 + k] == symbol_row(#[trigger] syms[k]),
        forall|k: int| 0 <= k < syms.len() ==> wf_symbol(#[trigger] syms[k]),
        lines[i + 1 + syms.len()] == Seq::<char>::empty(),
    ensures
        step(lines, i, st) == Step::Next(
            i + 1 + syms.len(),
            ParseState { dbc: DbcView { new_symbols: st.dbc.new_symbols + syms, ..st.dbc }, ..st },
        ),
{
    reveal_strlit("NS_ :");
    reveal_strlit("NS_");
    let t = "NS_ :"@;
    lemma_trim_id(t);
    assert(t.subrange(0, 3) =~= "NS_"@);
    lemma_ns_block(lines, i + 1, syms);
}

#[verifier::rlimit(50)]
pub proof fn lemma_step_nodes(lines: Seq<Seq<char>>, i: int, st: ParseState, d: DbcView)
    requires
        0 <= i < lines.len(),
        lines[i] == nodes_line(d),
        forall|k: int| 0 <= k < d.nodes.len() ==> is_name(#[trigger] d.nodes[k].name),
    ensures
        step(lines, i, st) == Step::Next(
            i + 1,
            ParseState {
                dbc: DbcView {
                    nodes: st.dbc.nodes + d.nodes.map_values(
                        |n: NodeView| NodeView { name: n.name, comment: None },
                    ),
                    ..st.dbc
                },
                ..st
            },
        ),
{
    reveal_strlit("BU_:");
    reveal_strlit("NS_");
    reveal_strlit("BS_:");
    reveal_strlit("BS_ :");
    reveal_strlit("VERSION ");
    let t = nodes_line(d);
    let body = cat_map(d.nodes, |n: NodeView| seq![' '] + n.name);
    crate::roundtrip::lemma_spaced_names(d.nodes);
    if d.nodes.len() > 0 {
        assert(t.last() == body.last());
    }
    lemma_trim_id(t);
    assert(!starts_with(t, "NS_"@)) by {
        assert(t.subrange(0, 3)[0] != "NS_"@[0]);
    }
    assert(!starts_with(t, "BS_:"@)) by {
        assert(t.subrange(0, 4)[1] != "BS_:"@[1]);
    }
    assert(!starts_with(t, "BS_ :"@)) by {
        if t.len() >= 5 {
            assert(t.subrange(0, 5)[1] != "BS_ :"@[1]);
        }
    }
    assert(!starts_with(t, "VERSION "@)) by {
        if t.len() >= 8 {
            assert(t.subrange(0, 8)[0] != "VERSION "@[0]);
        }
    }
    assert(t.subrange(0, 4) =~= "BU_:"@);
    assert(t.subrange(4, t.len() as int) =~= body);
    lemma_tokens_spaced(d.nodes);
    let names = d.nodes.map_values(|n: NodeView| n.name);
    assert(names.map_values(|n: Seq<char>| NodeView { name: n, comment: None }) =~= d.nodes.map_values(
        |n: NodeView| NodeView { name: n.name, comment: None },
    ));
}

/// A text that differs from `p` at a position does not start with `p`.
pub proof fn lemma_differs_at(t: Seq<char>, p: Seq<char>, i: int)
    requires
        0 <= i < p.len(),
        i < t.len() ==> t[i] != p[i],
    ensures
        !starts_with(t, p),
{
    if p.len() <= t.len() {
        assert(t.subrange(0, p.len() as int)[i] == t[i]);
    }
}

/// The `;` of a statement row `<plain><pairs> ;`.
pub proof fn lemma_semi_pairs_row(head: Seq<char>, ps: Seq<(i64, Seq<char>)>)
    requires
        lacks(head, '"'),
        lacks(head, ';'),
    ensures
        unquoted_semicolon_spec(head + pairs_text(ps) + " ;"@) == Some(
            (head + pairs_text(ps) + " ;"@).len() - 1,
        ),
{
    reveal_strlit(" ;");
    let pt = pairs_text(ps);
    let s = head + pt + " ;"@;
    let a = head.len() as int;
    assert forall|k: int| 0 <= k < a implies #[trigger] s[k] != '"' && s[k] != ';' by {
        assert(s[k] == head[k]);
    }
    lemma_semi_plain(s, 0, a);
    assert(s.subrange(a, a + pt.len()) =~= pt);
    lemma_semi_pairs(s, a, ps);
    let b = a + pt.len();
    assert(s[b] == ' ');
    assert(s[b + 1] == ';');
    lemma_semi_plain(s, b, b + 1);
}

/// Ends of a statement body: `<text> ;` trims down to `<text>`.
pub proof fn lemma_statement_body(x: Seq<char>)
    requires
        x.len() > 0,
        !is_ws(x[0]),
        !is_ws(x.last()),
        x.last() != ';',
    ensures
        statement_body(x + " ;"@) == x,
{
    reveal_strlit(" ;");
    let r = x + " ;"@;
    assert(r[0] == x[0]);
    assert(r.last() == ';');
    lemma_trim_id(r);
    let y = x + seq![' '];
    assert(r.drop_last() =~= y);
    assert(y.last() == ' ');
    assert(trim_end_char(y, ';') == y);
    assert(trim_end_char(r, ';') == y);
    assert(y[0] == x[0]);
    lemma_trim_start_id(y);
    assert(y.drop_last() =~= x);
    lemma_trim_end_id(x);
    assert(trim_end(y) == trim_end(x));
}

#[verifier::rlimit(50)]
pub proof fn lemma_read_table(t: ValueTableView)
    requires
        wf_table(t),
    ensures
        parse_value_table_spec(t.name + pairs_text(t.values) + " ;"@) == Some(t),
{
    let pt = pairs_text(t.values);
    let x = t.name + pt;
    lemma_pairs_text_end(t.values);
    assert(x[0] == t.name[0]);
    if pt.len() > 0 {
        assert(x.last() == pt.last());
    } else {
        assert(x =~= t.name);
    }
    lemma_statement_body(x);
    assert forall|j: int| 0 <= j < t.name.len() implies !is_sep(Sep::Space, #[trigger] x[j]) by {
        assert(x[j] == t.name[j]);
    }
    if pt.len() > 0 {
        assert(x[t.name.len() as int] == pt[0]);
        lemma_find_at(x, Sep::Space, t.name.len() as int);
        assert(x.subrange(0, t.name.len() as int) =~= t.name);
        assert(x.subrange(t.name.len() as int, x.len() as int) =~= pt);
        lemma_pairs_readback(t.values);
    } else {
        lemma_find_at(x, Sep::Space, t.name.len() as int);
        assert(t.values.len() == 0);
        assert(t.values =~= Seq::<(i64, Seq<char>)>::empty());
    }
}

#[verifier::rlimit(50)]
pub proof fn lemma_step_table(lines: Seq<Seq<char>>, i: int, st: ParseState, t: ValueTableView)
    requires
        0 <= i,
        i + row_lines(table_line(t)).len() <= lines.len(),
        lines.subrange(i, i + row_lines(table_line(t)).len()) == row_lines(table_line(t)),
        wf_table(t),
    ensures
        row_lines(table_line(t)).len() >= 1,
        step(lines, i, st) == Step::Next(
            i + row_lines(table_line(t)).len(),
            ParseState {
                dbc: DbcView { value_tables: st.dbc.value_tables.push(t), ..st.dbc },
                ..st
            },
        ),
{
    reveal_strlit("VAL_TABLE_ ");
    reveal_strlit("VAL_");
    reveal_strlit(" ;");
    let l = table_line(t);
    let head = "VAL_TABLE_ "@ + t.name;
    assert forall|k: int| 0 <= k < head.len() implies head[k] != '"' && head[k] != ';' by {
        if k >= 11 {
            assert(head[k] == t.name[k - 11]);
        }
    }
    lemma_semi_pairs_row(head, t.values);
    assert(head + pairs_text(t.values) + " ;"@ =~= l);
    assert(l.subrange(0, 4) =~= "VAL_"@);
    lemma_step_statement(lines, i, st, l, "VAL_"@);
    assert(l.subrange(0, 11) =~= "VAL_TABLE_ "@);
    assert(l.subrange(11, l.len() as int) =~= t.name + pairs_text(t.values) + " ;"@);
    lemma_read_table(t);
}

// ---------------------------------------------------------------------------
// Messages and signals.
pub proof fn lemma_no_sep_add(a: Seq<char>, b: Seq<char>, k: Sep)
    requires
        no_sep(a, k),
        no_sep(b, k),
    ensures
        no_sep(a + b, k),
{
    assert forall|i: int| 0 <= i < (a + b).len() implies !is_sep(k, #[trigger] (a + b)[i]) by {
        if i < a.len() {
            assert((a + b)[i] == a[i]);
        } else {
            assert((a + b)[i] == b[i - a.len()]);
        }
    }
}

/// The first separator of `a + z` is the first character of `z`.
pub proof fn lemma_find_split(a: Seq<char>, z: Seq<char>, k: Sep)
    requires
        no_sep(a, k),
        z.len() > 0,
        is_sep(k, z[0]),
    ensures
        find(a + z, k) == Some(a.len() as int),
        (a + z).subrange(0, a.len() as int) == a,
        (a + z).subrange(a.len() as int + 1, (a + z).len() as int) == z.drop_first(),
{
    let s = a + z;
    assert forall|j: int| 0 <= j < a.len() implies !is_sep(k, #[trigger] s[j]) by {
        assert(s[j] == a[j]);
    }
    assert(s[a.len() as int] == z[0]);
    lemma_find_at(s, k, a.len() as int);
    assert(s.subrange(0, a.len() as int) =~= a);
    assert(s.subrange(a.len() as int + 1, s.len() as int) =~= z.drop_first());
}

pub proof fn lemma_digits_no_sep(t: Seq<char>, k: Sep)
    requires
        forall|i: int| 0 <= i < t.len() ==> crate::numbers::is_digit(#[trigger] t[i]),
        k != Sep::NonDigit,
        k != Sep::Char('0'),
        k != Sep::Char('1'),
        k != Sep::Char('2'),
        k != Sep::Char('3'),
        k != Sep::Char('4'),
        k != Sep::Char('5'),
        k != Sep::Char('6'),
        k != Sep::Char('7'),
        k != Sep::Char('8'),
        k != Sep::Char('9'),
    ensures
        no_sep(t, k),
{
    assert forall|i: int| 0 <= i < t.len() implies !is_sep(k, #[trigger] t[i]) by {
        assert(crate::numbers::is_digit(t[i]));
    }
}

/// Reading back a written natural number.
pub proof fn lemma_read_nat(n: nat)
    ensures
        crate::numbers::unsigned_value(crate::numbers::nat_text(n)) == Some(n),
        n <= u64::MAX ==> crate::numbers::parse_u64_spec(crate::numbers::nat_text(n)) == Some(
            n as u64,
        ),
        n <= u32::MAX ==> crate::numbers::parse_u32_spec(crate::numbers::nat_text(n)) == Some(
            n as u32,
        ),
        trim(crate::numbers::nat_text(n)) == crate::numbers::nat_text(n),
        no_sep(crate::numbers::nat_text(n), Sep::Space),
{
    crate::numbers::lemma_unsigned_roundtrip(n);
    crate::roundtrip::lemma_nat_text_chars(n);
    let t = crate::numbers::nat_text(n);
    lemma_digits_no_sep(t, Sep::Space);
    lemma_trim_id(t);
}

#[verifier::rlimit(50)]
pub proof fn lemma_read_message_line(m: MessageView)
    requires
        crate::roundtrip::wf_message(m),
    ensures
        crate::parser::parse_message_spec(crate::document::message_line(m)) == Ok::<MessageView, Seq<char>>(
            MessageView { signals: Seq::empty(), comment: None, ..m },
        ),
{
    reveal_strlit("BO_ ");
    reveal_strlit(": ");
    let t = crate::document::message_line(m);
    let idt = crate::numbers::nat_text(m.id as nat);
    let szt = crate::numbers::nat_text(m.size as nat);
    lemma_read_nat(m.id as nat);
    lemma_read_nat(m.size as nat);
    let a = idt;
    let nc = m.name + seq![':'];
    let b = seq![' '] + nc;
    let c = seq![' '] + szt;
    let e = seq![' '] + m.transmitter;
    let rest = a + b + c + e;
    assert(t.subrange(0, 4) =~= "BO_ "@);
    assert(t.subrange(4, t.len() as int) =~= rest);
    assert(crate::parser::after_prefix(t, "BO_ "@) == rest);
    lemma_no_ws_no_space(m.name);
    assert(no_sep(nc, Sep::Space)) by {
        assert forall|i: int| 0 <= i < nc.len() implies !is_sep(Sep::Space, #[trigger] nc[i]) by {
            if i < m.name.len() {
                assert(nc[i] == m.name[i]);
            }
        }
    }
    lemma_no_ws_no_space(m.transmitter);
    lemma_tokens_concat(a + b + c, e, Sep::Space);
    lemma_tokens_concat(a + b, c, Sep::Space);
    lemma_tokens_concat(a, b, Sep::Space);
    crate::roundtrip::lemma_nat_text_chars(m.id as nat);
    lemma_tokens_word(a, Sep::Space);
    lemma_tokens_sep_word(' ', nc, Sep::Space);
    crate::roundtrip::lemma_nat_text_chars(m.size as nat);
    lemma_tokens_sep_word(' ', szt, Sep::Space);
    lemma_tokens_sep_word(' ', m.transmitter, Sep::Space);
    let toks = tokens(rest, Sep::Space);
    assert(toks =~= seq![a, nc, szt, m.transmitter]);
    assert(nc.drop_last() =~= m.name);
    if m.name.len() > 0 {
        assert(m.name.last() != ':');
    }
    assert(trim_end_char(m.name, ':') == m.name);
    assert(trim_end_char(nc, ':') == m.name);
}

#[verifier::rlimit(50)]
pub proof fn lemma_step_message(lines: Seq<Seq<char>>, i: int, st: ParseState, m: MessageView)
    requires
        0 <= i < lines.len(),
        lines[i] == crate::document::message_line(m),
        crate::roundtrip::wf_message(m),
    ensures
        step(lines, i, st) == Step::Next(
            i + 1,
            ParseState {
                dbc: DbcView {
                    messages: st.dbc.messages.push(
                        MessageView { signals: Seq::empty(), comment: None, ..m },
                    ),
                    ..st.dbc
                },
                ..st
            },
        ),
{
    reveal_strlit("BO_ ");
    reveal_strlit("NS_");
    reveal_strlit("BS_:");
    reveal_strlit("BS_ :");
    reveal_strlit("VERSION ");
    reveal_strlit("BU_:");
    let t = crate::document::message_line(m);
    assert(t[0] == 'B' && t[1] == 'O');
    assert(t.last() == m.transmitter.last());
    lemma_trim_id(t);
    lemma_differs_at(t, "NS_"@, 0);
    lemma_differs_at(t, "BS_:"@, 1);
    lemma_differs_at(t, "BS_ :"@, 1);
    lemma_differs_at(t, "VERSION "@, 0);
    lemma_differs_at(t, "BU_:"@, 1);
    assert(t.subrange(0, 4) =~= "BO_ "@);
    lemma_read_message_line(m);
}

/// `bits_spec` on a text whose cuts and pieces are known.
proof fn lemma_bits_from(b: Seq<char>, bar: int, at: int, start: u64, size: u64, o: crate::model::ByteOrder, v: crate::model::ValueType)
    requires
        find(b, Sep::Char('|')) == Some(bar),
        crate::numbers::parse_u64_spec(trim(b.subrange(0, bar))) == Some(start),
        find(b, Sep::Char('@')) == Some(at),
        bar + 1 <= at,
        crate::numbers::parse_u64_spec(trim(b.subrange(bar + 1, at))) == Some(size),
        o == (if b.subrange(at + 1, b.len() as int).len() > 0 && b.subrange(at + 1, b.len() as int)[0]
            == '0' {
            crate::model::ByteOrder::BigEndian
        } else {
            crate::model::ByteOrder::LittleEndian
        }),
        v == (if find(b.subrange(at + 1, b.len() as int), Sep::Char('-')) is Some {
            crate::model::ValueType::Signed
        } else {
            crate::model::ValueType::Unsigned
        }),
    ensures
        crate::parser::bits_spec(b) == crate::parser::BitsRead::Read(start, size, o, v),
{
}

proof fn lemma_bits_cuts(s: SignalView)
    ensures
        find(crate::writer::signal_bits_text(s), Sep::Char('|')) == Some(
            crate::numbers::nat_text(s.start_bit as nat).len() as int,
        ),
        find(crate::writer::signal_bits_text(s), Sep::Char('@')) == Some(
            crate::numbers::nat_text(s.start_bit as nat).len() as int + 1
                + crate::numbers::nat_text(s.size as nat).len() as int,
        ),
        crate::writer::signal_bits_text(s).subrange(
            0,
            crate::numbers::nat_text(s.start_bit as nat).len() as int,
        ) == crate::numbers::nat_text(s.start_bit as nat),
        crate::writer::signal_bits_text(s).subrange(
            crate::numbers::nat_text(s.start_bit as nat).len() as int + 1,
            crate::numbers::nat_text(s.start_bit as nat).len() as int + 1
                + crate::numbers::nat_text(s.size as nat).len() as int,
        ) == crate::numbers::nat_text(s.size as nat),
        crate::writer::signal_bits_text(s).subrange(
            crate::numbers::nat_text(s.start_bit as nat).len() as int + 2
                + crate::numbers::nat_text(s.size as nat).len() as int,
            crate::writer::signal_bits_text(s).len() as int,
        ) == seq![crate::writer::order_char(s.byte_order), crate::writer::sign_char(s.value_type)],
{
    let st = crate::numbers::nat_text(s.start_bit as nat);
    let sz = crate::numbers::nat_text(s.size as nat);
    let oc = crate::writer::order_char(s.byte_order);
    let sc = crate::writer::sign_char(s.value_type);
    let b = crate::writer::signal_bits_text(s);
    crate::roundtrip::lemma_nat_text_chars(s.start_bit as nat);
    crate::roundtrip::lemma_nat_text_chars(s.size as nat);
    lemma_digits_no_sep(st, Sep::Char('|'));
    lemma_digits_no_sep(st, Sep::Char('@'));
    lemma_digits_no_sep(sz, Sep::Char('@'));
    let z1 = seq!['|'] + sz + seq!['@', oc, sc];
    assert(b =~= st + z1);
    lemma_find_split(st, z1, Sep::Char('|'));
    let p2 = st + seq!['|'] + sz;
    assert(no_sep(seq!['|'], Sep::Char('@')));
    lemma_no_sep_add(st, seq!['|'], Sep::Char('@'));
    lemma_no_sep_add(st + seq!['|'], sz, Sep::Char('@'));
    let z2 = seq!['@', oc, sc];
    assert(b =~= p2 + z2);
    lemma_find_split(p2, z2, Sep::Char('@'));
    assert(b.subrange(st.len() as int + 1, p2.len() as int) =~= sz);
    assert(b.subrange(p2.len() as int + 1, b.len() as int) =~= seq![oc, sc]);
}

pub proof fn lemma_read_bits(s: SignalView)
    ensures
        crate::parser::bits_spec(crate::writer::signal_bits_text(s)) == crate::parser::BitsRead::Read(
            s.start_bit,
            s.size,
            s.byte_order,
            s.value_type,
        ),
{
    let st = crate::numbers::nat_text(s.start_bit as nat);
    let sz = crate::numbers::nat_text(s.size as nat);
    let oc = crate::writer::order_char(s.byte_order);
    let sc = crate::writer::sign_char(s.value_type);
    let b = crate::writer::signal_bits_text(s);
    lemma_read_nat(s.start_bit as nat);
    lemma_read_nat(s.size as nat);
    lemma_bits_cuts(s);
    let bar = st.len() as int;
    let at = st.len() as int + 1 + sz.len() as int;
    let os = seq![oc, sc];
    if sc == '-' {
        lemma_find_at(os, Sep::Char('-'), 1);
    } else {
        lemma_find_at(os, Sep::Char('-'), 2);
    }
    lemma_bits_from(b, bar, at, s.start_bit, s.size, s.byte_order, s.value_type);
}

pub proof fn lemma_number_no_sep(n: NumberView, k: Sep)
    requires
        canonical(n),
        k == Sep::Space || k == Sep::Char(',') || k == Sep::Char('|') || k == Sep::Char(')')
            || k == Sep::Char(']') || k == Sep::Char('(') || k == Sep::Char('[') || k == Sep::Char(
            ':',
        ) || k == Sep::Char('"'),
    ensures
        no_sep(number_text(n), k),
        number_text(n).len() > 0,
        trim(number_text(n)) == number_text(n),
{
    crate::roundtrip::lemma_number_text_chars(n);
    let t = number_text(n);
    assert forall|i: int| 0 <= i < t.len() implies !is_sep(k, #[trigger] t[i]) by {
        assert(crate::roundtrip::number_char(t[i]));
    }
    assert forall|i: int| 0 <= i < t.len() implies !is_ws(#[trigger] t[i]) by {
        assert(crate::roundtrip::number_char(t[i]));
    }
    lemma_trim_id(t);
}

pub proof fn lemma_read_number_pair(a: NumberView, b: NumberView, c: char)
    requires
        canonical(a),
        canonical(b),
        c == ',' || c == '|',
    ensures
        find(number_text(a) + seq![c] + number_text(b), Sep::Char(c)) == Some(
            number_text(a).len() as int,
        ),
        crate::decimal::parse_number_spec(
            trim((number_text(a) + seq![c] + number_text(b)).subrange(0, number_text(a).len() as int)),
        ) == Some(a),
        crate::decimal::parse_number_spec(
            trim(
                (number_text(a) + seq![c] + number_text(b)).subrange(
                    number_text(a).len() as int + 1,
                    (number_text(a) + seq![c] + number_text(b)).len() as int,
                ),
            ),
        ) == Some(b),
{
    let ta = number_text(a);
    let tb = number_text(b);
    lemma_number_no_sep(a, Sep::Char(c));
    lemma_number_no_sep(b, Sep::Char(c));
    assert(ta + seq![c] + tb =~= ta + (seq![c] + tb));
    lemma_find_split(ta, seq![c] + tb, Sep::Char(c));
    assert((seq![c] + tb).drop_first() =~= tb);
    crate::decimal::lemma_number_roundtrip(a);
    crate::decimal::lemma_number_roundtrip(b);
}

pub proof fn lemma_read_scaling(f: NumberView, o: NumberView)
    requires
        canonical(f),
        canonical(o),
    ensures
        crate::parser::scaling_spec(number_text(f) + seq![','] + number_text(o)) == Ok::<
            (NumberView, NumberView),
            Seq<char>,
        >((f, o)),
{
    lemma_read_number_pair(f, o, ',');
}

pub proof fn lemma_read_range(lo: NumberView, hi: NumberView)
    requires
        canonical(lo),
        canonical(hi),
    ensures
        crate::parser::range_spec(number_text(lo) + seq!['|'] + number_text(hi)) == Ok::<
            (NumberView, NumberView),
            Seq<char>,
        >((lo, hi)),
{
    lemma_read_number_pair(lo, hi, '|');
}

/// A comma-separated list of names after a space reads back as the names.
pub proof fn lemma_tokens_joined(v: Seq<Seq<char>>)
    requires
        v.len() > 0,
        forall|k: int| 0 <= k < v.len() ==> no_sep(#[trigger] v[k], Sep::ListSep) && v[k].len() > 0,
    ensures
        tokens(seq![' '] + crate::writer::join(v, ','), Sep::ListSep) == v,
    decreases v.len(),
{
    if v.len() == 1 {
        assert(crate::writer::join(v, ',') == v[0]);
        lemma_tokens_sep_word(' ', v[0], Sep::ListSep);
        assert(seq![v[0]] =~= v);
    } else {
        let ys = v.drop_last();
        assert forall|k: int| 0 <= k < ys.len() implies no_sep(#[trigger] ys[k], Sep::ListSep)
            && ys[k].len() > 0 by {
            assert(ys[k] == v[k]);
        }
        lemma_tokens_joined(ys);
        let x = v.last();
        assert(no_sep(v[v.len() - 1], Sep::ListSep) && v[v.len() - 1].len() > 0);
        let j = crate::writer::join(v, ',');
        assert(j == crate::writer::join(ys, ',') + seq![','] + x);
        assert(seq![' '] + j =~= (seq![' '] + crate::writer::join(ys, ',')) + (seq![','] + x));
        lemma_tokens_concat(seq![' '] + crate::writer::join(ys, ','), seq![','] + x, Sep::ListSep);
        lemma_tokens_sep_word(',', x, Sep::ListSep);
        assert(ys + seq![x] =~= v);
    }
}

pub proof fn lemma_read_unit_receivers(s: SignalView)
    requires
        crate::roundtrip::wf_signal(s),
    ensures
        crate::parser::unit_receivers_spec(
            seq![' '] + quoted(s.unit) + crate::writer::receivers_text(s.receivers),
        ) == (s.unit, s.receivers),
{
    let r = crate::writer::receivers_text(s.receivers);
    assert(lacks(seq![' '], '"'));
    lemma_read_quoted(seq![' '], s.unit, r);
    assert forall|k: int| 0 <= k < s.receivers.len() implies no_sep(
        #[trigger] s.receivers[k],
        Sep::ListSep,
    ) && s.receivers[k].len() > 0 by {
        let x = s.receivers[k];
        assert(is_name(x) && lacks(x, ','));
        assert forall|i: int| 0 <= i < x.len() implies !is_sep(Sep::ListSep, #[trigger] x[i]) by {
            assert(!is_ws(x[i]));
        }
    }
    lemma_tokens_joined(s.receivers);
}

/// The words before the colon of a signal line: its name and its
/// multiplexer mark.
pub proof fn lemma_read_head(s: SignalView)
    requires
        crate::roundtrip::wf_signal(s),
    ensures
        tokens(s.name + crate::writer::mux_text(s.multiplexer) + seq![' '], Sep::Space).len() >= 1,
        tokens(s.name + crate::writer::mux_text(s.multiplexer) + seq![' '], Sep::Space)[0] == s.name,
        crate::parser::mux_spec(
            tokens(s.name + crate::writer::mux_text(s.multiplexer) + seq![' '], Sep::Space),
        ) == s.multiplexer,
{
    let x = crate::writer::mux_text(s.multiplexer);
    let h = s.name + x + seq![' '];
    lemma_no_ws_no_space(s.name);
    lemma_tokens_concat(s.name + x, seq![' '], Sep::Space);
    assert(seq![' '].drop_first() =~= Seq::<char>::empty());
    assert(tokens(Seq::<char>::empty(), Sep::Space) =~= Seq::<Seq<char>>::empty());
    assert(is_sep(Sep::Space, seq![' '][0]));
    assert(tokens(seq![' '], Sep::Space) == tokens(seq![' '].drop_first(), Sep::Space));
    assert(tokens(seq![' '], Sep::Space) =~= Seq::<Seq<char>>::empty());
    match s.multiplexer {
        crate::model::Multiplexer::Normal => {
            assert(s.name + x =~= s.name);
            lemma_tokens_word(s.name, Sep::Space);
            assert(tokens(h, Sep::Space) =~= seq![s.name]);
        },
        crate::model::Multiplexer::Multiplexor => {
            lemma_tokens_concat(s.name, x, Sep::Space);
            lemma_tokens_word(s.name, Sep::Space);
            assert(x =~= seq![' '] + seq!['M']);
            lemma_tokens_sep_word(' ', seq!['M'], Sep::Space);
            assert(tokens(h, Sep::Space) =~= seq![s.name, seq!['M']]);
        },
        crate::model::Multiplexer::Multiplexed(n) => {
            let dt = crate::numbers::nat_text(n as nat);
            let w = seq!['m'] + dt;
            assert(x =~= seq![' '] + w);
            lemma_read_nat(n as nat);
            crate::roundtrip::lemma_nat_text_chars(n as nat);
            lemma_digits_no_sep(dt, Sep::Space);
            assert(no_sep(w, Sep::Space)) by {
                assert forall|i: int| 0 <= i < w.len() implies !is_sep(Sep::Space, #[trigger] w[i]) by {
                    if i > 0 {
                        assert(w[i] == dt[i - 1]);
                    }
                }
            }
            lemma_tokens_concat(s.name, x, Sep::Space);
            lemma_tokens_word(s.name, Sep::Space);
            lemma_tokens_sep_word(' ', w, Sep::Space);
            assert(tokens(h, Sep::Space) =~= seq![s.name, w]);
            let t = w.subrange(1, w.len() as int);
            assert(t =~= dt);
            assert forall|j: int| 0 <= j < dt.len() implies !is_sep(Sep::NonDigit, #[trigger] dt[j]) by {
                assert(crate::numbers::is_digit(dt[j]));
            }
            lemma_word_len_at(dt, Sep::NonDigit, dt.len() as int);
            assert(dt.subrange(0, dt.len() as int) =~= dt);
            assert(w != seq!['M']) by {
                assert(w[0] != seq!['M'][0]);
            }
        },
    }
}

pub open spec fn bits_char(c: char) -> bool {
    crate::numbers::is_digit(c) || c == '|' || c == '@' || c == '+' || c == '-'
}

proof fn lemma_bits_chars(s: SignalView)
    ensures
        forall|i: int|
            0 <= i < crate::writer::signal_bits_text(s).len() ==> bits_char(
                #[trigger] crate::writer::signal_bits_text(s)[i],
            ),
        crate::writer::signal_bits_text(s).len() > 0,
        !is_ws(crate::writer::signal_bits_text(s)[0]),
        !is_ws(crate::writer::signal_bits_text(s).last()),
{
    let st = crate::numbers::nat_text(s.start_bit as nat);
    let sz = crate::numbers::nat_text(s.size as nat);
    crate::roundtrip::lemma_nat_text_chars(s.start_bit as nat);
    crate::roundtrip::lemma_nat_text_chars(s.size as nat);
    let b = crate::writer::signal_bits_text(s);
    assert forall|i: int| 0 <= i < b.len() implies bits_char(#[trigger] b[i]) by {
        if i < st.len() {
            assert(b[i] == st[i]);
        } else if i > st.len() && i < st.len() + 1 + sz.len() {
            assert(b[i] == sz[i - st.len() - 1]);
        }
    }
    assert(crate::numbers::is_digit(b[0]));
}

proof fn lemma_bits_no_sep(s: SignalView, c: char)
    requires
        c == '(' || c == ')' || c == ':' || c == ' ' || c == ',',
    ensures
        no_sep(crate::writer::signal_bits_text(s), Sep::Char(c)),
{
    lemma_bits_chars(s);
    let b = crate::writer::signal_bits_text(s);
    assert forall|i: int| 0 <= i < b.len() implies !is_sep(Sep::Char(c), #[trigger] b[i]) by {
        assert(bits_char(b[i]));
    }
}

/// The text of a signal line after `SG_ `, in the pieces the parser cuts it
/// into.
pub open spec fn signal_tail(s: SignalView) -> Seq<char> {
    seq![' '] + quoted(s.unit) + crate::writer::receivers_text(s.receivers)
}

pub open spec fn signal_after(s: SignalView) -> Seq<char> {
    seq![' ', '['] + number_text(s.min) + seq!['|'] + number_text(s.max) + seq![']'] + signal_tail(s)
}

pub open spec fn signal_spec_text(s: SignalView) -> Seq<char> {
    seq![' '] + crate::writer::signal_bits_text(s) + seq![' ', '('] + number_text(s.factor) + seq![
        ',',
    ] + number_text(s.offset) + seq![')'] + signal_after(s)
}

pub open spec fn signal_rest(s: SignalView) -> Seq<char> {
    s.name + crate::writer::mux_text(s.multiplexer) + seq![' ', ':'] + signal_spec_text(s)
}

proof fn lemma_signal_head(s: SignalView)
    ensures
        crate::writer::signal_head_text(s) == seq![' '] + ("SG_ "@ + s.name + crate::writer::mux_text(
            s.multiplexer,
        ) + seq![' ', ':', ' ']),
{
    reveal_strlit(" SG_ ");
    reveal_strlit("SG_ ");
    reveal_strlit(" : ");
    assert(crate::writer::signal_head_text(s) =~= seq![' '] + ("SG_ "@ + s.name
        + crate::writer::mux_text(s.multiplexer) + seq![' ', ':', ' ']));
}

proof fn lemma_signal_scaling(s: SignalView)
    ensures
        crate::writer::signal_scaling_text(s) == seq![' ', '('] + number_text(s.factor) + seq![','] + number_text(
            s.offset,
        ) + seq![')', ' ', '['] + number_text(s.min) + seq!['|'] + number_text(s.max) + seq![']', ' '],
{
    reveal_strlit(" (");
    reveal_strlit(") [");
    reveal_strlit("] ");
    assert(crate::writer::signal_scaling_text(s) =~= seq![' ', '('] + number_text(s.factor) + seq![
        ',',
    ] + number_text(s.offset) + seq![')', ' ', '['] + number_text(s.min) + seq!['|'] + number_text(
        s.max,
    ) + seq![']', ' ']);
}

/// Regrouping the pieces of a signal line.
#[verifier::rlimit(80)]
proof fn lemma_signal_shape(
    p: Seq<char>,
    nm: Seq<char>,
    mx: Seq<char>,
    b: Seq<char>,
    f: Seq<char>,
    o: Seq<char>,
    lo: Seq<char>,
    hi: Seq<char>,
    q: Seq<char>,
    r: Seq<char>,
)
    ensures
        (seq![' '] + (p + nm + mx + seq![' ', ':', ' ']) + b + (seq![' ', '('] + f + seq![','] + o
            + seq![')', ' ', '['] + lo + seq!['|'] + hi + seq![']', ' ']) + q + r).drop_first() == p
            + (nm + mx + seq![' ', ':'] + (seq![' '] + b + seq![' ', '('] + f + seq![','] + o + seq![
            ')',
        ] + (seq![' ', '['] + lo + seq!['|'] + hi + seq![']'] + (seq![' '] + q + r)))),
{
    let x = seq![' ', '('] + f + seq![','] + o + seq![')', ' ', '['] + lo + seq!['|'] + hi + seq![']'];
    let tail = seq![' '] + q + r;
    let after = seq![' ', '['] + lo + seq!['|'] + hi + seq![']'] + tail;
    let sp = seq![' '] + b + seq![' ', '('] + f + seq![','] + o + seq![')'] + after;
    assert(seq![' ', '('] + f + seq![','] + o + seq![')', ' ', '['] + lo + seq!['|'] + hi + seq![
        ']',
        ' ',
    ] =~= x + seq![' ']);
    assert(x + seq![' '] + q + r =~= x + tail);
    assert(x + tail =~= seq![' ', '('] + f + seq![','] + o + seq![')'] + after);
    assert(seq![' '] + (b + (x + seq![' ']) + q + r) =~= sp);
    let h = p + nm + mx + seq![' ', ':', ' '];
    let whole = seq![' '] + h + b + (x + seq![' ']) + q + r;
    assert(whole.drop_first() =~= h + b + (x + seq![' ']) + q + r);
    assert(h + b + (x + seq![' ']) + q + r =~= p + (nm + mx + seq![' ', ':'] + (seq![' '] + (b + (x
        + seq![' ']) + q + r))));
}

proof fn lemma_signal_rest(s: SignalView)
    ensures
        crate::document::signal_line(s).drop_first() == "SG_ "@ + signal_rest(s),
        crate::document::signal_line(s)[0] == ' ',
{
    lemma_signal_head(s);
    lemma_signal_scaling(s);
    lemma_signal_shape(
        "SG_ "@,
        s.name,
        crate::writer::mux_text(s.multiplexer),
        crate::writer::signal_bits_text(s),
        number_text(s.factor),
        number_text(s.offset),
        number_text(s.min),
        number_text(s.max),
        quoted(s.unit),
        crate::writer::receivers_text(s.receivers),
    );
}

proof fn lemma_mux_no_colon(s: SignalView)
    requires
        crate::roundtrip::wf_signal(s),
    ensures
        no_sep(s.name + crate::writer::mux_text(s.multiplexer) + seq![' '], Sep::Char(':')),
{
    let mx = crate::writer::mux_text(s.multiplexer);
    let x = s.name + mx + seq![' '];
    match s.multiplexer {
        crate::model::Multiplexer::Multiplexed(n) => {
            crate::roundtrip::lemma_nat_text_chars(n as nat);
        },
        _ => {},
    }
    assert forall|i: int| 0 <= i < x.len() implies !is_sep(Sep::Char(':'), #[trigger] x[i]) by {
        if i < s.name.len() {
            assert(x[i] == s.name[i]);
        } else if i < s.name.len() + mx.len() {
            assert(x[i] == mx[i - s.name.len()]);
            match s.multiplexer {
                crate::model::Multiplexer::Multiplexed(n) => {
                    if i - s.name.len() >= 2 {
                        assert(mx[i - s.name.len()] == crate::numbers::nat_text(n as nat)[i
                            - s.name.len() - 2]);
                    }
                },
                _ => {},
            }
        }
    }
}

proof fn lemma_cut_colon(s: SignalView)
    requires
        crate::roundtrip::wf_signal(s),
    ensures
        find(signal_rest(s), Sep::Char(':')) == Some(
            (s.name + crate::writer::mux_text(s.multiplexer)).len() as int + 1,
        ),
        signal_rest(s).subrange(0, (s.name + crate::writer::mux_text(s.multiplexer)).len() as int + 1)
            == s.name + crate::writer::mux_text(s.multiplexer) + seq![' '],
        signal_rest(s).subrange(
            (s.name + crate::writer::mux_text(s.multiplexer)).len() as int + 2,
            signal_rest(s).len() as int,
        ) == signal_spec_text(s),
{
    let a = s.name + crate::writer::mux_text(s.multiplexer) + seq![' '];
    let z = seq![':'] + signal_spec_text(s);
    lemma_mux_no_colon(s);
    assert(signal_rest(s) =~= a + z);
    lemma_find_split(a, z, Sep::Char(':'));
    assert(z.drop_first() =~= signal_spec_text(s));
}

proof fn lemma_cut_paren(s: SignalView)
    ensures
        find(signal_spec_text(s), Sep::Char('(')) == Some(
            crate::writer::signal_bits_text(s).len() as int + 2,
        ),
        trim(
            signal_spec_text(s).subrange(0, crate::writer::signal_bits_text(s).len() as int + 2),
        ) == crate::writer::signal_bits_text(s),
{
    let b = crate::writer::signal_bits_text(s);
    lemma_bits_no_sep(s, '(');
    lemma_no_sep_add(seq![' '], b, Sep::Char('('));
    lemma_no_sep_add(seq![' '] + b, seq![' '], Sep::Char('('));
    let a = seq![' '] + b + seq![' '];
    let z = seq!['('] + number_text(s.factor) + seq![','] + number_text(s.offset) + seq![')']
        + signal_after(s);
    assert(signal_spec_text(s) =~= a + z);
    lemma_find_split(a, z, Sep::Char('('));
    lemma_bits_chars(s);
    lemma_trim_start_after_ws(seq![' '], b + seq![' ']);
    assert(a =~= seq![' '] + (b + seq![' ']));
    assert((b + seq![' ']).drop_last() =~= b);
    lemma_trim_end_id(b);
}

proof fn lemma_cut_close(s: SignalView)
    requires
        crate::roundtrip::wf_signal(s),
    ensures
        find(signal_spec_text(s), Sep::Char(')')) == Some(
            crate::writer::signal_bits_text(s).len() as int + 4 + number_text(s.factor).len() as int
                + number_text(s.offset).len() as int,
        ),
        signal_spec_text(s).subrange(
            crate::writer::signal_bits_text(s).len() as int + 3,
            crate::writer::signal_bits_text(s).len() as int + 4 + number_text(s.factor).len() as int
                + number_text(s.offset).len() as int,
        ) == number_text(s.factor) + seq![','] + number_text(s.offset),
        signal_spec_text(s).subrange(
            crate::writer::signal_bits_text(s).len() as int + 5 + number_text(s.factor).len() as int
                + number_text(s.offset).len() as int,
            signal_spec_text(s).len() as int,
        ) == signal_after(s),
{
    let b = crate::writer::signal_bits_text(s);
    let f = number_text(s.factor);
    let o = number_text(s.offset);
    lemma_bits_no_sep(s, ')');
    lemma_number_no_sep(s.factor, Sep::Char(')'));
    lemma_number_no_sep(s.offset, Sep::Char(')'));
    lemma_no_sep_add(seq![' '], b, Sep::Char(')'));
    lemma_no_sep_add(seq![' '] + b, seq![' ', '('], Sep::Char(')'));
    lemma_no_sep_add(seq![' '] + b + seq![' ', '('], f, Sep::Char(')'));
    lemma_no_sep_add(seq![' '] + b + seq![' ', '('] + f, seq![','], Sep::Char(')'));
    lemma_no_sep_add(seq![' '] + b + seq![' ', '('] + f + seq![','], o, Sep::Char(')'));
    let a = seq![' '] + b + seq![' ', '('] + f + seq![','] + o;
    let z = seq![')'] + signal_after(s);
    assert(signal_spec_text(s) =~= a + z);
    lemma_find_split(a, z, Sep::Char(')'));
    assert(signal_spec_text(s).subrange(b.len() as int + 3, a.len() as int) =~= f + seq![','] + o);
    assert(z.drop_first() =~= signal_after(s));
}

proof fn lemma_cut_brackets(s: SignalView)
    requires
        crate::roundtrip::wf_signal(s),
    ensures
        find(signal_after(s), Sep::Char('[')) == Some(1int),
        find(signal_after(s), Sep::Char(']')) == Some(
            3 + number_text(s.min).len() as int + number_text(s.max).len() as int,
        ),
        signal_after(s).subrange(2, 3 + number_text(s.min).len() as int + number_text(s.max).len() as int)
            == number_text(s.min) + seq!['|'] + number_text(s.max),
        signal_after(s).subrange(
            4 + number_text(s.min).len() as int + number_text(s.max).len() as int,
            signal_after(s).len() as int,
        ) == signal_tail(s),
{
    let lo = number_text(s.min);
    let hi = number_text(s.max);
    let after = signal_after(s);
    assert(no_sep(seq![' '], Sep::Char('[')));
    assert(after =~= seq![' '] + (seq!['['] + lo + seq!['|'] + hi + seq![']'] + signal_tail(s)));
    lemma_find_split(seq![' '], seq!['['] + lo + seq!['|'] + hi + seq![']'] + signal_tail(s), Sep::Char('['));
    lemma_number_no_sep(s.min, Sep::Char(']'));
    lemma_number_no_sep(s.max, Sep::Char(']'));
    lemma_no_sep_add(seq![' ', '['], lo, Sep::Char(']'));
    lemma_no_sep_add(seq![' ', '['] + lo, seq!['|'], Sep::Char(']'));
    lemma_no_sep_add(seq![' ', '['] + lo + seq!['|'], hi, Sep::Char(']'));
    let a = seq![' ', '['] + lo + seq!['|'] + hi;
    let z = seq![']'] + signal_tail(s);
    assert(after =~= a + z);
    lemma_find_split(a, z, Sep::Char(']'));
    assert(after.subrange(2, a.len() as int) =~= lo + seq!['|'] + hi);
    assert(z.drop_first() =~= signal_tail(s));
}

/// `parse_signal_spec` on a line whose cuts and pieces are known.
#[verifier::rlimit(50)]
proof fn lemma_signal_read_from(
    t: Seq<char>,
    rest: Seq<char>,
    colon: int,
    spec: Seq<char>,
    paren: int,
    bits: (u64, u64, crate::model::ByteOrder, crate::model::ValueType),
    close: int,
    scaling: (NumberView, NumberView),
    after: Seq<char>,
    lb: int,
    rb: int,
    range: (NumberView, NumberView),
    ur: (Seq<char>, Seq<Seq<char>>),
)
    requires
        crate::parser::after_prefix(t, "SG_ "@) == rest,
        find(rest, Sep::Char(':')) == Some(colon),
        tokens(rest.subrange(0, colon), Sep::Space).len() >= 1,
        spec == rest.subrange(colon + 1, rest.len() as int),
        find(spec, Sep::Char('(')) == Some(paren),
        crate::parser::bits_spec(trim(spec.subrange(0, paren))) == crate::parser::BitsRead::Read(
            bits.0,
            bits.1,
            bits.2,
            bits.3,
        ),
        find(spec, Sep::Char(')')) == Some(close),
        paren + 1 <= close,
        crate::parser::scaling_spec(spec.subrange(paren + 1, close)) == Ok::<
            (NumberView, NumberView),
            Seq<char>,
        >(scaling),
        after == spec.subrange(close + 1, spec.len() as int),
        find(after, Sep::Char('[')) == Some(lb),
        find(after, Sep::Char(']')) == Some(rb),
        lb + 1 <= rb,
        crate::parser::range_spec(after.subrange(lb + 1, rb)) == Ok::<
            (NumberView, NumberView),
            Seq<char>,
        >(range),
        crate::parser::unit_receivers_spec(after.subrange(rb + 1, after.len() as int)) == ur,
    ensures
        crate::parser::parse_signal_spec(t) == crate::parser::SignalRead::Read(
            SignalView {
                name: tokens(rest.subrange(0, colon), Sep::Space)[0],
                multiplexer: crate::parser::mux_spec(tokens(rest.subrange(0, colon), Sep::Space)),
                start_bit: bits.0,
                size: bits.1,
                byte_order: bits.2,
                value_type: bits.3,
                factor: scaling.0,
                offset: scaling.1,
                min: range.0,
                max: range.1,
                unit: ur.0,
                receivers: ur.1,
                comment: None,
                value_descriptions: Seq::empty(),
            },
        ),
{
}

pub open spec fn signal_colon(s: SignalView) -> int {
    (s.name + crate::writer::mux_text(s.multiplexer)).len() as int + 1
}

pub open spec fn signal_paren(s: SignalView) -> int {
    crate::writer::signal_bits_text(s).len() as int + 2
}

pub open spec fn signal_close(s: SignalView) -> int {
    crate::writer::signal_bits_text(s).len() as int + 4 + number_text(s.factor).len() as int
        + number_text(s.offset).len() as int
}

pub open spec fn signal_rb(s: SignalView) -> int {
    3 + number_text(s.min).len() as int + number_text(s.max).len() as int
}

proof fn lemma_signal_cuts(s: SignalView)
    requires
        crate::roundtrip::wf_signal(s),
    ensures
        find(signal_rest(s), Sep::Char(':')) == Some(signal_colon(s)),
        tokens(signal_rest(s).subrange(0, signal_colon(s)), Sep::Space).len() >= 1,
        tokens(signal_rest(s).subrange(0, signal_colon(s)), Sep::Space)[0] == s.name,
        crate::parser::mux_spec(tokens(signal_rest(s).subrange(0, signal_colon(s)), Sep::Space))
            == s.multiplexer,
        signal_spec_text(s) == signal_rest(s).subrange(
            signal_colon(s) + 1,
            signal_rest(s).len() as int,
        ),
        find(signal_spec_text(s), Sep::Char('(')) == Some(signal_paren(s)),
        crate::parser::bits_spec(trim(signal_spec_text(s).subrange(0, signal_paren(s))))
            == crate::parser::BitsRead::Read(s.start_bit, s.size, s.byte_order, s.value_type),
        find(signal_spec_text(s), Sep::Char(')')) == Some(signal_close(s)),
        signal_paren(s) + 1 <= signal_close(s),
        crate::parser::scaling_spec(
            signal_spec_text(s).subrange(signal_paren(s) + 1, signal_close(s)),
        ) == Ok::<(NumberView, NumberView), Seq<char>>((s.factor, s.offset)),
        signal_after(s) == signal_spec_text(s).subrange(
            signal_close(s) + 1,
            signal_spec_text(s).len() as int,
        ),
        find(signal_after(s), Sep::Char('[')) == Some(1int),
        find(signal_after(s), Sep::Char(']')) == Some(signal_rb(s)),
        2 <= signal_rb(s),
        crate::parser::range_spec(signal_after(s).subrange(2, signal_rb(s))) == Ok::<
            (NumberView, NumberView),
            Seq<char>,
        >((s.min, s.max)),
        crate::parser::unit_receivers_spec(
            signal_after(s).subrange(signal_rb(s) + 1, signal_after(s).len() as int),
        ) == (s.unit, s.receivers),
{
    lemma_cut_colon(s);
    lemma_read_head(s);
    lemma_cut_paren(s);
    lemma_read_bits(s);
    lemma_cut_close(s);
    lemma_read_scaling(s.factor, s.offset);
    lemma_cut_brackets(s);
    lemma_read_range(s.min, s.max);
    lemma_read_unit_receivers(s);
}

/// Reading back a written signal line.
pub proof fn lemma_read_signal_line(s: SignalView)
    requires
        crate::roundtrip::wf_signal(s),
    ensures
        crate::parser::parse_signal_spec(crate::document::signal_line(s).drop_first())
            == crate::parser::SignalRead::Read(
            SignalView { comment: None, value_descriptions: Seq::empty(), ..s },
        ),
{
    reveal_strlit("SG_ ");
    let t = crate::document::signal_line(s).drop_first();
    lemma_signal_rest(s);
    assert(t.subrange(0, 4) =~= "SG_ "@);
    assert(t.subrange(4, t.len() as int) =~= signal_rest(s));
    lemma_signal_cuts(s);
    lemma_signal_read_from(
        t,
        signal_rest(s),
        signal_colon(s),
        signal_spec_text(s),
        signal_paren(s),
        (s.start_bit, s.size, s.byte_order, s.value_type),
        signal_close(s),
        (s.factor, s.offset),
        signal_after(s),
        1,
        signal_rb(s),
        (s.min, s.max),
        (s.unit, s.receivers),
    );
}

#[verifier::rlimit(50)]
pub proof fn lemma_step_signal(lines: Seq<Seq<char>>, i: int, st: ParseState, s: SignalView)
    requires
        0 <= i < lines.len(),
        lines[i] == crate::document::signal_line(s),
        crate::roundtrip::wf_signal(s),
        st.dbc.messages.len() > 0,
    ensures
        step(lines, i, st) == Step::Next(
            i + 1,
            ParseState {
                dbc: DbcView {
                    messages: st.dbc.messages.update(
                        st.dbc.messages.len() - 1,
                        MessageView {
                            signals: st.dbc.messages.last().signals.push(
                                SignalView { comment: None, value_descriptions: Seq::empty(), ..s },
                            ),
                            ..st.dbc.messages.last()
                        },
                    ),
                    ..st.dbc
                },
                ..st
            },
        ),
{
    reveal_strlit("SG_ ");
    reveal_strlit("BO_ ");
    reveal_strlit("NS_");
    reveal_strlit("BS_:");
    reveal_strlit("BS_ :");
    reveal_strlit("VERSION ");
    reveal_strlit("BU_:");
    let l = crate::document::signal_line(s);
    crate::roundtrip::lemma_signal_line_plain(s);
    let t = l.drop_first();
    lemma_signal_rest(s);
    assert(l =~= seq![' '] + t);
    assert(t[0] == 'S' && t[1] == 'G');
    assert(t.last() == l.last());
    lemma_trim_after_space(t);
    lemma_differs_at(t, "NS_"@, 0);
    lemma_differs_at(t, "BS_:"@, 0);
    lemma_differs_at(t, "BS_ :"@, 0);
    lemma_differs_at(t, "VERSION "@, 0);
    lemma_differs_at(t, "BU_:"@, 0);
    lemma_differs_at(t, "BO_ "@, 0);
    assert(t.subrange(0, 4) =~= "SG_ "@);
    lemma_read_signal_line(s);
}

// ---------------------------------------------------------------------------
// Comments, kept lines and value descriptions.
/// The `;` of a statement row `<plain><quoted>;`.
pub proof fn lemma_semi_quoted_row(head: Seq<char>, c: Seq<char>)
    requires
        lacks(head, '"'),
        lacks(head, ';'),
    ensures
        unquoted_semicolon_spec(head + quoted(c) + seq![';']) == Some(
            (head + quoted(c) + seq![';']).len() - 1,
        ),
{
    let q = quoted(c);
    let s = head + q + seq![';'];
    let a = head.len() as int;
    assert forall|k: int| 0 <= k < a implies #[trigger] s[k] != '"' && s[k] != ';' by {
        assert(s[k] == head[k]);
    }
    lemma_semi_plain(s, 0, a);
    assert(s.subrange(a, a + q.len()) =~= q);
    crate::readback::lemma_semi_quoted(s, a, c);
    assert(s[a + q.len()] == ';');
}

/// `take_word` on a word followed by whitespace.
pub proof fn lemma_take_word(w: Seq<char>, z: Seq<char>)
    requires
        is_name(w),
        z.len() > 0,
        is_ws(z[0]),
    ensures
        crate::lexer::take_word_spec(w + z) == (w, z),
{
    assert((w + z)[0] == w[0]);
    lemma_trim_start_id(w + z);
    lemma_no_ws_no_space(w);
    lemma_find_split(w, z, Sep::Space);
    assert((w + z).subrange(w.len() as int, (w + z).len() as int) =~= z);
}

/// The part of a comment statement after `CM_ ` and before its `;`.
pub proof fn lemma_comment_body(body: Seq<char>)
    requires
        body.len() > 0,
        !is_ws(body[0]),
        body.last() == '"',
    ensures
        ({
            let r = trim(body + seq![';']);
            trim(
                if r.len() > 0 && r.last() == ';' {
                    r.drop_last()
                } else {
                    r
                },
            )
        }) == body,
{
    let r = body + seq![';'];
    assert(r[0] == body[0]);
    lemma_trim_id(r);
    assert(r.drop_last() =~= body);
    lemma_trim_id(body);
}

#[verifier::rlimit(50)]
pub proof fn lemma_read_network_comment(c: Seq<char>)
    ensures
        crate::parser::parse_comment_spec(quoted(c) + seq![';']) == Some(
            crate::parser::CommentView::Network(c),
        ),
{
    reveal_strlit("BU_ ");
    reveal_strlit("BO_ ");
    reveal_strlit("SG_ ");
    let q = quoted(c);
    crate::readback::lemma_escaped_len(c);
    lemma_comment_body(q);
    lemma_differs_at(q, "BU_ "@, 0);
    lemma_differs_at(q, "BO_ "@, 0);
    lemma_differs_at(q, "SG_ "@, 0);
    lemma_unquote_quoted(Seq::empty(), c);
    assert(Seq::<char>::empty() + q =~= q);
}

#[verifier::rlimit(50)]
pub proof fn lemma_read_node_comment(name: Seq<char>, c: Seq<char>)
    requires
        is_name(name),
    ensures
        crate::parser::parse_comment_spec("BU_ "@ + name + seq![' '] + quoted(c) + seq![';']) == Some(
            crate::parser::CommentView::Node(name, c),
        ),
{
    reveal_strlit("BU_ ");
    let q = quoted(c);
    let body = "BU_ "@ + name + seq![' '] + q;
    assert("BU_ "@ + name + seq![' '] + q + seq![';'] =~= body + seq![';']);
    lemma_comment_body(body);
    assert(body.subrange(0, 4) =~= "BU_ "@);
    let t = name + (seq![' '] + q);
    assert(body.subrange(4, body.len() as int) =~= t);
    assert(t[0] == name[0]);
    lemma_trim_id(t);
    lemma_take_word(name, seq![' '] + q);
    lemma_unquote_quoted(seq![' '], c);
}

#[verifier::rlimit(50)]
pub proof fn lemma_read_message_comment(id: u32, c: Seq<char>)
    ensures
        crate::parser::parse_comment_spec(
            "BO_ "@ + crate::numbers::nat_text(id as nat) + seq![' '] + quoted(c) + seq![';'],
        ) == Some(crate::parser::CommentView::Message(id, c)),
{
    reveal_strlit("BU_ ");
    reveal_strlit("BO_ ");
    let q = quoted(c);
    let idt = crate::numbers::nat_text(id as nat);
    let body = "BO_ "@ + idt + seq![' '] + q;
    assert("BO_ "@ + idt + seq![' '] + q + seq![';'] =~= body + seq![';']);
    lemma_comment_body(body);
    lemma_differs_at(body, "BU_ "@, 1);
    assert(body.subrange(0, 4) =~= "BO_ "@);
    let t = idt + (seq![' '] + q);
    assert(body.subrange(4, body.len() as int) =~= t);
    lemma_read_nat(id as nat);
    crate::roundtrip::lemma_nat_text_chars(id as nat);
    assert(t[0] == idt[0]);
    assert(!is_ws(idt[0])) by {
        assert(crate::numbers::is_digit(idt[0]));
    }
    lemma_trim_id(t);
    lemma_take_word(idt, seq![' '] + q);
    lemma_unquote_quoted(seq![' '], c);
}

#[verifier::rlimit(50)]
pub proof fn lemma_read_signal_comment(id: u32, name: Seq<char>, c: Seq<char>)
    requires
        is_name(name),
    ensures
        crate::parser::parse_comment_spec(
            "SG_ "@ + crate::numbers::nat_text(id as nat) + seq![' '] + name + seq![' '] + quoted(c)
                + seq![';'],
        ) == Some(crate::parser::CommentView::Signal(id, name, c)),
{
    reveal_strlit("BU_ ");
    reveal_strlit("BO_ ");
    reveal_strlit("SG_ ");
    let q = quoted(c);
    let idt = crate::numbers::nat_text(id as nat);
    let body = "SG_ "@ + idt + seq![' '] + name + seq![' '] + q;
    assert("SG_ "@ + idt + seq![' '] + name + seq![' '] + q + seq![';'] =~= body + seq![';']);
    lemma_comment_body(body);
    lemma_differs_at(body, "BU_ "@, 0);
    lemma_differs_at(body, "BO_ "@, 0);
    assert(body.subrange(0, 4) =~= "SG_ "@);
    let z = seq![' '] + name + seq![' '] + q;
    let t = idt + z;
    assert(body.subrange(4, body.len() as int) =~= t);
    lemma_read_nat(id as nat);
    crate::roundtrip::lemma_nat_text_chars(id as nat);
    assert(t[0] == idt[0]);
    assert(!is_ws(idt[0])) by {
        assert(crate::numbers::is_digit(idt[0]));
    }
    lemma_trim_id(t);
    lemma_take_word(idt, z);
    let t2 = name + (seq![' '] + q);
    assert(z =~= seq![' '] + t2);
    lemma_trim_after_space(t2);
    lemma_take_word(name, seq![' '] + q);
    lemma_unquote_quoted(seq![' '], c);
}

/// A statement row that starts with `CM_` or `VAL_` and ends at its one
/// unquoted `;` is read whole, over all of its lines.
#[verifier::rlimit(50)]
pub proof fn lemma_step_statement(
    lines: Seq<Seq<char>>,
    i: int,
    st: ParseState,
    row: Seq<char>,
    kw: Seq<char>,
)
    requires
        0 <= i,
        i + row_lines(row).len() <= lines.len(),
        lines.subrange(i, i + row_lines(row).len()) == row_lines(row),
        kw == "CM_"@ || kw == "VAL_"@,
        starts_with(row, kw),
        unquoted_semicolon_spec(row) == Some(row.len() - 1),
    ensures
        row_lines(row).len() >= 1,
        step(lines, i, st) == Step::Next(i + row_lines(row).len(), statement_step(st, row)),
{
    reveal_strlit("CM_");
    reveal_strlit("VAL_");
    reveal_strlit("NS_");
    reveal_strlit("BS_:");
    reveal_strlit("BS_ :");
    reveal_strlit("VERSION ");
    reveal_strlit("BU_:");
    reveal_strlit("BO_ ");
    reveal_strlit("SG_ ");
    lemma_first_line_prefix(row, kw);
    let p = split_on(row, '\n');
    assert(lines[i] == p[0]) by {
        assert(lines.subrange(i, i + p.len())[0] == lines[i]);
    }
    let t = trim(lines[i]);
    assert(t.subrange(0, kw.len() as int) == kw);
    assert(t[0] == kw[0]);
    assert(t[1] == kw[1]);
    assert(row.subrange(0, kw.len() as int) == kw);
    assert(row[0] == kw[0]);
    lemma_differs_at(t, "NS_"@, 0);
    lemma_differs_at(t, "BS_:"@, 0);
    lemma_differs_at(t, "BS_ :"@, 0);
    lemma_differs_at(t, "VERSION "@, 1);
    lemma_differs_at(t, "BU_:"@, 0);
    lemma_differs_at(t, "BO_ "@, 0);
    lemma_differs_at(t, "SG_ "@, 0);
    if kw == "CM_"@ {
        assert(starts_with(t, statement_keywords()[0]));
    } else {
        assert(starts_with(t, statement_keywords()[2]));
    }
    assert(needs_semicolon_spec(t));
    lemma_join_rows(lines, i, row);
    crate::lexer::lemma_semicolon_from(row, 0, false);
    assert(row.last() == ';');
    lemma_trim_id(row);
}

/// A comment row: a statement whose comment is `cm`.
#[verifier::rlimit(50)]
pub proof fn lemma_step_comment_row(
    lines: Seq<Seq<char>>,
    i: int,
    st: ParseState,
    head: Seq<char>,
    c: Seq<char>,
    cm: crate::parser::CommentView,
)
    requires
        0 <= i,
        i + row_lines("CM_ "@ + head + quoted(c) + seq![';']).len() <= lines.len(),
        lines.subrange(i, i + row_lines("CM_ "@ + head + quoted(c) + seq![';']).len()) == row_lines(
            "CM_ "@ + head + quoted(c) + seq![';'],
        ),
        lacks(head, '"'),
        lacks(head, ';'),
        crate::parser::parse_comment_spec(head + quoted(c) + seq![';']) == Some(cm),
    ensures
        row_lines("CM_ "@ + head + quoted(c) + seq![';']).len() >= 1,
        step(lines, i, st) == Step::Next(
            i + row_lines("CM_ "@ + head + quoted(c) + seq![';']).len(),
            ParseState { comments: st.comments.push(cm), ..st },
        ),
{
    reveal_strlit("CM_ ");
    reveal_strlit("CM_");
    reveal_strlit("VAL_TABLE_ ");
    reveal_strlit("VAL_ ");
    let l = "CM_ "@ + head + quoted(c) + seq![';'];
    let h2 = "CM_ "@ + head;
    assert(lacks(h2, '"') && lacks(h2, ';')) by {
        assert forall|k: int| 0 <= k < h2.len() implies h2[k] != '"' && h2[k] != ';' by {
            if k >= 4 {
                assert(h2[k] == head[k - 4]);
            }
        }
    }
    assert(l =~= h2 + quoted(c) + seq![';']);
    lemma_semi_quoted_row(h2, c);
    assert(l.subrange(0, 3) =~= "CM_"@);
    lemma_step_statement(lines, i, st, l, "CM_"@);
    lemma_differs_at(l, "VAL_TABLE_ "@, 0);
    lemma_differs_at(l, "VAL_ "@, 0);
    assert(l.subrange(0, 4) =~= "CM_ "@);
    assert(l.subrange(4, l.len() as int) =~= head + quoted(c) + seq![';']);
}

/// The start of a text's first line, trimmed, starts the text.
pub proof fn lemma_first_line_start(e: Seq<char>)
    requires
        e.len() > 0,
        !is_ws(e[0]),
    ensures
        split_on(e, '\n').len() >= 1,
        0 < trim(split_on(e, '\n')[0]).len() <= e.len(),
        trim(split_on(e, '\n')[0]) == e.take(trim(split_on(e, '\n')[0]).len() as int),
        split_on(e, '\n').len() == 1 ==> split_on(e, '\n')[0] == e,
{
    crate::lines::lemma_split_joined(e);
    let p = split_on(e, '\n');
    crate::lines::lemma_join_prefix(p, 1);
    assert(p.take(1).len() == 1);
    let p0 = p[0];
    assert(crate::writer::join(p.take(1), '\n') == p0);
    assert(e.subrange(0, p0.len() as int) == p0);
    if p0.len() == 0 {
        if p.len() > 1 {
            assert(e[0] == '\n');
        } else {
            assert(p.take(1) =~= p);
        }
    }
    assert(p0[0] == e[0]);
    lemma_trim_start_id(p0);
    lemma_trim_end_keeps(p0, 1);
    crate::readback::lemma_trim_end_len(p0);
    let t = trim(p0);
    assert(t == trim_end(p0));
    assert(t.len() <= p0.len());
    assert(t =~= e.take(t.len() as int)) by {
        assert forall|k: int| 0 <= k < t.len() implies t[k] == e[k] by {
            assert(t[k] == p0.take(t.len() as int)[k]);
            assert(p0[k] == e.subrange(0, p0.len() as int)[k]);
        }
    }
    if p.len() == 1 {
        assert(p.take(1) =~= p);
    }
}

/// A prefix of `e` that starts with `q` shows that `e` starts with `q`.
pub proof fn lemma_prefix_starts(t: Seq<char>, e: Seq<char>, q: Seq<char>)
    requires
        t.len() <= e.len(),
        t == e.take(t.len() as int),
        starts_with(t, q),
    ensures
        starts_with(e, q),
{
    assert(e.subrange(0, q.len() as int) =~= t.subrange(0, q.len() as int));
}

/// The keywords of statements that run up to a `;` are words.
pub proof fn lemma_statement_keywords_plain()
    ensures
        forall|k: int|
            0 <= k < statement_keywords().len() ==> #[trigger] statement_keywords()[k].len() > 0
                && lacks(statement_keywords()[k], '\n') && !is_ws(statement_keywords()[k][0])
                && !is_ws(statement_keywords()[k].last()),
{
    reveal_strlit("CM_");
    reveal_strlit("VAL_TABLE_");
    reveal_strlit("VAL_");
    reveal_strlit("BA_DEF_DEF_REL_");
    reveal_strlit("BA_DEF_DEF_");
    reveal_strlit("BA_DEF_REL_");
    reveal_strlit("BA_DEF_");
    reveal_strlit("BA_REL_");
    reveal_strlit("BA_");
    reveal_strlit("SIG_GROUP_");
    reveal_strlit("SIG_VALTYPE_");
    reveal_strlit("BO_TX_BU_");
    reveal_strlit("EV_DATA_");
    reveal_strlit("ENVVAR_DATA_");
    reveal_strlit("SG_MUL_VAL_");
    reveal_strlit("FILTER");
    reveal_strlit("CAT_");
    reveal_strlit("SGTYPE_");
    assert forall|k: int| 0 <= k < statement_keywords().len() implies #[trigger] statement_keywords()[k].len()
        > 0 && lacks(statement_keywords()[k], '\n') && !is_ws(statement_keywords()[k][0]) && !is_ws(
        statement_keywords()[k].last(),
    ) by {
        let w = statement_keywords()[k];
        assert(forall|i: int| 0 <= i < w.len() ==> 'A' <= #[trigger] w[i] <= 'Z' || w[i] == '_');
    }
}

/// A kept statement without its `;` at the end of the text is read to the
/// end.
#[verifier::rlimit(80)]
pub proof fn lemma_step_kept_open(lines: Seq<Seq<char>>, i: int, st: ParseState, e: Seq<char>)
    requires
        0 <= i,
        i + row_lines(e).len() + 1 == lines.len(),
        lines.subrange(i, i + row_lines(e).len()) == row_lines(e),
        lines[i + row_lines(e).len()] == Seq::<char>::empty(),
        crate::roundtrip::wf_kept_line(e, true),
        needs_semicolon_spec(e),
        unquoted_semicolon_spec(e) is None,
    ensures
        row_lines(e).len() >= 1,
        step(lines, i, st) == Step::Next(
            i + row_lines(e).len() + 1,
            ParseState { dbc: DbcView { extra: st.dbc.extra.push(e), ..st.dbc }, ..st },
        ),
{
    let r = crate::roundtrip::reserved_prefixes();
    let p = split_on(e, '\n');
    lemma_first_line_start(e);
    assert(lines[i] == p[0]) by {
        assert(lines.subrange(i, i + p.len())[0] == lines[i]);
    }
    let t = trim(p[0]);
    assert forall|k: int| 0 <= k < r.len() implies !starts_with(t, #[trigger] r[k]) by {
        if starts_with(t, r[k]) {
            lemma_prefix_starts(t, e, r[k]);
        }
    }
    assert(!starts_with(t, r[0]));
    assert(!starts_with(t, r[1]));
    assert(!starts_with(t, r[2]));
    assert(!starts_with(t, r[3]));
    assert(!starts_with(t, r[4]));
    assert(!starts_with(t, r[5]));
    assert(!starts_with(t, r[6]));
    let k = choose|k: int| 0 <= k < statement_keywords().len() && starts_with(e, #[trigger] statement_keywords()[k]);
    lemma_statement_keywords_plain();
    lemma_first_line_prefix(e, statement_keywords()[k]);
    assert(needs_semicolon_spec(t));
    lemma_join_open(lines, i, e);
    let en = e + seq!['\n'];
    assert(en[0] == e[0]);
    lemma_trim_start_id(en);
    assert(en.drop_last() =~= e);
    lemma_trim_end_id(e);
    assert(trim_end(en) == trim_end(e));
    assert(trim(en) == e);
}

#[verifier::rlimit(80)]
pub proof fn lemma_step_kept(lines: Seq<Seq<char>>, i: int, st: ParseState, e: Seq<char>)
    requires
        0 <= i,
        i + row_lines(e).len() <= lines.len(),
        lines.subrange(i, i + row_lines(e).len()) == row_lines(e),
        crate::roundtrip::wf_kept_line(e, false),
    ensures
        row_lines(e).len() >= 1,
        step(lines, i, st) == Step::Next(
            i + row_lines(e).len(),
            ParseState { dbc: DbcView { extra: st.dbc.extra.push(e), ..st.dbc }, ..st },
        ),
{
    let r = crate::roundtrip::reserved_prefixes();
    let p = split_on(e, '\n');
    lemma_first_line_start(e);
    assert(lines[i] == p[0]) by {
        assert(lines.subrange(i, i + p.len())[0] == lines[i]);
    }
    let t = trim(p[0]);
    assert forall|k: int| 0 <= k < r.len() implies !starts_with(t, #[trigger] r[k]) by {
        if starts_with(t, r[k]) {
            lemma_prefix_starts(t, e, r[k]);
        }
    }
    assert(!starts_with(t, r[0]));
    assert(!starts_with(t, r[1]));
    assert(!starts_with(t, r[2]));
    assert(!starts_with(t, r[3]));
    assert(!starts_with(t, r[4]));
    assert(!starts_with(t, r[5]));
    assert(!starts_with(t, r[6]));
    lemma_trim_id(e);
    if needs_semicolon_spec(t) {
        let k = choose|k: int| 0 <= k < statement_keywords().len() && starts_with(t, #[trigger] statement_keywords()[k]);
        lemma_prefix_starts(t, e, statement_keywords()[k]);
        assert(needs_semicolon_spec(e));
        lemma_join_rows(lines, i, e);
    } else {
        if p.len() > 1 {
            assert(needs_semicolon_spec(e));
            let k = choose|k: int| 0 <= k < statement_keywords().len() && starts_with(e, #[trigger] statement_keywords()[k]);
            lemma_statement_keywords_plain();
            lemma_first_line_prefix(e, statement_keywords()[k]);
            assert(needs_semicolon_spec(t));
        }
        assert(p.len() == 1);
    }
}

#[verifier::rlimit(50)]
pub proof fn lemma_read_values(id: u32, s: SignalView)
    requires
        is_name(s.name),
        s.value_descriptions.len() > 0,
    ensures
        crate::parser::parse_val_spec(
            crate::numbers::nat_text(id as nat) + seq![' '] + s.name + pairs_text(
                s.value_descriptions,
            ) + " ;"@,
        ) == Some(
            crate::parser::ValDefView {
                message_id: id,
                signal: s.name,
                values: s.value_descriptions,
            },
        ),
{
    let idt = crate::numbers::nat_text(id as nat);
    let pt = pairs_text(s.value_descriptions);
    let x = idt + seq![' '] + s.name + pt;
    lemma_read_nat(id as nat);
    crate::roundtrip::lemma_nat_text_chars(id as nat);
    lemma_pairs_text_end(s.value_descriptions);
    assert(x[0] == idt[0]);
    assert(!is_ws(idt[0])) by {
        assert(crate::numbers::is_digit(idt[0]));
    }
    assert(x.last() == pt.last());
    lemma_statement_body(x);
    assert(x =~= idt + (seq![' '] + s.name + pt));
    lemma_find_split(idt, seq![' '] + s.name + pt, Sep::Space);
    crate::text::lemma_find(x, Sep::Space);
    assert forall|j: int| 0 <= j < idt.len() implies !is_sep(Sep::Space, #[trigger] x[j]) by {
        assert(x[j] == idt[j]);
    }
    lemma_word_len_at(x, Sep::Space, idt.len() as int);
    assert(x.subrange(0, idt.len() as int) =~= idt);
    let r2 = x.subrange(idt.len() as int + 1, x.len() as int);
    assert(r2 =~= s.name + pt);
    lemma_no_ws_no_space(s.name);
    assert forall|j: int| 0 <= j < s.name.len() implies !is_sep(Sep::Space, #[trigger] r2[j]) by {
        assert(r2[j] == s.name[j]);
    }
    assert(r2[s.name.len() as int] == pt[0]);
    lemma_word_len_at(r2, Sep::Space, s.name.len() as int);
    assert(r2.subrange(0, s.name.len() as int) =~= s.name);
    let rest = r2.subrange(s.name.len() as int + 1, r2.len() as int);
    assert(rest =~= pt.drop_first());
    assert(trim_start(pt) == trim_start(pt.drop_first()));
    lemma_pairs_readback(s.value_descriptions);
}

#[verifier::rlimit(50)]
pub proof fn lemma_step_values(lines: Seq<Seq<char>>, i: int, st: ParseState, id: u32, s: SignalView)
    requires
        0 <= i,
        i + row_lines(crate::document::values_line(id, s)).len() <= lines.len(),
        lines.subrange(i, i + row_lines(crate::document::values_line(id, s)).len()) == row_lines(
            crate::document::values_line(id, s),
        ),
        is_name(s.name),
        lacks(s.name, '"'),
        lacks(s.name, ';'),
        s.value_descriptions.len() > 0,
    ensures
        row_lines(crate::document::values_line(id, s)).len() >= 1,
        step(lines, i, st) == Step::Next(
            i + row_lines(crate::document::values_line(id, s)).len(),
            ParseState {
                values: st.values.push(
                    crate::parser::ValDefView {
                        message_id: id,
                        signal: s.name,
                        values: s.value_descriptions,
                    },
                ),
                ..st
            },
        ),
{
    reveal_strlit("VAL_ ");
    reveal_strlit("VAL_");
    reveal_strlit(" ;");
    reveal_strlit("VAL_TABLE_ ");
    let l = crate::document::values_line(id, s);
    let idt = crate::numbers::nat_text(id as nat);
    crate::roundtrip::lemma_nat_text_chars(id as nat);
    let head = "VAL_ "@ + idt + seq![' '] + s.name;
    assert forall|k: int| 0 <= k < head.len() implies head[k] != '"' && head[k] != ';' by {
        if 5 <= k < 5 + idt.len() {
            assert(head[k] == idt[k - 5]);
            assert(crate::numbers::is_digit(idt[k - 5]));
        } else if k >= 6 + idt.len() {
            assert(head[k] == s.name[k - 6 - idt.len()]);
        }
    }
    lemma_semi_pairs_row(head, s.value_descriptions);
    assert(l == head + pairs_text(s.value_descriptions) + " ;"@);
    assert(l.subrange(0, 4) =~= "VAL_"@);
    lemma_step_statement(lines, i, st, l, "VAL_"@);
    assert(l[4] == ' ');
    lemma_differs_at(l, "VAL_TABLE_ "@, 4);
    assert(l.subrange(0, 5) =~= "VAL_ "@);
    assert(l.subrange(5, l.len() as int) =~= idt + seq![' '] + s.name + pairs_text(
        s.value_descriptions,
    ) + " ;"@);
    lemma_read_values(id, s);
}

// ---------------------------------------------------------------------------
// Statements over several lines.
/// A `;` found in a prefix is found at the same place in the whole text.
pub proof fn lemma_semicolon_prefix(s: Seq<char>, n: int, i: int, q: bool)
    requires
        0 <= n <= s.len(),
    ensures
        semicolon_from(s.take(n), i, q) matches Some(p) ==> semicolon_from(s, i, q) == Some(p),
    decreases n - i,
{
    let t = s.take(n);
    if 0 <= i < n {
        assert(t[i] == s[i]);
        if t[i] == '\\' && q {
            if i + 2 < n {
                lemma_semicolon_prefix(s, n, i + 2, q);
            }
        } else if t[i] == '"' {
            lemma_semicolon_prefix(s, n, i + 1, !q);
        } else if !(t[i] == ';' && !q) {
            lemma_semicolon_prefix(s, n, i + 1, q);
        }
    }
}

/// Joining lines from `i + j` on, with the first `j` lines of `r` joined so
/// far, gives `r` back over all its lines.
proof fn lemma_join_from_pieces(lines: Seq<Seq<char>>, i: int, r: Seq<char>, j: int)
    requires
        0 <= i,
        r.len() > 0,
        r[0] != '\n',
        i + split_on(r, '\n').len() <= lines.len(),
        lines.subrange(i, i + split_on(r, '\n').len()) == split_on(r, '\n'),
        unquoted_semicolon_spec(r) == Some(r.len() - 1),
        0 <= j < split_on(r, '\n').len(),
    ensures
        join_from(
            lines,
            i + j,
            if j == 0 {
                Seq::<char>::empty()
            } else {
                crate::writer::join(split_on(r, '\n').take(j), '\n')
            },
            j as nat,
        ) == (r, split_on(r, '\n').len()),
    decreases split_on(r, '\n').len() - j,
{
    let p = split_on(r, '\n');
    let k = p.len() as int;
    crate::lines::lemma_split_joined(r);
    let out = if j == 0 {
        Seq::<char>::empty()
    } else {
        crate::writer::join(p.take(j), '\n')
    };
    assert(lines[i + j] == lines.subrange(i, i + k)[j]);
    let jn = crate::writer::join(p.take(j + 1), '\n');
    if j == 0 {
        assert(p.take(1).len() == 1);
        assert(jn == p[0]);
        assert(Seq::<char>::empty() + p[0] =~= p[0]);
    } else {
        assert(p.take(j + 1).drop_last() =~= p.take(j));
        assert(p.take(j + 1).last() == p[j]);
        crate::lines::lemma_join_prefix(p, j);
        assert(out.len() > 0) by {
            crate::lines::lemma_join_prefix(p, 1);
            assert(p.take(1).len() == 1);
            if out.len() == 0 {
                let j1 = crate::writer::join(p.take(1), '\n');
                crate::lines::lemma_join_prefix(p, 1);
                assert(j1 == p[0]);
                if j1.len() == 0 {
                    assert(r[j1.len() as int] == '\n');
                }
            }
        }
        assert(jn == out.push('\n') + p[j]);
    }
    crate::lines::lemma_join_prefix(p, j + 1);
    let out2 = (if out.len() > 0 {
        out.push('\n')
    } else {
        out
    }) + lines[i + j];
    assert(out2 =~= jn);
    assert(join_from(lines, i + j, out, j as nat) == match unquoted_semicolon_spec(out2) {
        Some(q) => (out2.subrange(0, q + 1), j as nat + 1),
        None => join_from(lines, i + j + 1, out2, j as nat + 1),
    });
    if j + 1 < k {
        lemma_semicolon_prefix(r, jn.len() as int, 0, false);
        assert(r.take(jn.len() as int) =~= jn);
        crate::lexer::lemma_semicolon_from(jn, 0, false);
        assert(unquoted_semicolon_spec(jn) is None);
        lemma_join_from_pieces(lines, i, r, j + 1);
        assert(i + j + 1 == i + (j + 1));
        assert(j as nat + 1 == (j + 1) as nat);
    } else {
        assert(p.take(j + 1) =~= p);
        assert(jn == r);
        assert(r.subrange(0, r.len() as int) =~= r);
    }
}

/// Joining lines from `i + j` on, where `r` has no unquoted `;` and only an
/// empty last line follows it, gives `r` and a line break over all of them.
proof fn lemma_join_open_pieces(lines: Seq<Seq<char>>, i: int, r: Seq<char>, j: int)
    requires
        0 <= i,
        r.len() > 0,
        r[0] != '\n',
        i + split_on(r, '\n').len() + 1 == lines.len(),
        lines.subrange(i, i + split_on(r, '\n').len()) == split_on(r, '\n'),
        lines[i + split_on(r, '\n').len()] == Seq::<char>::empty(),
        unquoted_semicolon_spec(r) is None,
        0 <= j < split_on(r, '\n').len(),
    ensures
        join_from(
            lines,
            i + j,
            if j == 0 {
                Seq::<char>::empty()
            } else {
                crate::writer::join(split_on(r, '\n').take(j), '\n')
            },
            j as nat,
        ) == (r + seq!['\n'], (split_on(r, '\n').len() + 1) as nat),
    decreases split_on(r, '\n').len() - j,
{
    let p = split_on(r, '\n');
    let k = p.len() as int;
    crate::lines::lemma_split_joined(r);
    let out = if j == 0 {
        Seq::<char>::empty()
    } else {
        crate::writer::join(p.take(j), '\n')
    };
    assert(lines[i + j] == lines.subrange(i, i + k)[j]);
    let jn = crate::writer::join(p.take(j + 1), '\n');
    if j == 0 {
        assert(p.take(1).len() == 1);
        assert(jn == p[0]);
        assert(Seq::<char>::empty() + p[0] =~= p[0]);
    } else {
        assert(p.take(j + 1).drop_last() =~= p.take(j));
        assert(p.take(j + 1).last() == p[j]);
        crate::lines::lemma_join_prefix(p, j);
        assert(out.len() > 0) by {
            crate::lines::lemma_join_prefix(p, 1);
            assert(p.take(1).len() == 1);
            if out.len() == 0 {
                let j1 = crate::writer::join(p.take(1), '\n');
                crate::lines::lemma_join_prefix(p, 1);
                assert(j1 == p[0]);
                if j1.len() == 0 {
                    assert(r[j1.len() as int] == '\n');
                }
            }
        }
        assert(jn == out.push('\n') + p[j]);
    }
    crate::lines::lemma_join_prefix(p, j + 1);
    let out2 = (if out.len() > 0 {
        out.push('\n')
    } else {
        out
    }) + lines[i + j];
    assert(out2 =~= jn);
    assert(join_from(lines, i + j, out, j as nat) == match unquoted_semicolon_spec(out2) {
        Some(q) => (out2.subrange(0, q + 1), j as nat + 1),
        None => join_from(lines, i + j + 1, out2, j as nat + 1),
    });
    if j + 1 < k {
        lemma_semicolon_prefix(r, jn.len() as int, 0, false);
        assert(r.take(jn.len() as int) =~= jn);
        crate::lexer::lemma_semicolon_from(jn, 0, false);
        assert(unquoted_semicolon_spec(jn) is None);
        lemma_join_open_pieces(lines, i, r, j + 1);
        assert(i + j + 1 == i + (j + 1));
        assert(j as nat + 1 == (j + 1) as nat);
    } else {
        assert(p.take(j + 1) =~= p);
        assert(jn == r);
        lemma_semicolon_newline(r, 0, false);
        let out3 = r.push('\n') + lines[i + k];
        assert(out3 =~= r + seq!['\n']);
        assert(join_from(lines, i + k, r, k as nat) == join_from(lines, i + k + 1, out3, (k + 1) as nat));
        assert(i + j + 1 == i + k);
        assert(j as nat + 1 == k as nat);
    }
}

/// A text without an unquoted `;` gains none from a line break at its end.
pub proof fn lemma_semicolon_newline(s: Seq<char>, i: int, q: bool)
    requires
        0 <= i,
        semicolon_from(s, i, q) is None,
    ensures
        semicolon_from(s + seq!['\n'], i, q) is None,
    decreases s.len() + 1 - i,
{
    let t = s + seq!['\n'];
    if i < s.len() {
        assert(t[i] == s[i]);
        if s[i] == '\\' && q {
            if i + 2 >= s.len() {
                if i + 2 < t.len() {
                    assert(t[i + 2] == '\n');
                    assert(semicolon_from(t, i + 3, q) is None);
                    assert(semicolon_from(t, i + 2, q) == semicolon_from(t, i + 3, q));
                    assert(semicolon_from(t, i, q) == semicolon_from(t, i + 2, q));
                }
            } else {
                lemma_semicolon_newline(s, i + 2, q);
            }
        } else if s[i] == '"' {
            lemma_semicolon_newline(s, i + 1, !q);
        } else {
            lemma_semicolon_newline(s, i + 1, q);
        }
    } else if i == s.len() {
        assert(t[i] == '\n');
        assert(semicolon_from(t, i + 1, q) is None);
        assert(semicolon_from(t, i, q) == semicolon_from(t, i + 1, q));
    }
}

/// A statement with no unquoted `;`, written over the lines of `r` and
/// followed only by an empty last line, is read to the end of the text.
pub proof fn lemma_join_open(lines: Seq<Seq<char>>, i: int, r: Seq<char>)
    requires
        0 <= i,
        r.len() > 0,
        r[0] != '\n',
        i + split_on(r, '\n').len() + 1 == lines.len(),
        lines.subrange(i, i + split_on(r, '\n').len()) == split_on(r, '\n'),
        lines[i + split_on(r, '\n').len()] == Seq::<char>::empty(),
        unquoted_semicolon_spec(r) is None,
    ensures
        join_statement_spec(lines, i) == (r + seq!['\n'], (split_on(r, '\n').len() + 1) as nat),
{
    crate::lines::lemma_split_joined(r);
    lemma_join_open_pieces(lines, i, r, 0);
}

/// A statement written over the lines of `r` is read back whole.
pub proof fn lemma_join_rows(lines: Seq<Seq<char>>, i: int, r: Seq<char>)
    requires
        0 <= i,
        r.len() > 0,
        r[0] != '\n',
        i + split_on(r, '\n').len() <= lines.len(),
        lines.subrange(i, i + split_on(r, '\n').len()) == split_on(r, '\n'),
        unquoted_semicolon_spec(r) == Some(r.len() - 1),
    ensures
        join_statement_spec(lines, i) == (r, split_on(r, '\n').len()),
{
    crate::lines::lemma_split_joined(r);
    lemma_join_from_pieces(lines, i, r, 0);
}

/// `trim_end` keeps a text up to its last non-whitespace character.
pub proof fn lemma_trim_end_keeps(x: Seq<char>, n: int)
    requires
        0 < n <= x.len(),
        !is_ws(x[n - 1]),
    ensures
        n <= trim_end(x).len(),
        trim_end(x) == x.take(trim_end(x).len() as int),
    decreases x.len(),
{
    if is_ws(x.last()) {
        assert(n < x.len());
        assert(x.drop_last()[n - 1] == x[n - 1]);
        assert(trim_end(x) == trim_end(x.drop_last()));
        lemma_trim_end_keeps(x.drop_last(), n);
        crate::readback::lemma_trim_end_len(x.drop_last());
        assert(x.drop_last().take(trim_end(x).len() as int) =~= x.take(trim_end(x).len() as int));
    } else {
        assert(x.take(x.len() as int) =~= x);
    }
}

/// The first line of a text that starts with `a` (a word with no line break,
/// trimmed at both ends) starts with `a` once trimmed.
pub proof fn lemma_first_line_prefix(r: Seq<char>, a: Seq<char>)
    requires
        a.len() > 0,
        starts_with(r, a),
        lacks(a, '\n'),
        !is_ws(a[0]),
        !is_ws(a.last()),
    ensures
        starts_with(trim(split_on(r, '\n')[0]), a),
        split_on(r, '\n').len() >= 1,
{
    crate::lines::lemma_split_joined(r);
    let p = split_on(r, '\n');
    crate::lines::lemma_join_prefix(p, 1);
    assert(p.take(1).len() == 1);
    let p0 = p[0];
    assert(crate::writer::join(p.take(1), '\n') == p0);
    assert(r.subrange(0, p0.len() as int) == p0);
    if p0.len() < a.len() {
        if p.len() > 1 {
            assert(r[p0.len() as int] == '\n');
            assert(r.subrange(0, a.len() as int)[p0.len() as int] == a[p0.len() as int]);
        } else {
            assert(p.take(1) =~= p);
        }
    }
    assert(p0.len() >= a.len());
    assert forall|k: int| 0 <= k < a.len() implies p0[k] == a[k] by {
        assert(p0[k] == r[k]);
        assert(r.subrange(0, a.len() as int)[k] == a[k]);
    }
    assert(p0[0] == a[0]);
    lemma_trim_start_id(p0);
    lemma_trim_end_keeps(p0, a.len() as int);
    crate::readback::lemma_trim_end_len(p0);
    let t = trim(p0);
    assert(t == trim_end(p0));
    assert forall|k: int| 0 <= k < a.len() implies t[k] == a[k] by {
        assert(t[k] == p0.take(t.len() as int)[k]);
    }
    assert(t.subrange(0, a.len() as int) =~= a);
}

} // verus!
