//! The new-symbol list reads back from a written database unless a later
//! line of the text opens another `NS_` block.
use vstd::prelude::*;
use crate::document::{lemma_header_front, lemma_lined_append, lemma_lined_map, lemma_lined_single, lined, symbol_row, version_line};
use crate::lines::{lacks, nl, plain_line};
use crate::model::DbcView;
use crate::parser::{
    apply_comment, apply_values, attach_comments_spec, attach_values_spec, finish, initial_state,
    input_lines, parse_from, parse_spec, step, CommentView, ParseOutcome, ParseState, Step,
    ValDefView,
};
use crate::roundtrip::{lemma_symbols_wf, one_line, wf_symbol};
use crate::text::{split_acc, split_on, starts_with, trim, trim_end_char};
use crate::writer::{cat_map, dbc_text, symbol_line, written_symbols};

verus! {

/// No line of `lines` from `i` on starts, once trimmed, with `NS_`.
pub open spec fn no_symbol_block_from(lines: Seq<Seq<char>>, i: int) -> bool {
    forall|k: int| i <= k < lines.len() ==> !starts_with(trim(#[trigger] lines[k]), "NS_"@)
}

/// A step on a line that does not open an `NS_` block keeps the symbols.
pub proof fn lemma_step_keeps_symbols(lines: Seq<Seq<char>>, i: int, st: ParseState)
    requires
        0 <= i < lines.len(),
        !starts_with(trim(lines[i]), "NS_"@),
    ensures
        step(lines, i, st) matches Step::Next(j, st2) ==> st2.dbc.new_symbols
            == st.dbc.new_symbols,
{
}

proof fn lemma_comments_keep_symbols(d: DbcView, cs: Seq<CommentView>)
    ensures
        attach_comments_spec(d, cs).new_symbols == d.new_symbols,
    decreases cs.len(),
{
    if cs.len() > 0 {
        lemma_comments_keep_symbols(d, cs.drop_last());
    }
}

proof fn lemma_values_keep_symbols(d: DbcView, vs: Seq<ValDefView>)
    ensures
        attach_values_spec(d, vs).new_symbols == d.new_symbols,
    decreases vs.len(),
{
    if vs.len() > 0 {
        lemma_values_keep_symbols(d, vs.drop_last());
    }
}

/// Attaching comments and value descriptions keeps the symbols.
pub proof fn lemma_finish_keeps_symbols(st: ParseState)
    ensures
        finish(st).new_symbols == st.dbc.new_symbols,
{
    lemma_comments_keep_symbols(st.dbc, st.comments);
    lemma_values_keep_symbols(attach_comments_spec(st.dbc, st.comments), st.values);
}

/// A parse that meets no further `NS_` line ends with the symbols it has.
pub proof fn lemma_parse_keeps_symbols(lines: Seq<Seq<char>>, i: int, st: ParseState)
    requires
        0 <= i,
        no_symbol_block_from(lines, i),
    ensures
        parse_from(lines, i, st) matches ParseOutcome::Parsed(d2) ==> d2.new_symbols
            == st.dbc.new_symbols,
    decreases lines.len() - i,
{
    if i >= lines.len() {
        lemma_finish_keeps_symbols(st);
    } else {
        lemma_step_keeps_symbols(lines, i, st);
        match step(lines, i, st) {
            Step::Next(j, st2) => {
                if i < j <= lines.len() {
                    lemma_parse_keeps_symbols(lines, j, st2);
                } else {
                    lemma_finish_keeps_symbols(st2);
                }
            },
            _ => {},
        }
    }
}

/// Splitting lines, each with its break, followed by `rest`.
proof fn lemma_split_lines_then(p: Seq<Seq<char>>, rest: Seq<char>)
    requires
        forall|k: int| 0 <= k < p.len() ==> lacks(#[trigger] p[k], '\n'),
    ensures
        split_on(lined(p) + rest, '\n') == p + split_on(rest, '\n'),
    decreases p.len(),
{
    if p.len() == 0 {
        assert(lined(p) + rest =~= rest);
        assert(p + split_on(rest, '\n') =~= split_on(rest, '\n'));
    } else {
        let q = p.drop_first();
        assert forall|k: int| 0 <= k < q.len() implies lacks(#[trigger] q[k], '\n') by {
            assert(q[k] == p[k + 1]);
        }
        lemma_split_lines_then(q, rest);
        crate::lines::lemma_cat_map_front(p, |l: Seq<char>| nl(l));
        assert(lined(p) + rest =~= p[0] + seq!['\n'] + (lined(q) + rest));
        crate::lines::lemma_split_acc_line(p[0], lined(q) + rest, '\n', Seq::empty());
        assert(Seq::<char>::empty() + p[0] =~= p[0]);
        assert(p + split_on(rest, '\n') =~= seq![p[0]] + (q + split_on(rest, '\n')));
    }
}

/// The first lines of a written database: its version line, a blank line,
/// `NS_ :`, one row per symbol and a blank line.
pub open spec fn symbol_header(d: DbcView) -> Seq<Seq<char>> {
    seq![version_line(d), Seq::<char>::empty(), "NS_ :"@] + written_symbols(d).map_values(
        |s: Seq<char>| symbol_row(s),
    ) + seq![Seq::<char>::empty()]
}

proof fn lemma_symbol_header_lines(d: DbcView)
    requires
        one_line(d.version),
        forall|k: int| 0 <= k < d.new_symbols.len() ==> wf_symbol(#[trigger] d.new_symbols[k]),
    ensures
        exists|rest: Seq<char>| dbc_text(d) == lined(symbol_header(d)) + rest,
        forall|k: int| 0 <= k < symbol_header(d).len() ==> plain_line(#[trigger] symbol_header(d)[k]),
{
    reveal_strlit("\n");
    reveal_strlit("NS_ :");
    reveal_strlit("VERSION ");
    let e = Seq::<char>::empty();
    let a = seq![version_line(d), e, "NS_ :"@];
    let b = written_symbols(d).map_values(|s: Seq<char>| symbol_row(s));
    let z = seq![e];
    lemma_lined_append(a + b, z);
    lemma_lined_append(a, b);
    lemma_header_front(d);
    lemma_lined_single(e);
    lemma_lined_map(written_symbols(d), |s: Seq<char>| symbol_row(s), |s: Seq<char>| symbol_line(s));
    let h = lined(symbol_header(d));
    let t = dbc_text(d);
    assert(t =~= h + t.subrange(h.len() as int, t.len() as int));
    lemma_symbols_wf(d);
    crate::roundtrip::lemma_quoted_one_line(d.version);
    crate::roundtrip::lemma_lacks_add("VERSION "@, crate::writer::quoted(d.version), '\n');
    assert forall|k: int| 0 <= k < symbol_header(d).len() implies plain_line(
        #[trigger] symbol_header(d)[k],
    ) by {
        let sh = symbol_header(d);
        if 3 <= k < 3 + b.len() {
            let x = written_symbols(d)[k - 3];
            assert(wf_symbol(x));
            crate::roundtrip::lemma_lacks_add(seq!['\t'], x, '\n');
            assert(sh[k] == symbol_row(x));
        }
    }
}

/// Writing a database and reading the text back gives the symbol list that
/// was written (the default list when the database has none), provided the
/// version is one line, each symbol is a word that stays on its line, and no
/// later line of the text opens another `NS_` block.
#[verifier::rlimit(100)]
pub proof fn lemma_written_symbols_read_back(d: DbcView)
    requires
        one_line(d.version),
        forall|k: int| 0 <= k < d.new_symbols.len() ==> wf_symbol(#[trigger] d.new_symbols[k]),
        no_symbol_block_from(
            input_lines(dbc_text(d)),
            symbol_header(d).len() as int,
        ),
    ensures
        parse_spec(dbc_text(d)) matches ParseOutcome::Parsed(d2) ==> d2.new_symbols
            == written_symbols(d),
{
    lemma_symbol_header_lines(d);
    let p = symbol_header(d);
    let rest = choose|rest: Seq<char>| dbc_text(d) == lined(symbol_header(d)) + rest;
    assert forall|k: int| 0 <= k < p.len() implies lacks(#[trigger] p[k], '\n') by {
        assert(plain_line(p[k]));
    }
    lemma_split_lines_then(p, rest);
    let lines = input_lines(dbc_text(d));
    let pieces = split_on(dbc_text(d), '\n');
    crate::lines::lemma_split_acc_len(rest, '\n', Seq::empty());
    assert(lines.len() == pieces.len());
    assert forall|k: int| 0 <= k < p.len() implies lines[k] == #[trigger] p[k] by {
        assert(pieces[k] == p[k]);
        assert(plain_line(p[k]));
    }
    let syms = written_symbols(d);
    let sn = syms.len() as int;
    lemma_symbols_wf(d);
    assert(p.len() == 4 + sn);
    let s0 = initial_state();
    assert(lines[0] == p[0]);
    crate::reread::lemma_step_version(lines, 0, s0, d);
    let s1 = ParseState { dbc: DbcView { version: d.version, ..s0.dbc }, ..s0 };
    crate::reread::lemma_parse_next(lines, 0, s0, 1, s1);
    assert(lines[1] == p[1]);
    crate::reread::lemma_step_empty(lines, 1, s1);
    crate::reread::lemma_parse_next(lines, 1, s1, 2, s1);
    assert(lines[2] == p[2]);
    assert forall|k: int| 0 <= k < sn implies lines[2 + 1 + k] == symbol_row(#[trigger] syms[k]) by {
        assert(lines[3 + k] == p[3 + k]);
    }
    assert(lines[3 + sn] == p[3 + sn]);
    crate::reread::lemma_step_ns(lines, 2, s1, syms);
    let s2 = ParseState { dbc: DbcView { new_symbols: s1.dbc.new_symbols + syms, ..s1.dbc }, ..s1 };
    crate::reread::lemma_parse_next(lines, 2, s1, 3 + sn, s2);
    crate::reread::lemma_step_empty(lines, 3 + sn, s2);
    crate::reread::lemma_parse_next(lines, 3 + sn, s2, 4 + sn, s2);
    lemma_parse_keeps_symbols(lines, 4 + sn, s2);
    assert(s1.dbc.new_symbols + syms =~= syms);
}

} // verus!
