//! Writing a database and parsing the text back gives the database again.
use vstd::prelude::*;
use crate::decimal::{canonical, magnitude_text, number_text, digit_chars, zeros, NumberView};
use crate::document::{
    row_lines, document_rows, flat_map, header_rows, lemma_document_lined, lined, message_rows, nodes_line,
    signal_line, symbol_row, table_line, version_line,
};
use crate::lexer::{needs_semicolon_spec, unquoted_semicolon_spec};
use crate::lines::{
    crlf_free, lacks, lemma_crlf_free_add, lemma_input_lines, lemma_lacks_crlf_free,
    lemma_split_plain, nl, no_crlf, plain_line,
};
use crate::model::{DbcView, MessageView, NodeView, SignalView, ValueTableView};
use crate::numbers::{digit_char, is_digit, lemma_nat_text_digits, nat_text};
use crate::parser::input_lines;
use crate::readback::{lemma_escaped_front, lemma_pairs_front, lemma_int_text_plain, no_ws};
use crate::text::{is_ws, starts_with};
use crate::writer::{cat_map, dbc_text, escape_char, escaped, pair_text, pairs_text, quoted, written_symbols, default_symbols};

verus! {

// ---------------------------------------------------------------------------
// What the writer can write so that it reads back.
/// A name as it stands in a line: not empty, no whitespace.
pub open spec fn is_name(s: Seq<char>) -> bool {
    s.len() > 0 && no_ws(s)
}

/// A name that may also stand in a `;`-terminated statement.
pub open spec fn is_statement_name(s: Seq<char>) -> bool {
    is_name(s) && lacks(s, '"') && lacks(s, ';')
}

pub open spec fn one_line(s: Seq<char>) -> bool {
    lacks(s, '\n')
}

/// A comment that reads back: it may span lines, but no carriage return
/// stands right before one of its line breaks.
pub open spec fn opt_crlf_free(o: Option<Seq<char>>) -> bool {
    match o {
        Some(c) => crlf_free(c),
        None => true,
    }
}

/// Labels that read back, as comments do.
pub open spec fn labels_crlf_free(ps: Seq<(i64, Seq<char>)>) -> bool {
    forall|i: int| 0 <= i < ps.len() ==> crlf_free(#[trigger] ps[i].1)
}

/// A signal that is written as its own statements (a comment or value
/// descriptions) besides its line.
pub open spec fn signal_has_statements(s: SignalView) -> bool {
    s.comment is Some || s.value_descriptions.len() > 0
}

pub open spec fn wf_signal(s: SignalView) -> bool {
    &&& is_name(s.name)
    &&& lacks(s.name, ':')
    &&& signal_has_statements(s) ==> lacks(s.name, '"') && lacks(s.name, ';')
    &&& canonical(s.factor)
    &&& canonical(s.offset)
    &&& canonical(s.min)
    &&& canonical(s.max)
    &&& one_line(s.unit)
    &&& s.receivers.len() > 0
    &&& forall|k: int|
        0 <= k < s.receivers.len() ==> is_name(#[trigger] s.receivers[k]) && lacks(
            s.receivers[k],
            ',',
        )
    &&& opt_crlf_free(s.comment)
    &&& labels_crlf_free(s.value_descriptions)
}

pub open spec fn message_has_statements(m: MessageView) -> bool {
    m.comment is Some || exists|k: int|
        0 <= k < m.signals.len() && signal_has_statements(#[trigger] m.signals[k])
}

pub open spec fn wf_message(m: MessageView) -> bool {
    &&& no_ws(m.name)
    &&& !(m.name.len() > 0 && m.name.last() == ':')
    &&& is_name(m.transmitter)
    &&& opt_crlf_free(m.comment)
    &&& forall|k: int| 0 <= k < m.signals.len() ==> wf_signal(#[trigger] m.signals[k])
    &&& forall|k: int, l: int|
        #![trigger m.signals[k], m.signals[l]]
        0 <= l < k < m.signals.len() && signal_has_statements(m.signals[k]) ==> m.signals[l].name
            != m.signals[k].name
}

pub open spec fn wf_node(n: NodeView) -> bool {
    &&& is_name(n.name)
    &&& n.comment is Some ==> lacks(n.name, '"') && lacks(n.name, ';')
    &&& opt_crlf_free(n.comment)
}

pub open spec fn wf_table(t: ValueTableView) -> bool {
    is_statement_name(t.name) && labels_crlf_free(t.values)
}

pub open spec fn wf_symbol(s: Seq<char>) -> bool {
    s.len() > 0 && !is_ws(s[0]) && !is_ws(s.last()) && one_line(s)
}

/// The keywords of the lines the parser always reads as something other than
/// a kept line.
pub open spec fn reserved_prefixes() -> Seq<Seq<char>> {
    seq!["NS_"@, "BS_:"@, "BS_ :"@, "VERSION "@, "BU_:"@, "BO_ "@, "SG_ "@]
}

/// A statement kept verbatim that reads back as itself. It may span lines
/// when it is one of those that run up to a `;`; when `open` (nothing but the
/// end of the text follows it), such a statement may also lack its `;`.
pub open spec fn wf_kept_line(e: Seq<char>, open: bool) -> bool {
    &&& e.len() > 0
    &&& !is_ws(e[0])
    &&& !is_ws(e.last())
    &&& no_crlf(e)
    &&& row_lines(e).len() > 1 ==> needs_semicolon_spec(e)
    &&& forall|k: int|
        0 <= k < reserved_prefixes().len() ==> !starts_with(e, #[trigger] reserved_prefixes()[k])
    &&& needs_semicolon_spec(e) ==> unquoted_semicolon_spec(e) == Some(e.len() - 1) || (open
        && unquoted_semicolon_spec(e) is None)
    &&& starts_with(e, "VAL_TABLE_ "@) ==> crate::parser::parse_value_table_spec(
        e.subrange(11, e.len() as int),
    ) is None
    &&& starts_with(e, "VAL_ "@) ==> crate::parser::parse_val_spec(e.subrange(5, e.len() as int))
        is None
    &&& starts_with(e, "CM_ "@) ==> crate::parser::parse_comment_spec(e.subrange(4, e.len() as int))
        is None
}

/// No signal has value descriptions, so none are written after the kept
/// lines.
pub open spec fn no_values_written(d: DbcView) -> bool {
    forall|i: int, k: int|
        #![trigger d.messages[i].signals[k]]
        0 <= i < d.messages.len() && 0 <= k < d.messages[i].signals.len()
            ==> d.messages[i].signals[k].value_descriptions.len() == 0
}

/// A database whose written text parses back to it.
pub open spec fn wf_dbc(d: DbcView) -> bool {
    &&& one_line(d.version)
    &&& forall|k: int| 0 <= k < d.new_symbols.len() ==> wf_symbol(#[trigger] d.new_symbols[k])
    &&& forall|k: int| 0 <= k < d.nodes.len() ==> wf_node(#[trigger] d.nodes[k])
    &&& forall|k: int, l: int|
        #![trigger d.nodes[k], d.nodes[l]]
        0 <= l < k < d.nodes.len() && d.nodes[k].comment is Some ==> d.nodes[l].name
            != d.nodes[k].name
    &&& forall|k: int| 0 <= k < d.value_tables.len() ==> wf_table(#[trigger] d.value_tables[k])
    &&& forall|k: int| 0 <= k < d.messages.len() ==> wf_message(#[trigger] d.messages[k])
    &&& forall|k: int, l: int|
        #![trigger d.messages[k], d.messages[l]]
        0 <= l < k < d.messages.len() && message_has_statements(d.messages[k])
            ==> d.messages[l].id != d.messages[k].id
    &&& opt_crlf_free(d.comment)
    &&& forall|k: int|
        0 <= k < d.extra.len() ==> wf_kept_line(
            #[trigger] d.extra[k],
            k == d.extra.len() - 1 && no_values_written(d),
        )
}

// ---------------------------------------------------------------------------
// Characters of the written pieces.
pub proof fn lemma_lacks_add(a: Seq<char>, b: Seq<char>, c: char)
    requires
        lacks(a, c),
        lacks(b, c),
    ensures
        lacks(a + b, c),
{
    assert forall|i: int| 0 <= i < (a + b).len() implies (a + b)[i] != c by {
        if i < a.len() {
            assert((a + b)[i] == a[i]);
        } else {
            assert((a + b)[i] == b[i - a.len()]);
        }
    }
}

pub proof fn lemma_nat_text_chars(n: nat)
    ensures
        nat_text(n).len() > 0,
        forall|i: int| 0 <= i < nat_text(n).len() ==> is_digit(#[trigger] nat_text(n)[i]),
{
    lemma_nat_text_digits(n);
}

/// A character of a written number.
pub open spec fn number_char(c: char) -> bool {
    is_digit(c) || c == '-' || c == '.' || c == 'i' || c == 'n' || c == 'f' || c == 'N' || c == 'a'
}

pub open spec fn number_chars(s: Seq<char>) -> bool {
    forall|i: int| 0 <= i < s.len() ==> number_char(#[trigger] s[i])
}

proof fn lemma_number_chars_add(a: Seq<char>, b: Seq<char>)
    requires
        number_chars(a),
        number_chars(b),
    ensures
        number_chars(a + b),
{
    assert forall|i: int| 0 <= i < (a + b).len() implies number_char(#[trigger] (a + b)[i]) by {
        if i < a.len() {
            assert((a + b)[i] == a[i]);
        } else {
            assert((a + b)[i] == b[i - a.len()]);
        }
    }
}

proof fn lemma_magnitude_chars(d: Seq<u8>, e: int)
    requires
        d.len() > 0,
        forall|i: int| 0 <= i < d.len() ==> #[trigger] d[i] < 10,
    ensures
        number_chars(magnitude_text(d, e)),
        magnitude_text(d, e).len() > 0,
{
    let dc = digit_chars(d);
    assert forall|i: int| 0 <= i < dc.len() implies number_char(#[trigger] dc[i]) by {
        assert(d[i] < 10);
        assert(dc[i] == digit_char(d[i] as nat));
    }
    if e >= 0 {
        let z = zeros(e as nat);
        assert(number_chars(z));
        lemma_number_chars_add(dc, z);
    } else if -e >= d.len() {
        let z = zeros((-e - d.len()) as nat);
        assert(number_chars(z));
        assert(number_chars(seq!['0', '.']));
        lemma_number_chars_add(seq!['0', '.'], z);
        lemma_number_chars_add(seq!['0', '.'] + z, dc);
    } else {
        let a = dc.subrange(0, d.len() + e);
        let b = dc.subrange(d.len() + e, d.len() as int);
        assert(number_chars(a));
        assert(number_chars(b));
        assert(number_chars(seq!['.']));
        lemma_number_chars_add(a, seq!['.']);
        lemma_number_chars_add(a + seq!['.'], b);
    }
}

/// A written number is made of digits, signs, points and the letters of
/// `inf` and `NaN`.
pub proof fn lemma_number_text_chars(n: NumberView)
    requires
        canonical(n),
    ensures
        number_text(n).len() > 0,
        number_chars(number_text(n)),
{
    match n {
        NumberView::Finite { negative, digits, exponent } => {
            if digits.len() > 0 {
                lemma_magnitude_chars(digits, exponent);
                if negative {
                    assert(number_chars(seq!['-']));
                    lemma_number_chars_add(seq!['-'], magnitude_text(digits, exponent));
                }
            } else {
                assert(number_chars(seq!['0']));
            }
        },
        NumberView::Infinite { negative } => {
            assert(number_chars(number_text(n)));
        },
        NumberView::NotANumber => {
            assert(number_chars(number_text(n)));
        },
    }
}

pub proof fn lemma_escaped_one_line(c: Seq<char>)
    requires
        one_line(c),
    ensures
        one_line(escaped(c)),
    decreases c.len(),
{
    if c.len() > 0 {
        lemma_escaped_front(c);
        lemma_escaped_one_line(c.drop_first());
        assert(one_line(escape_char(c[0])));
        lemma_lacks_add(escape_char(c[0]), escaped(c.drop_first()), '\n');
    }
}

pub proof fn lemma_quoted_one_line(c: Seq<char>)
    requires
        one_line(c),
    ensures
        one_line(quoted(c)),
        quoted(c).len() >= 2,
        quoted(c)[0] == '"',
        quoted(c).last() == '"',
{
    lemma_escaped_one_line(c);
    lemma_lacks_add(seq!['"'], escaped(c), '\n');
    lemma_lacks_add(seq!['"'] + escaped(c), seq!['"'], '\n');
}

/// The written form of a text with no carriage return before a line break
/// has none either, and starts with a break only where the text does.
pub proof fn lemma_escaped_crlf_free(c: Seq<char>)
    requires
        crlf_free(c),
    ensures
        crlf_free(escaped(c)),
        escaped(c).len() > 0 && escaped(c)[0] == '\n' ==> c.len() > 0 && c[0] == '\n',
    decreases c.len(),
{
    if c.len() > 0 {
        lemma_escaped_front(c);
        let r = c.drop_first();
        assert forall|i: int| 0 <= i < r.len() - 1 implies !(#[trigger] r[i] == '\r' && r[i + 1] == '\n') by {
            assert(r[i] == c[i + 1] && r[i + 1] == c[i + 2]);
        }
        lemma_escaped_crlf_free(r);
        let h = escape_char(c[0]);
        assert(crlf_free(h)) by {
            if h.len() == 2 {
                assert(h[0] == '\\');
            }
        }
        let er = escaped(r);
        if er.len() > 0 && er[0] == '\n' {
            assert(c[1] == r[0]);
            assert(c[0] != '\r');
            assert(h.last() != '\r');
        }
        lemma_crlf_free_add(h, er);
    } else {
        assert(escaped(c).len() == 0);
    }
}

pub proof fn lemma_quoted_crlf_free(c: Seq<char>)
    requires
        crlf_free(c),
    ensures
        crlf_free(quoted(c)),
        quoted(c).len() >= 2,
        quoted(c)[0] == '"',
        quoted(c).last() == '"',
{
    lemma_escaped_crlf_free(c);
    lemma_lacks_crlf_free(seq!['"']);
    lemma_crlf_free_add(seq!['"'], escaped(c));
    let a = seq!['"'] + escaped(c);
    if escaped(c).len() > 0 {
        assert(a.last() == escaped(c).last());
    }
    lemma_lacks_crlf_free(seq!['"']);
    lemma_crlf_free_add(a, seq!['"']);
}

pub proof fn lemma_pairs_crlf_free(ps: Seq<(i64, Seq<char>)>)
    requires
        labels_crlf_free(ps),
    ensures
        crlf_free(pairs_text(ps)),
        pairs_text(ps).len() > 0 ==> pairs_text(ps)[0] == ' ' && pairs_text(ps).last() == '"',
    decreases ps.len(),
{
    if ps.len() > 0 {
        lemma_pairs_front(ps);
        let rest = ps.drop_first();
        assert forall|i: int| 0 <= i < rest.len() implies crlf_free(#[trigger] rest[i].1) by {
            assert(rest[i] == ps[i + 1]);
        }
        lemma_pairs_crlf_free(rest);
        let p = ps[0];
        assert(crlf_free(p.1));
        lemma_int_text_plain(p.0 as int);
        lemma_quoted_crlf_free(p.1);
        let it = crate::numbers::int_text(p.0 as int);
        let h = seq![' '] + it + seq![' '];
        lemma_lacks_add(seq![' '], it, '\n');
        lemma_lacks_add(seq![' '] + it, seq![' '], '\n');
        lemma_lacks_crlf_free(h);
        lemma_crlf_free_add(h, quoted(p.1));
        lemma_crlf_free_add(pair_text(p), pairs_text(rest));
        assert(pair_text(p)[0] == ' ');
        if pairs_text(rest).len() == 0 {
            assert(pairs_text(ps) =~= pair_text(p));
        }
    }
}

/// A statement row `<prefix><quoted text>;`.
pub proof fn lemma_quoted_row_no_crlf(p: Seq<char>, c: Seq<char>)
    requires
        lacks(p, '\n'),
        crlf_free(c),
    ensures
        no_crlf(p + quoted(c) + seq![';']),
{
    lemma_quoted_crlf_free(c);
    lemma_lacks_crlf_free(p);
    lemma_crlf_free_add(p, quoted(c));
    lemma_lacks_crlf_free(seq![';']);
    lemma_crlf_free_add(p + quoted(c), seq![';']);
}

/// A statement row `<prefix><pairs> ;`.
pub proof fn lemma_pairs_row_no_crlf(p: Seq<char>, ps: Seq<(i64, Seq<char>)>)
    requires
        lacks(p, '\n'),
        labels_crlf_free(ps),
    ensures
        no_crlf(p + pairs_text(ps) + " ;"@),
{
    reveal_strlit(" ;");
    lemma_pairs_crlf_free(ps);
    lemma_lacks_crlf_free(p);
    lemma_crlf_free_add(p, pairs_text(ps));
    lemma_lacks_crlf_free(" ;"@);
    lemma_crlf_free_add(p + pairs_text(ps), " ;"@);
}

// ---------------------------------------------------------------------------
// Every written row is a plain line.
pub open spec fn all_plain(rows: Seq<Seq<char>>) -> bool {
    forall|k: int| 0 <= k < rows.len() ==> plain_line(#[trigger] rows[k])
}

proof fn lemma_all_plain_add(a: Seq<Seq<char>>, b: Seq<Seq<char>>)
    requires
        all_plain(a),
        all_plain(b),
    ensures
        all_plain(a + b),
{
    assert forall|k: int| 0 <= k < (a + b).len() implies plain_line(#[trigger] (a + b)[k]) by {
        if k < a.len() {
            assert((a + b)[k] == a[k]);
        } else {
            assert((a + b)[k] == b[k - a.len()]);
        }
    }
}

proof fn lemma_all_plain_flat<T>(xs: Seq<T>, f: spec_fn(T) -> Seq<Seq<char>>)
    requires
        forall|i: int| 0 <= i < xs.len() ==> all_plain(#[trigger] f(xs[i])),
    ensures
        all_plain(flat_map(xs, f)),
    decreases xs.len(),
{
    if xs.len() > 0 {
        let ys = xs.drop_last();
        assert forall|i: int| 0 <= i < ys.len() implies all_plain(#[trigger] f(ys[i])) by {
            assert(ys[i] == xs[i]);
        }
        lemma_all_plain_flat(ys, f);
        assert(all_plain(f(xs[xs.len() - 1])));
        lemma_all_plain_add(flat_map(ys, f), f(xs.last()));
    }
}

proof fn lemma_no_ws_one_line(s: Seq<char>)
    requires
        no_ws(s),
    ensures
        one_line(s),
{
    assert forall|i: int| 0 <= i < s.len() implies s[i] != '\n' by {
        assert(!is_ws(s[i]));
    }
}

proof fn lemma_digits_one_line(s: Seq<char>)
    requires
        forall|i: int| 0 <= i < s.len() ==> is_digit(#[trigger] s[i]),
    ensures
        no_ws(s),
        one_line(s),
{
    assert forall|i: int| 0 <= i < s.len() implies !is_ws(#[trigger] s[i]) by {
        assert(is_digit(s[i]));
    }
    lemma_no_ws_one_line(s);
}

proof fn lemma_number_one_line(n: NumberView)
    requires
        canonical(n),
    ensures
        one_line(number_text(n)),
        no_ws(number_text(n)),
{
    lemma_number_text_chars(n);
    let t = number_text(n);
    assert forall|i: int| 0 <= i < t.len() implies !is_ws(#[trigger] t[i]) by {
        assert(number_char(t[i]));
    }
    lemma_no_ws_one_line(t);
}

pub proof fn lemma_spaced_names(ns: Seq<NodeView>)
    requires
        forall|k: int| 0 <= k < ns.len() ==> is_name(#[trigger] ns[k].name),
    ensures
        one_line(cat_map(ns, |n: NodeView| seq![' '] + n.name)),
        ns.len() > 0 ==> cat_map(ns, |n: NodeView| seq![' '] + n.name).len() > 0 && !is_ws(
            cat_map(ns, |n: NodeView| seq![' '] + n.name).last(),
        ),
    decreases ns.len(),
{
    if ns.len() > 0 {
        let ys = ns.drop_last();
        assert forall|k: int| 0 <= k < ys.len() implies is_name(#[trigger] ys[k].name) by {
            assert(ys[k] == ns[k]);
        }
        lemma_spaced_names(ys);
        let x = ns.last();
        assert(is_name(ns[ns.len() - 1].name));
        lemma_no_ws_one_line(x.name);
        lemma_lacks_add(seq![' '], x.name, '\n');
        lemma_lacks_add(cat_map(ys, |n: NodeView| seq![' '] + n.name), seq![' '] + x.name, '\n');
        assert(!is_ws(x.name.last()));
    }
}

proof fn lemma_join_one_line(r: Seq<Seq<char>>)
    requires
        forall|k: int| 0 <= k < r.len() ==> is_name(#[trigger] r[k]),
    ensures
        one_line(crate::writer::join(r, ',')),
        r.len() > 0 ==> crate::writer::join(r, ',').len() > 0 && !is_ws(
            crate::writer::join(r, ',').last(),
        ),
    decreases r.len(),
{
    if r.len() > 0 {
        let ys = r.drop_last();
        assert forall|k: int| 0 <= k < ys.len() implies is_name(#[trigger] ys[k]) by {
            assert(ys[k] == r[k]);
        }
        lemma_join_one_line(ys);
        assert(is_name(r[r.len() - 1]));
        lemma_no_ws_one_line(r.last());
        if r.len() > 1 {
            lemma_lacks_add(crate::writer::join(ys, ','), seq![','], '\n');
            lemma_lacks_add(crate::writer::join(ys, ',') + seq![','], r.last(), '\n');
        }
    }
}

pub proof fn lemma_signal_line_plain(s: SignalView)
    requires
        wf_signal(s),
    ensures
        plain_line(signal_line(s)),
        signal_line(s)[0] == ' ',
{
    reveal_strlit(" SG_ ");
    reveal_strlit(" : ");
    reveal_strlit(" (");
    reveal_strlit(") [");
    reveal_strlit("] ");
    let head = crate::writer::signal_head_text(s);
    let bits = crate::writer::signal_bits_text(s);
    let scal = crate::writer::signal_scaling_text(s);
    let q = quoted(s.unit);
    let rt = crate::writer::receivers_text(s.receivers);
    lemma_no_ws_one_line(s.name);
    let mt = crate::writer::mux_text(s.multiplexer);
    match s.multiplexer {
        crate::model::Multiplexer::Multiplexed(n) => {
            lemma_nat_text_chars(n as nat);
            lemma_digits_one_line(nat_text(n as nat));
            lemma_lacks_add(seq![' ', 'm'], nat_text(n as nat), '\n');
        },
        _ => {},
    }
    assert(one_line(mt));
    lemma_lacks_add(" SG_ "@, s.name, '\n');
    lemma_lacks_add(" SG_ "@ + s.name, mt, '\n');
    lemma_lacks_add(" SG_ "@ + s.name + mt, " : "@, '\n');
    lemma_nat_text_chars(s.start_bit as nat);
    lemma_nat_text_chars(s.size as nat);
    lemma_digits_one_line(nat_text(s.start_bit as nat));
    lemma_digits_one_line(nat_text(s.size as nat));
    let b1 = nat_text(s.start_bit as nat) + seq!['|'];
    lemma_lacks_add(nat_text(s.start_bit as nat), seq!['|'], '\n');
    lemma_lacks_add(b1, nat_text(s.size as nat), '\n');
    lemma_lacks_add(b1 + nat_text(s.size as nat), seq![
        '@',
        crate::writer::order_char(s.byte_order),
        crate::writer::sign_char(s.value_type),
    ], '\n');
    lemma_number_one_line(s.factor);
    lemma_number_one_line(s.offset);
    lemma_number_one_line(s.min);
    lemma_number_one_line(s.max);
    let f = number_text(s.factor);
    let o = number_text(s.offset);
    let lo = number_text(s.min);
    let hi = number_text(s.max);
    lemma_lacks_add(" ("@, f, '\n');
    lemma_lacks_add(" ("@ + f, seq![','], '\n');
    lemma_lacks_add(" ("@ + f + seq![','], o, '\n');
    lemma_lacks_add(" ("@ + f + seq![','] + o, ") ["@, '\n');
    lemma_lacks_add(" ("@ + f + seq![','] + o + ") ["@, lo, '\n');
    lemma_lacks_add(" ("@ + f + seq![','] + o + ") ["@ + lo, seq!['|'], '\n');
    lemma_lacks_add(" ("@ + f + seq![','] + o + ") ["@ + lo + seq!['|'], hi, '\n');
    lemma_lacks_add(" ("@ + f + seq![','] + o + ") ["@ + lo + seq!['|'] + hi, "] "@, '\n');
    lemma_quoted_one_line(s.unit);
    assert forall|k: int| 0 <= k < s.receivers.len() implies is_name(#[trigger] s.receivers[k]) by {}
    lemma_join_one_line(s.receivers);
    lemma_lacks_add(seq![' '], crate::writer::join(s.receivers, ','), '\n');
    lemma_lacks_add(head, bits, '\n');
    lemma_lacks_add(head + bits, scal, '\n');
    lemma_lacks_add(head + bits + scal, q, '\n');
    lemma_lacks_add(head + bits + scal + q, rt, '\n');
    assert(signal_line(s) == head + bits + scal + q + rt);
    assert(rt.last() == crate::writer::join(s.receivers, ',').last());
    assert(signal_line(s).last() == rt.last());
    assert(signal_line(s)[0] == ' ');
}

/// Each default new-symbol entry is a plain word.
proof fn lemma_default_symbols_wf()
    ensures
        forall|k: int| 0 <= k < default_symbols().len() ==> wf_symbol(#[trigger] default_symbols()[k]),
{
    reveal_strlit("NS_DESC_");
    reveal_strlit("CM_");
    reveal_strlit("BA_DEF_");
    reveal_strlit("BA_");
    reveal_strlit("VAL_");
    reveal_strlit("CAT_DEF_");
    reveal_strlit("CAT_");
    reveal_strlit("FILTER");
    reveal_strlit("BA_DEF_DEF_");
    reveal_strlit("EV_DATA_");
    reveal_strlit("ENVVAR_DATA_");
    reveal_strlit("SGTYPE_");
    reveal_strlit("SGTYPE_VAL_");
    reveal_strlit("BA_DEF_SGTYPE_");
    reveal_strlit("BA_SGTYPE_");
    reveal_strlit("SIG_TYPE_REF_");
    reveal_strlit("VAL_TABLE_");
    reveal_strlit("SIG_GROUP_");
    reveal_strlit("SIG_VALTYPE_");
    reveal_strlit("SIGTYPE_VALTYPE_");
    reveal_strlit("BO_TX_BU_");
    reveal_strlit("BA_DEF_REL_");
    reveal_strlit("BA_REL_");
    reveal_strlit("BA_DEF_DEF_REL_");
    reveal_strlit("BU_SG_REL_");
    reveal_strlit("BU_EV_REL_");
    reveal_strlit("BU_BO_REL_");
    reveal_strlit("SG_MUL_VAL_");
    assert forall|k: int| 0 <= k < default_symbols().len() implies wf_symbol(
        #[trigger] default_symbols()[k],
    ) by {
        let t = default_symbols()[k];
        assert(t.len() > 0);
        assert(forall|i: int| 0 <= i < t.len() ==> 'A' <= #[trigger] t[i] <= 'Z' || t[i] == '_');
        assert(!is_ws(t[0]));
        assert(!is_ws(t.last()));
    }
}

pub proof fn lemma_symbols_wf(d: DbcView)
    requires
        forall|k: int| 0 <= k < d.new_symbols.len() ==> wf_symbol(#[trigger] d.new_symbols[k]),
    ensures
        forall|k: int| 0 <= k < written_symbols(d).len() ==> wf_symbol(#[trigger] written_symbols(d)[k]),
{
    lemma_default_symbols_wf();
}

proof fn lemma_all_plain_map<T>(xs: Seq<T>, g: spec_fn(T) -> Seq<char>)
    requires
        forall|i: int| 0 <= i < xs.len() ==> plain_line(#[trigger] g(xs[i])),
    ensures
        all_plain(xs.map_values(g)),
{
    assert forall|k: int| 0 <= k < xs.map_values(g).len() implies plain_line(
        #[trigger] xs.map_values(g)[k],
    ) by {
        assert(plain_line(g(xs[k])));
    }
}

proof fn lemma_header_plain(d: DbcView)
    requires
        wf_dbc(d),
    ensures
        all_plain(header_rows(d)),
{
    reveal_strlit("VERSION ");
    reveal_strlit("NS_ :");
    reveal_strlit("BS_:");
    reveal_strlit("BU_:");
    reveal_strlit("VAL_TABLE_ ");
    reveal_strlit(" ;");
    let e = Seq::<char>::empty();
    lemma_quoted_one_line(d.version);
    lemma_lacks_add("VERSION "@, quoted(d.version), '\n');
    assert(all_plain(seq![version_line(d), e, "NS_ :"@]));
    lemma_symbols_wf(d);
    assert forall|i: int| 0 <= i < written_symbols(d).len() implies plain_line(
        #[trigger] symbol_row(written_symbols(d)[i]),
    ) by {
        let x = written_symbols(d)[i];
        assert(wf_symbol(x));
        lemma_lacks_add(seq!['\t'], x, '\n');
    }
    lemma_all_plain_map(written_symbols(d), |x: Seq<char>| symbol_row(x));
    assert forall|k: int| 0 <= k < d.nodes.len() implies is_name(#[trigger] d.nodes[k].name) by {
        assert(wf_node(d.nodes[k]));
    }
    lemma_spaced_names(d.nodes);
    lemma_lacks_add("BU_:"@, cat_map(d.nodes, |n: NodeView| seq![' '] + n.name), '\n');
    assert(all_plain(seq![e, "BS_:"@, e, nodes_line(d)]));
    assert forall|i: int| 0 <= i < d.value_tables.len() implies all_plain(
        #[trigger] row_lines(table_line(d.value_tables[i])),
    ) by {
        let t = d.value_tables[i];
        assert(wf_table(t));
        lemma_no_ws_one_line(t.name);
        lemma_lacks_add("VAL_TABLE_ "@, t.name, '\n');
        lemma_pairs_row_no_crlf("VAL_TABLE_ "@ + t.name, t.values);
        lemma_split_plain(table_line(t));
    }
    lemma_all_plain_flat(d.value_tables, |t: ValueTableView| row_lines(table_line(t)));
    assert(all_plain(seq![e]));
    let a = seq![version_line(d), e, "NS_ :"@];
    let b = written_symbols(d).map_values(|s: Seq<char>| symbol_row(s));
    let c = seq![e, "BS_:"@, e, nodes_line(d)];
    let t = flat_map(d.value_tables, |t: ValueTableView| row_lines(table_line(t)));
    lemma_all_plain_add(a, b);
    lemma_all_plain_add(a + b, c);
    lemma_all_plain_add(a + b + c, t);
    lemma_all_plain_add(a + b + c + t, seq![e]);
}

proof fn lemma_message_plain(m: MessageView)
    requires
        wf_message(m),
    ensures
        all_plain(message_rows(m)),
{
    reveal_strlit("BO_ ");
    reveal_strlit(": ");
    let e = Seq::<char>::empty();
    lemma_nat_text_chars(m.id as nat);
    lemma_nat_text_chars(m.size as nat);
    lemma_digits_one_line(nat_text(m.id as nat));
    lemma_digits_one_line(nat_text(m.size as nat));
    lemma_no_ws_one_line(m.name);
    lemma_no_ws_one_line(m.transmitter);
    let a1 = "BO_ "@ + nat_text(m.id as nat);
    lemma_lacks_add("BO_ "@, nat_text(m.id as nat), '\n');
    lemma_lacks_add(a1, seq![' '], '\n');
    lemma_lacks_add(a1 + seq![' '], m.name, '\n');
    lemma_lacks_add(a1 + seq![' '] + m.name, ": "@, '\n');
    lemma_lacks_add(a1 + seq![' '] + m.name + ": "@, nat_text(m.size as nat), '\n');
    lemma_lacks_add(a1 + seq![' '] + m.name + ": "@ + nat_text(m.size as nat), seq![' '], '\n');
    lemma_lacks_add(
        a1 + seq![' '] + m.name + ": "@ + nat_text(m.size as nat) + seq![' '],
        m.transmitter,
        '\n',
    );
    assert(plain_line(crate::document::message_line(m)));
    assert forall|i: int| 0 <= i < m.signals.len() implies plain_line(
        #[trigger] signal_line(m.signals[i]),
    ) by {
        lemma_signal_line_plain(m.signals[i]);
    }
    lemma_all_plain_map(m.signals, |s: SignalView| signal_line(s));
    let a = seq![crate::document::message_line(m)];
    let b = m.signals.map_values(|s: SignalView| signal_line(s));
    lemma_all_plain_add(a, b);
    lemma_all_plain_add(a + b, seq![e]);
}

/// A statement row `<prefix><quoted text>;`.
proof fn lemma_comment_row_plain(p: Seq<char>, c: Seq<char>)
    requires
        one_line(p),
        crlf_free(c),
    ensures
        all_plain(row_lines(p + quoted(c) + seq![';'])),
{
    lemma_quoted_row_no_crlf(p, c);
    lemma_split_plain(p + quoted(c) + seq![';']);
}

proof fn lemma_trailer_plain(d: DbcView)
    requires
        wf_dbc(d),
    ensures
        all_plain(crate::document::trailer_rows(d)),
{
    reveal_strlit("CM_ ");
    reveal_strlit("CM_ BU_ ");
    reveal_strlit("CM_ BO_ ");
    reveal_strlit("CM_ SG_ ");
    reveal_strlit("VAL_ ");
    reveal_strlit(" ;");
    match d.comment {
        Some(c) => {
            lemma_comment_row_plain("CM_ "@, c);
        },
        None => {},
    }
    assert(all_plain(crate::document::network_comment_rows(d)));
    assert forall|i: int| 0 <= i < d.nodes.len() implies all_plain(
        #[trigger] crate::document::node_comment_rows(d.nodes[i]),
    ) by {
        let n = d.nodes[i];
        assert(wf_node(n));
        match n.comment {
            Some(c) => {
                lemma_no_ws_one_line(n.name);
                lemma_lacks_add("CM_ BU_ "@, n.name, '\n');
                lemma_lacks_add("CM_ BU_ "@ + n.name, seq![' '], '\n');
                lemma_comment_row_plain("CM_ BU_ "@ + n.name + seq![' '], c);
            },
            None => {},
        }
    }
    lemma_all_plain_flat(d.nodes, |n: NodeView| crate::document::node_comment_rows(n));
    assert forall|i: int| 0 <= i < d.messages.len() implies all_plain(
        #[trigger] crate::document::message_comment_rows(d.messages[i]),
    ) by {
        let m = d.messages[i];
        assert(wf_message(m));
        match m.comment {
            Some(c) => {
                lemma_nat_text_chars(m.id as nat);
                lemma_digits_one_line(nat_text(m.id as nat));
                lemma_lacks_add("CM_ BO_ "@, nat_text(m.id as nat), '\n');
                lemma_lacks_add("CM_ BO_ "@ + nat_text(m.id as nat), seq![' '], '\n');
                lemma_comment_row_plain("CM_ BO_ "@ + nat_text(m.id as nat) + seq![' '], c);
            },
            None => {},
        }
    }
    lemma_all_plain_flat(d.messages, |m: MessageView| crate::document::message_comment_rows(m));
    assert forall|i: int| 0 <= i < d.messages.len() implies all_plain(
        #[trigger] crate::document::message_signal_comment_rows(d.messages[i]),
    ) by {
        let m = d.messages[i];
        assert(wf_message(m));
        lemma_nat_text_chars(m.id as nat);
        lemma_digits_one_line(nat_text(m.id as nat));
        assert forall|k: int| 0 <= k < m.signals.len() implies all_plain(
            #[trigger] crate::document::signal_comment_rows(m.id, m.signals[k]),
        ) by {
            let s = m.signals[k];
            assert(wf_signal(s));
            match s.comment {
                Some(c) => {
                    lemma_no_ws_one_line(s.name);
                    let p0 = "CM_ SG_ "@ + nat_text(m.id as nat);
                    lemma_lacks_add("CM_ SG_ "@, nat_text(m.id as nat), '\n');
                    lemma_lacks_add(p0, seq![' '], '\n');
                    lemma_lacks_add(p0 + seq![' '], s.name, '\n');
                    lemma_lacks_add(p0 + seq![' '] + s.name, seq![' '], '\n');
                    lemma_comment_row_plain(p0 + seq![' '] + s.name + seq![' '], c);
                },
                None => {},
            }
        }
        lemma_all_plain_flat(
            m.signals,
            |s: SignalView| crate::document::signal_comment_rows(m.id, s),
        );
    }
    lemma_all_plain_flat(
        d.messages,
        |m: MessageView| crate::document::message_signal_comment_rows(m),
    );
    assert forall|k: int| 0 <= k < d.extra.len() implies all_plain(#[trigger] row_lines(d.extra[k])) by {
        assert(wf_kept_line(d.extra[k], k == d.extra.len() - 1 && no_values_written(d)));
        lemma_split_plain(d.extra[k]);
    }
    lemma_all_plain_flat(d.extra, |e: Seq<char>| row_lines(e));
    assert forall|i: int| 0 <= i < d.messages.len() implies all_plain(
        #[trigger] crate::document::message_signal_values_rows(d.messages[i]),
    ) by {
        let m = d.messages[i];
        assert(wf_message(m));
        lemma_nat_text_chars(m.id as nat);
        lemma_digits_one_line(nat_text(m.id as nat));
        assert forall|k: int| 0 <= k < m.signals.len() implies all_plain(
            #[trigger] crate::document::signal_values_rows(m.id, m.signals[k]),
        ) by {
            let s = m.signals[k];
            assert(wf_signal(s));
            if s.value_descriptions.len() > 0 {
                lemma_no_ws_one_line(s.name);
                let p0 = "VAL_ "@ + nat_text(m.id as nat);
                lemma_lacks_add("VAL_ "@, nat_text(m.id as nat), '\n');
                lemma_lacks_add(p0, seq![' '], '\n');
                lemma_lacks_add(p0 + seq![' '], s.name, '\n');
                lemma_pairs_row_no_crlf(p0 + seq![' '] + s.name, s.value_descriptions);
                lemma_split_plain(p0 + seq![' '] + s.name + pairs_text(s.value_descriptions) + " ;"@);
            }
        }
        lemma_all_plain_flat(
            m.signals,
            |s: SignalView| crate::document::signal_values_rows(m.id, s),
        );
    }
    lemma_all_plain_flat(
        d.messages,
        |m: MessageView| crate::document::message_signal_values_rows(m),
    );
    let c = crate::document::comment_rows(d);
    lemma_all_plain_add(
        crate::document::network_comment_rows(d),
        flat_map(d.nodes, |n: NodeView| crate::document::node_comment_rows(n)),
    );
    lemma_all_plain_add(
        crate::document::network_comment_rows(d) + flat_map(
            d.nodes,
            |n: NodeView| crate::document::node_comment_rows(n),
        ),
        flat_map(d.messages, |m: MessageView| crate::document::message_comment_rows(m)),
    );
    lemma_all_plain_add(
        crate::document::network_comment_rows(d) + flat_map(
            d.nodes,
            |n: NodeView| crate::document::node_comment_rows(n),
        ) + flat_map(d.messages, |m: MessageView| crate::document::message_comment_rows(m)),
        flat_map(d.messages, |m: MessageView| crate::document::message_signal_comment_rows(m)),
    );
    let ex = flat_map(d.extra, |e: Seq<char>| row_lines(e));
    lemma_all_plain_add(c, ex);
    lemma_all_plain_add(
        c + ex,
        flat_map(d.messages, |m: MessageView| crate::document::message_signal_values_rows(m)),
    );
}

/// The lines the parser reads from a written document are its rows and a
/// final empty line.
pub proof fn lemma_document_input_lines(d: DbcView)
    requires
        wf_dbc(d),
    ensures
        input_lines(dbc_text(d)) == document_rows(d) + seq![Seq::<char>::empty()],
{
    lemma_header_plain(d);
    assert forall|i: int| 0 <= i < d.messages.len() implies all_plain(
        #[trigger] crate::document::message_rows(d.messages[i]),
    ) by {
        lemma_message_plain(d.messages[i]);
    }
    lemma_all_plain_flat(d.messages, |m: MessageView| crate::document::message_rows(m));
    lemma_trailer_plain(d);
    lemma_all_plain_add(
        header_rows(d),
        flat_map(d.messages, |m: MessageView| crate::document::message_rows(m)),
    );
    lemma_all_plain_add(
        header_rows(d) + flat_map(d.messages, |m: MessageView| crate::document::message_rows(m)),
        crate::document::trailer_rows(d),
    );
    lemma_document_lined(d);
    lemma_input_lines(document_rows(d));
}

// ---------------------------------------------------------------------------
/// Writing a well-formed database and parsing the text gives the database
/// back, its new-symbol entries being those the writer writes (the default
/// list when it has none).
pub proof fn lemma_write_parse_roundtrip(d: DbcView)
    requires
        wf_dbc(d),
    ensures
        crate::parser::parse_spec(dbc_text(d)) == crate::parser::ParseOutcome::Parsed(
            DbcView { new_symbols: written_symbols(d), ..d },
        ),
{
    lemma_document_input_lines(d);
    crate::reparse::lemma_read_document(d);
    reveal(crate::reparse::outcome_from);
    crate::reattach::lemma_finish(d);
}

/// Writing is idempotent through a parse: writing a well-formed database,
/// parsing the text and writing the result gives the same text.
pub proof fn lemma_write_parse_write(d: DbcView)
    requires
        wf_dbc(d),
    ensures
        crate::parser::parse_spec(dbc_text(d)) matches crate::parser::ParseOutcome::Parsed(d2)
            && dbc_text(d2) == dbc_text(d),
{
    lemma_write_parse_roundtrip(d);
    let d2 = DbcView { new_symbols: written_symbols(d), ..d };
    assert(default_symbols().len() > 0);
    assert(written_symbols(d2) == written_symbols(d));
    assert(crate::writer::header_text(d2) == crate::writer::header_text(d));
    assert(crate::writer::trailer_text(d2) == crate::writer::trailer_text(d));
}

} // verus!
