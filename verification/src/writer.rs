//! Serialises a [`Dbc`] into canonical DBC text.
use vstd::prelude::*;
use crate::decimal::number_text;
use crate::model::{
    messages_view, nodes_view, pairs, tables_view, texts, vector_xxx, vector_xxx_string, ByteOrder, Dbc,
    DbcView, Message, MessageView, Multiplexer, NodeView, Signal, SignalView, ValueTableView,
    ValueType,
};
use crate::numbers::{int_text, nat_text, i64_chars, u64_chars};
use crate::text::{chars_of, push_all, to_string};

verus! {

// ---------------------------------------------------------------------------
// The text, as spec functions.
/// The concatenation of `f(x)` over `xs`, in order.
pub open spec fn cat_map<T>(xs: Seq<T>, f: spec_fn(T) -> Seq<char>) -> Seq<char>
    decreases xs.len(),
{
    if xs.len() == 0 {
        Seq::empty()
    } else {
        cat_map(xs.drop_last(), f) + f(xs.last())
    }
}

pub proof fn lemma_cat_map_step<T>(xs: Seq<T>, f: spec_fn(T) -> Seq<char>, i: int)
    requires
        0 <= i < xs.len(),
    ensures
        cat_map(xs.take(i + 1), f) == cat_map(xs.take(i), f) + f(xs[i]),
{
    assert(xs.take(i + 1).drop_last() =~= xs.take(i));
}

pub open spec fn escape_char(c: char) -> Seq<char> {
    if c == '\\' {
        seq!['\\', '\\']
    } else if c == '"' {
        seq!['\\', '"']
    } else {
        seq![c]
    }
}

/// `\` and `"` preceded by a backslash.
pub open spec fn escaped(s: Seq<char>) -> Seq<char> {
    cat_map(s, |c: char| escape_char(c))
}

/// A double-quoted, escaped string.
pub open spec fn quoted(s: Seq<char>) -> Seq<char> {
    seq!['"'] + escaped(s) + seq!['"']
}

pub open spec fn pair_text(p: (i64, Seq<char>)) -> Seq<char> {
    seq![' '] + int_text(p.0 as int) + seq![' '] + quoted(p.1)
}

/// ` <value> "<label>"` for each pair.
pub open spec fn pairs_text(ps: Seq<(i64, Seq<char>)>) -> Seq<char> {
    cat_map(ps, |p: (i64, Seq<char>)| pair_text(p))
}

/// The elements of `v` separated by `sep`.
pub open spec fn join(v: Seq<Seq<char>>, sep: char) -> Seq<char>
    decreases v.len(),
{
    if v.len() == 0 {
        Seq::empty()
    } else if v.len() == 1 {
        v[0]
    } else {
        join(v.drop_last(), sep) + seq![sep] + v.last()
    }
}

pub open spec fn mux_text(m: Multiplexer) -> Seq<char> {
    match m {
        Multiplexer::Normal => Seq::empty(),
        Multiplexer::Multiplexor => seq![' ', 'M'],
        Multiplexer::Multiplexed(n) => seq![' ', 'm'] + nat_text(n as nat),
    }
}

pub open spec fn order_char(b: ByteOrder) -> char {
    match b {
        ByteOrder::LittleEndian => '1',
        ByteOrder::BigEndian => '0',
    }
}

pub open spec fn sign_char(v: ValueType) -> char {
    match v {
        ValueType::Unsigned => '+',
        ValueType::Signed => '-',
    }
}

pub open spec fn receivers_text(r: Seq<Seq<char>>) -> Seq<char> {
    if r.len() == 0 {
        seq![' '] + vector_xxx()
    } else {
        seq![' '] + join(r, ',')
    }
}

/// ` SG_ <name>[ M| m<n>] : `
pub open spec fn signal_head_text(s: SignalView) -> Seq<char> {
    " SG_ "@ + s.name + mux_text(s.multiplexer) + " : "@
}

/// `<start>|<size>@<order><sign>`
pub open spec fn signal_bits_text(s: SignalView) -> Seq<char> {
    nat_text(s.start_bit as nat) + seq!['|'] + nat_text(s.size as nat) + seq![
        '@',
        order_char(s.byte_order),
        sign_char(s.value_type),
    ]
}

/// ` (<factor>,<offset>) [<min>|<max>] `
pub open spec fn signal_scaling_text(s: SignalView) -> Seq<char> {
    " ("@ + number_text(s.factor) + seq![','] + number_text(s.offset) + ") ["@ + number_text(s.min)
        + seq!['|'] + number_text(s.max) + "] "@
}

/// `"<unit>" <receivers>` and the line end.
pub open spec fn signal_tail_text(s: SignalView) -> Seq<char> {
    quoted(s.unit) + receivers_text(s.receivers) + seq!['\n']
}

/// A signal line: ` SG_ <name>[ M| m<n>] : <start>|<size>@<order><sign>
/// (<factor>,<offset>) [<min>|<max>] "<unit>" <receivers>`.
pub open spec fn signal_text(s: SignalView) -> Seq<char> {
    signal_head_text(s) + signal_bits_text(s) + signal_scaling_text(s) + signal_tail_text(s)
}

pub open spec fn message_text(m: MessageView) -> Seq<char> {
    "BO_ "@ + nat_text(m.id as nat) + seq![' '] + m.name + ": "@ + nat_text(m.size as nat) + seq![
        ' ',
    ] + m.transmitter + seq!['\n'] + cat_map(m.signals, |s: SignalView| signal_text(s)) + seq![
        '\n',
    ]
}

pub open spec fn table_text(t: ValueTableView) -> Seq<char> {
    "VAL_TABLE_ "@ + t.name + pairs_text(t.values) + " ;\n"@
}

pub open spec fn node_comment_text(n: NodeView) -> Seq<char> {
    match n.comment {
        Some(c) => "CM_ BU_ "@ + n.name + seq![' '] + quoted(c) + ";\n"@,
        None => Seq::empty(),
    }
}

pub open spec fn message_comment_text(m: MessageView) -> Seq<char> {
    match m.comment {
        Some(c) => "CM_ BO_ "@ + nat_text(m.id as nat) + seq![' '] + quoted(c) + ";\n"@,
        None => Seq::empty(),
    }
}

pub open spec fn signal_comment_text(id: u32, s: SignalView) -> Seq<char> {
    match s.comment {
        Some(c) => "CM_ SG_ "@ + nat_text(id as nat) + seq![' '] + s.name + seq![' '] + quoted(c)
            + ";\n"@,
        None => Seq::empty(),
    }
}

pub open spec fn signal_values_text(id: u32, s: SignalView) -> Seq<char> {
    if s.value_descriptions.len() == 0 {
        Seq::empty()
    } else {
        "VAL_ "@ + nat_text(id as nat) + seq![' '] + s.name + pairs_text(s.value_descriptions)
            + " ;\n"@
    }
}

pub open spec fn message_signal_comments(m: MessageView) -> Seq<char> {
    cat_map(m.signals, |s: SignalView| signal_comment_text(m.id, s))
}

pub open spec fn message_signal_values(m: MessageView) -> Seq<char> {
    cat_map(m.signals, |s: SignalView| signal_values_text(m.id, s))
}

/// The new-symbol entries written when a database has none of its own.
pub open spec fn default_symbols() -> Seq<Seq<char>> {
    seq![
        "NS_DESC_"@,
        "CM_"@,
        "BA_DEF_"@,
        "BA_"@,
        "VAL_"@,
        "CAT_DEF_"@,
        "CAT_"@,
        "FILTER"@,
        "BA_DEF_DEF_"@,
        "EV_DATA_"@,
        "ENVVAR_DATA_"@,
        "SGTYPE_"@,
        "SGTYPE_VAL_"@,
        "BA_DEF_SGTYPE_"@,
        "BA_SGTYPE_"@,
        "SIG_TYPE_REF_"@,
        "VAL_TABLE_"@,
        "SIG_GROUP_"@,
        "SIG_VALTYPE_"@,
        "SIGTYPE_VALTYPE_"@,
        "BO_TX_BU_"@,
        "BA_DEF_REL_"@,
        "BA_REL_"@,
        "BA_DEF_DEF_REL_"@,
        "BU_SG_REL_"@,
        "BU_EV_REL_"@,
        "BU_BO_REL_"@,
        "SG_MUL_VAL_"@,
        "NS_DESC_"@,
        "CM_"@,
    ]
}

pub open spec fn symbol_line(s: Seq<char>) -> Seq<char> {
    seq!['\t'] + s + seq!['\n']
}

pub open spec fn written_symbols(d: DbcView) -> Seq<Seq<char>> {
    if d.new_symbols.len() == 0 {
        default_symbols()
    } else {
        d.new_symbols
    }
}

/// Everything up to and including the blank line after the value tables.
pub open spec fn header_text(d: DbcView) -> Seq<char> {
    "VERSION "@ + quoted(d.version) + "\n\n"@ + "NS_ :\n"@ + cat_map(
        written_symbols(d),
        |s: Seq<char>| symbol_line(s),
    ) + "\n"@ + "BS_:\n\n"@ + "BU_:"@ + cat_map(d.nodes, |n: NodeView| seq![' '] + n.name)
        + "\n"@ + cat_map(d.value_tables, |t: ValueTableView| table_text(t)) + "\n"@
}

/// The comments, the kept lines and the value descriptions.
pub open spec fn trailer_text(d: DbcView) -> Seq<char> {
    (match d.comment {
        Some(c) => "CM_ "@ + quoted(c) + ";\n"@,
        None => Seq::empty(),
    }) + cat_map(d.nodes, |n: NodeView| node_comment_text(n)) + cat_map(
        d.messages,
        |m: MessageView| message_comment_text(m),
    ) + cat_map(d.messages, |m: MessageView| message_signal_comments(m)) + cat_map(
        d.extra,
        |e: Seq<char>| e + seq!['\n'],
    ) + cat_map(d.messages, |m: MessageView| message_signal_values(m))
}

/// The document the writer produces.
pub open spec fn dbc_text(d: DbcView) -> Seq<char> {
    header_text(d) + cat_map(d.messages, |m: MessageView| message_text(m)) + trailer_text(d)
}

// ---------------------------------------------------------------------------
// The writer.
fn push_str(out: &mut Vec<char>, s: &str)
    ensures
        final(out)@ == old(out)@ + s@,
{
    let v = chars_of(s);
    push_all(out, &v);
}

/// Appends `s` to `out` with `\` and `"` preceded by a backslash.
fn push_escaped(out: &mut Vec<char>, s: &str)
    ensures
        final(out)@ == old(out)@ + escaped(s@),
{
    let v = chars_of(s);
    let mut i: usize = 0;
    while i < v.len()
        invariant
            i <= v.len(),
            v@ == s@,
            out@ == old(out)@ + escaped(v@.take(i as int)),
        decreases v.len() - i,
    {
        proof {
            lemma_cat_map_step(v@, |c: char| escape_char(c), i as int);
        }
        let c = v[i];
        if c == '\\' {
            out.push('\\');
            out.push('\\');
        } else if c == '"' {
            out.push('\\');
            out.push('"');
        } else {
            out.push(c);
        }
        i += 1;
        assert(out@ =~= old(out)@ + escaped(v@.take(i as int)));
    }
    assert(v@.take(v.len() as int) =~= v@);
}

/// `s` with `\` and `"` preceded by a backslash, as it stands between the
/// quotes of a written string.
pub fn escape(s: &str) -> (r: String)
    ensures
        r@ == escaped(s@),
{
    let mut out: Vec<char> = Vec::new();
    push_escaped(&mut out, s);
    assert(out@ =~= escaped(s@));
    crate::text::to_string(&out)
}

fn push_quoted(out: &mut Vec<char>, s: &String)
    ensures
        final(out)@ == old(out)@ + quoted(s@),
{
    out.push('"');
    push_escaped(out, s.as_str());
    out.push('"');
    assert(out@ =~= old(out)@ + quoted(s@));
}

/// Appends ` <value> "<label>"` for each pair.
fn write_value_pairs(out: &mut Vec<char>, ps: &Vec<(i64, String)>)
    ensures
        final(out)@ == old(out)@ + pairs_text(pairs(ps@)),
{
    let ghost pv = pairs(ps@);
    let mut i: usize = 0;
    while i < ps.len()
        invariant
            i <= ps.len(),
            pv == pairs(ps@),
            pv.len() == ps.len(),
            out@ == old(out)@ + pairs_text(pv.take(i as int)),
        decreases ps.len() - i,
    {
        proof {
            lemma_cat_map_step(pv, |p: (i64, Seq<char>)| pair_text(p), i as int);
        }
        let ghost before = out@;
        out.push(' ');
        let v = i64_chars(ps[i].0);
        push_all(out, &v);
        out.push(' ');
        push_quoted(out, &ps[i].1);
        assert(pv[i as int] == (ps@[i as int].0, ps@[i as int].1@));
        assert(out@ =~= before + pair_text(pv[i as int]));
        i += 1;
    }
    assert(pv.take(ps.len() as int) =~= pv);
}

fn push_number(out: &mut Vec<char>, n: &crate::decimal::Number)
    ensures
        final(out)@ == old(out)@ + number_text(n@),
{
    let v = n.to_chars();
    push_all(out, &v);
}

fn push_joined(out: &mut Vec<char>, v: &Vec<String>)
    requires
        v.len() > 0,
    ensures
        final(out)@ == old(out)@ + join(texts(v@), ','),
{
    let ghost tv = texts(v@);
    let first = chars_of(v[0].as_str());
    push_all(out, &first);
    assert(tv.take(1).drop_last() =~= Seq::<Seq<char>>::empty());
    let mut i: usize = 1;
    while i < v.len()
        invariant
            1 <= i <= v.len(),
            tv == texts(v@),
            tv.len() == v.len(),
            out@ == old(out)@ + join(tv.take(i as int), ','),
        decreases v.len() - i,
    {
        out.push(',');
        let t = chars_of(v[i].as_str());
        push_all(out, &t);
        assert(tv.take(i + 1).drop_last() =~= tv.take(i as int));
        i += 1;
        assert(out@ =~= old(out)@ + join(tv.take(i as int), ','));
    }
    assert(tv.take(v.len() as int) =~= tv);
}

fn push_signal_head(out: &mut Vec<char>, s: &Signal)
    ensures
        final(out)@ == old(out)@ + signal_head_text(s@),
{
    push_str(out, " SG_ ");
    push_all(out, &chars_of(s.name.as_str()));
    match s.multiplexer {
        Multiplexer::Normal => {},
        Multiplexer::Multiplexor => {
            out.push(' ');
            out.push('M');
        },
        Multiplexer::Multiplexed(n) => {
            out.push(' ');
            out.push('m');
            push_all(out, &u64_chars(n));
        },
    }
    push_str(out, " : ");
    assert(out@ =~= old(out)@ + signal_head_text(s@));
}

fn push_signal_bits(out: &mut Vec<char>, s: &Signal)
    ensures
        final(out)@ == old(out)@ + signal_bits_text(s@),
{
    push_all(out, &u64_chars(s.start_bit));
    out.push('|');
    push_all(out, &u64_chars(s.size));
    out.push('@');
    match s.byte_order {
        ByteOrder::LittleEndian => out.push('1'),
        ByteOrder::BigEndian => out.push('0'),
    }
    match s.value_type {
        ValueType::Unsigned => out.push('+'),
        ValueType::Signed => out.push('-'),
    }
    assert(out@ =~= old(out)@ + signal_bits_text(s@));
}

fn push_signal_scaling(out: &mut Vec<char>, s: &Signal)
    ensures
        final(out)@ == old(out)@ + signal_scaling_text(s@),
{
    push_str(out, " (");
    push_number(out, &s.factor);
    out.push(',');
    push_number(out, &s.offset);
    push_str(out, ") [");
    push_number(out, &s.min);
    out.push('|');
    push_number(out, &s.max);
    push_str(out, "] ");
    assert(out@ =~= old(out)@ + signal_scaling_text(s@));
}

fn push_signal_tail(out: &mut Vec<char>, s: &Signal)
    ensures
        final(out)@ == old(out)@ + signal_tail_text(s@),
{
    push_quoted(out, &s.unit);
    if s.receivers.len() == 0 {
        out.push(' ');
        push_all(out, &chars_of(vector_xxx_string().as_str()));
    } else {
        out.push(' ');
        push_joined(out, &s.receivers);
    }
    out.push('\n');
    assert(out@ =~= old(out)@ + signal_tail_text(s@));
}

/// Appends a signal line.
fn write_signal(out: &mut Vec<char>, s: &Signal)
    ensures
        final(out)@ == old(out)@ + signal_text(s@),
{
    push_signal_head(out, s);
    push_signal_bits(out, s);
    push_signal_scaling(out, s);
    push_signal_tail(out, s);
    assert(out@ =~= old(out)@ + signal_text(s@));
}

fn push_message(out: &mut Vec<char>, m: &Message)
    ensures
        final(out)@ == old(out)@ + message_text(m@),
{
    push_str(out, "BO_ ");
    push_all(out, &u64_chars(m.id as u64));
    out.push(' ');
    push_all(out, &chars_of(m.name.as_str()));
    push_str(out, ": ");
    push_all(out, &u64_chars(m.size));
    out.push(' ');
    push_all(out, &chars_of(m.transmitter.as_str()));
    out.push('\n');
    let ghost head = out@;
    let ghost sv = m@.signals;
    let mut i: usize = 0;
    while i < m.signals.len()
        invariant
            i <= m.signals.len(),
            sv == m@.signals,
            sv.len() == m.signals.len(),
            out@ == head + cat_map(sv.take(i as int), |s: SignalView| signal_text(s)),
        decreases m.signals.len() - i,
    {
        proof {
            lemma_cat_map_step(sv, |s: SignalView| signal_text(s), i as int);
        }
        assert(sv[i as int] == m.signals@[i as int]@);
        write_signal(out, &m.signals[i]);
        i += 1;
    }
    assert(sv.take(m.signals.len() as int) =~= sv);
    out.push('\n');
    assert(out@ =~= old(out)@ + message_text(m@));
}

/// Renders a database as a `.dbc` document.
pub fn write(dbc: &Dbc) -> (r: String)
    ensures
        r@ == dbc_text(dbc@),
{
    let mut out: Vec<char> = Vec::new();
    let ghost d = dbc@;
    // VERSION
    push_str(&mut out, "VERSION ");
    push_quoted(&mut out, &dbc.version);
    push_str(&mut out, "\n\n");
    // NS_
    push_str(&mut out, "NS_ :\n");
    let ghost ns_start = out@;
    if dbc.new_symbols.len() == 0 {
        let defaults = default_symbol_list();
        push_symbols(&mut out, &defaults);
    } else {
        push_symbols(&mut out, &dbc.new_symbols);
    }
    push_str(&mut out, "\n");
    push_str(&mut out, "BS_:\n\n");
    // Nodes.
    push_str(&mut out, "BU_:");
    let ghost nv = d.nodes;
    let ghost before_nodes = out@;
    let mut i: usize = 0;
    while i < dbc.nodes.len()
        invariant
            i <= dbc.nodes.len(),
            nv == nodes_view(dbc.nodes@),
            nv.len() == dbc.nodes.len(),
            out@ == before_nodes + cat_map(nv.take(i as int), |n: NodeView| seq![' '] + n.name),
        decreases dbc.nodes.len() - i,
    {
        proof {
            lemma_cat_map_step(nv, |n: NodeView| seq![' '] + n.name, i as int);
        }
        let ghost b = out@;
        out.push(' ');
        push_all(&mut out, &chars_of(dbc.nodes[i].name.as_str()));
        assert(out@ =~= b + (seq![' '] + nv[i as int].name));
        i += 1;
    }
    assert(nv.take(nv.len() as int) =~= nv);
    push_str(&mut out, "\n");
    // Value tables.
    let ghost tv = d.value_tables;
    let ghost before_tables = out@;
    let mut i: usize = 0;
    while i < dbc.value_tables.len()
        invariant
            i <= dbc.value_tables.len(),
            tv == tables_view(dbc.value_tables@),
            tv.len() == dbc.value_tables.len(),
            out@ == before_tables + cat_map(tv.take(i as int), |t: ValueTableView| table_text(t)),
        decreases dbc.value_tables.len() - i,
    {
        proof {
            lemma_cat_map_step(tv, |t: ValueTableView| table_text(t), i as int);
        }
        let ghost b = out@;
        let t = &dbc.value_tables[i];
        push_str(&mut out, "VAL_TABLE_ ");
        push_all(&mut out, &chars_of(t.name.as_str()));
        write_value_pairs(&mut out, &t.values);
        push_str(&mut out, " ;\n");
        assert(out@ =~= b + table_text(tv[i as int]));
        i += 1;
    }
    assert(tv.take(tv.len() as int) =~= tv);
    push_str(&mut out, "\n");
    assert(out@ =~= header_text(d));
    // Messages.
    let ghost mv = d.messages;
    let ghost before_msgs = out@;
    let mut i: usize = 0;
    while i < dbc.messages.len()
        invariant
            i <= dbc.messages.len(),
            mv == messages_view(dbc.messages@),
            mv.len() == dbc.messages.len(),
            d.messages == mv,
            out@ == before_msgs + cat_map(mv.take(i as int), |m: MessageView| message_text(m)),
        decreases dbc.messages.len() - i,
    {
        proof {
            lemma_cat_map_step(mv, |m: MessageView| message_text(m), i as int);
        }
        push_message(&mut out, &dbc.messages[i]);
        i += 1;
    }
    assert(mv.take(mv.len() as int) =~= mv);
    let ghost body = out@;
    push_trailer(&mut out, dbc);
    assert(out@ =~= dbc_text(d));
    to_string(&out)
}

fn default_symbol_list() -> (r: Vec<String>)
    ensures
        texts(r@) == default_symbols(),
{
    let mut r: Vec<String> = Vec::new();
    r.push(String::from_str("NS_DESC_"));
    r.push(String::from_str("CM_"));
    r.push(String::from_str("BA_DEF_"));
    r.push(String::from_str("BA_"));
    r.push(String::from_str("VAL_"));
    r.push(String::from_str("CAT_DEF_"));
    r.push(String::from_str("CAT_"));
    r.push(String::from_str("FILTER"));
    r.push(String::from_str("BA_DEF_DEF_"));
    r.push(String::from_str("EV_DATA_"));
    r.push(String::from_str("ENVVAR_DATA_"));
    r.push(String::from_str("SGTYPE_"));
    r.push(String::from_str("SGTYPE_VAL_"));
    r.push(String::from_str("BA_DEF_SGTYPE_"));
    r.push(String::from_str("BA_SGTYPE_"));
    r.push(String::from_str("SIG_TYPE_REF_"));
    r.push(String::from_str("VAL_TABLE_"));
    r.push(String::from_str("SIG_GROUP_"));
    r.push(String::from_str("SIG_VALTYPE_"));
    r.push(String::from_str("SIGTYPE_VALTYPE_"));
    r.push(String::from_str("BO_TX_BU_"));
    r.push(String::from_str("BA_DEF_REL_"));
    r.push(String::from_str("BA_REL_"));
    r.push(String::from_str("BA_DEF_DEF_REL_"));
    r.push(String::from_str("BU_SG_REL_"));
    r.push(String::from_str("BU_EV_REL_"));
    r.push(String::from_str("BU_BO_REL_"));
    r.push(String::from_str("SG_MUL_VAL_"));
    r.push(String::from_str("NS_DESC_"));
    r.push(String::from_str("CM_"));
    assert(texts(r@) =~= default_symbols());
    r
}

fn push_symbols(out: &mut Vec<char>, syms: &Vec<String>)
    ensures
        final(out)@ == old(out)@ + cat_map(texts(syms@), |s: Seq<char>| symbol_line(s)),
{
    let ghost sv = texts(syms@);
    let mut i: usize = 0;
    while i < syms.len()
        invariant
            i <= syms.len(),
            sv == texts(syms@),
            sv.len() == syms.len(),
            out@ == old(out)@ + cat_map(sv.take(i as int), |s: Seq<char>| symbol_line(s)),
        decreases syms.len() - i,
    {
        proof {
            lemma_cat_map_step(sv, |s: Seq<char>| symbol_line(s), i as int);
        }
        let ghost b = out@;
        out.push('\t');
        push_all(out, &chars_of(syms[i].as_str()));
        out.push('\n');
        assert(out@ =~= b + symbol_line(sv[i as int]));
        i += 1;
    }
    assert(sv.take(sv.len() as int) =~= sv);
}

fn push_trailer(out: &mut Vec<char>, dbc: &Dbc)
    ensures
        final(out)@ == old(out)@ + trailer_text(dbc@),
{
    let ghost d = dbc@;
    // Network comment.
    match &dbc.comment {
        Some(c) => {
            push_str(out, "CM_ ");
            push_quoted(out, c);
            push_str(out, ";\n");
        },
        None => {},
    }
    let ghost part1 = out@;
    // Node comments.
    let ghost nv = d.nodes;
    let mut i: usize = 0;
    while i < dbc.nodes.len()
        invariant
            i <= dbc.nodes.len(),
            nv == nodes_view(dbc.nodes@),
            nv.len() == dbc.nodes.len(),
            out@ == part1 + cat_map(nv.take(i as int), |n: NodeView| node_comment_text(n)),
        decreases dbc.nodes.len() - i,
    {
        proof {
            lemma_cat_map_step(nv, |n: NodeView| node_comment_text(n), i as int);
        }
        let ghost b = out@;
        let n = &dbc.nodes[i];
        match &n.comment {
            Some(c) => {
                push_str(out, "CM_ BU_ ");
                push_all(out, &chars_of(n.name.as_str()));
                out.push(' ');
                push_quoted(out, c);
                push_str(out, ";\n");
            },
            None => {},
        }
        assert(out@ =~= b + node_comment_text(nv[i as int]));
        i += 1;
    }
    assert(nv.take(nv.len() as int) =~= nv);
    let ghost part2 = out@;
    // Message comments.
    let ghost mv = d.messages;
    let mut i: usize = 0;
    while i < dbc.messages.len()
        invariant
            i <= dbc.messages.len(),
            mv == messages_view(dbc.messages@),
            mv.len() == dbc.messages.len(),
            out@ == part2 + cat_map(mv.take(i as int), |m: MessageView| message_comment_text(m)),
        decreases dbc.messages.len() - i,
    {
        proof {
            lemma_cat_map_step(mv, |m: MessageView| message_comment_text(m), i as int);
        }
        let ghost b = out@;
        let m = &dbc.messages[i];
        match &m.comment {
            Some(c) => {
                push_str(out, "CM_ BO_ ");
                push_all(out, &u64_chars(m.id as u64));
                out.push(' ');
                push_quoted(out, c);
                push_str(out, ";\n");
            },
            None => {},
        }
        assert(out@ =~= b + message_comment_text(mv[i as int]));
        i += 1;
    }
    assert(mv.take(mv.len() as int) =~= mv);
    let ghost part3 = out@;
    // Signal comments.
    let mut i: usize = 0;
    while i < dbc.messages.len()
        invariant
            i <= dbc.messages.len(),
            mv == messages_view(dbc.messages@),
            mv.len() == dbc.messages.len(),
            out@ == part3 + cat_map(
                mv.take(i as int),
                |m: MessageView| message_signal_comments(m),
            ),
        decreases dbc.messages.len() - i,
    {
        proof {
            lemma_cat_map_step(mv, |m: MessageView| message_signal_comments(m), i as int);
        }
        push_signal_comments(out, &dbc.messages[i]);
        i += 1;
    }
    let ghost part4 = out@;
    // Kept lines.
    let ghost ev = d.extra;
    let mut i: usize = 0;
    while i < dbc.extra.len()
        invariant
            i <= dbc.extra.len(),
            ev == texts(dbc.extra@),
            ev.len() == dbc.extra.len(),
            out@ == part4 + cat_map(ev.take(i as int), |e: Seq<char>| e + seq!['\n']),
        decreases dbc.extra.len() - i,
    {
        proof {
            lemma_cat_map_step(ev, |e: Seq<char>| e + seq!['\n'], i as int);
        }
        let ghost b = out@;
        push_all(out, &chars_of(dbc.extra[i].as_str()));
        out.push('\n');
        assert(out@ =~= b + (ev[i as int] + seq!['\n']));
        i += 1;
    }
    assert(ev.take(ev.len() as int) =~= ev);
    let ghost part5 = out@;
    // Value descriptions.
    let mut i: usize = 0;
    while i < dbc.messages.len()
        invariant
            i <= dbc.messages.len(),
            mv == messages_view(dbc.messages@),
            mv.len() == dbc.messages.len(),
            out@ == part5 + cat_map(mv.take(i as int), |m: MessageView| message_signal_values(m)),
        decreases dbc.messages.len() - i,
    {
        proof {
            lemma_cat_map_step(mv, |m: MessageView| message_signal_values(m), i as int);
        }
        push_signal_values(out, &dbc.messages[i]);
        i += 1;
    }
    assert(out@ =~= old(out)@ + trailer_text(d));
}

fn push_signal_comments(out: &mut Vec<char>, m: &Message)
    ensures
        final(out)@ == old(out)@ + message_signal_comments(m@),
{
    let ghost sv = m@.signals;
    let mut i: usize = 0;
    while i < m.signals.len()
        invariant
            i <= m.signals.len(),
            sv == m@.signals,
            sv.len() == m.signals.len(),
            out@ == old(out)@ + cat_map(
                sv.take(i as int),
                |s: SignalView| signal_comment_text(m.id, s),
            ),
        decreases m.signals.len() - i,
    {
        proof {
            lemma_cat_map_step(sv, |s: SignalView| signal_comment_text(m.id, s), i as int);
        }
        let ghost b = out@;
        let s = &m.signals[i];
        match &s.comment {
            Some(c) => {
                push_str(out, "CM_ SG_ ");
                push_all(out, &u64_chars(m.id as u64));
                out.push(' ');
                push_all(out, &chars_of(s.name.as_str()));
                out.push(' ');
                push_quoted(out, c);
                push_str(out, ";\n");
            },
            None => {},
        }
        assert(out@ =~= b + signal_comment_text(m.id, sv[i as int]));
        i += 1;
    }
    assert(sv.take(sv.len() as int) =~= sv);
}

fn push_signal_values(out: &mut Vec<char>, m: &Message)
    ensures
        final(out)@ == old(out)@ + message_signal_values(m@),
{
    let ghost sv = m@.signals;
    let mut i: usize = 0;
    while i < m.signals.len()
        invariant
            i <= m.signals.len(),
            sv == m@.signals,
            sv.len() == m.signals.len(),
            out@ == old(out)@ + cat_map(
                sv.take(i as int),
                |s: SignalView| signal_values_text(m.id, s),
            ),
        decreases m.signals.len() - i,
    {
        proof {
            lemma_cat_map_step(sv, |s: SignalView| signal_values_text(m.id, s), i as int);
        }
        let ghost b = out@;
        let s = &m.signals[i];
        if s.value_descriptions.len() > 0 {
            push_str(out, "VAL_ ");
            push_all(out, &u64_chars(m.id as u64));
            out.push(' ');
            push_all(out, &chars_of(s.name.as_str()));
            write_value_pairs(out, &s.value_descriptions);
            push_str(out, " ;\n");
        }
        assert(out@ =~= b + signal_values_text(m.id, sv[i as int]));
        i += 1;
    }
    assert(sv.take(sv.len() as int) =~= sv);
}

} // verus!
