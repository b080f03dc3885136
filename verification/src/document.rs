//! The written document as a sequence of physical lines.
use vstd::prelude::*;
use crate::lines::{lemma_cat_map_append, lemma_cat_map_single, lemma_text_as_lines, nl};
use crate::text::split_on;
use crate::model::{DbcView, MessageView, NodeView, SignalView, ValueTableView};
use crate::numbers::nat_text;
use crate::writer::{
    cat_map, dbc_text, header_text, message_comment_text, message_signal_comments,
    message_signal_values, message_text, node_comment_text, pairs_text, quoted, receivers_text,
    signal_bits_text, signal_comment_text, signal_head_text, signal_scaling_text, signal_text,
    signal_values_text, symbol_line, table_text, trailer_text, written_symbols,
};

verus! {

/// The concatenation of `f(x)` over `xs`, in order.
pub open spec fn flat_map<T, U>(xs: Seq<T>, f: spec_fn(T) -> Seq<U>) -> Seq<U>
    decreases xs.len(),
{
    if xs.len() == 0 {
        Seq::empty()
    } else {
        flat_map(xs.drop_last(), f) + f(xs.last())
    }
}

pub proof fn lemma_flat_map_take<T, U>(xs: Seq<T>, f: spec_fn(T) -> Seq<U>, k: int)
    requires
        0 <= k < xs.len(),
    ensures
        flat_map(xs.take(k + 1), f) == flat_map(xs.take(k), f) + f(xs[k]),
{
    assert(xs.take(k + 1).drop_last() =~= xs.take(k));
}

pub proof fn lemma_flat_map_append<T, U>(xs: Seq<T>, ys: Seq<T>, f: spec_fn(T) -> Seq<U>)
    ensures
        flat_map(xs + ys, f) == flat_map(xs, f) + flat_map(ys, f),
    decreases ys.len(),
{
    if ys.len() == 0 {
        assert(xs + ys =~= xs);
        assert(flat_map(xs, f) + Seq::<U>::empty() =~= flat_map(xs, f));
    } else {
        lemma_flat_map_append(xs, ys.drop_last(), f);
        assert((xs + ys).drop_last() =~= xs + ys.drop_last());
        assert((xs + ys).last() == ys.last());
        assert(flat_map(xs, f) + flat_map(ys.drop_last(), f) + f(ys.last()) =~= flat_map(xs, f)
            + (flat_map(ys.drop_last(), f) + f(ys.last())));
    }
}

pub proof fn lemma_cat_map_congr<T>(xs: Seq<T>, f: spec_fn(T) -> Seq<char>, g: spec_fn(T) -> Seq<char>)
    requires
        forall|i: int| 0 <= i < xs.len() ==> f(#[trigger] xs[i]) == g(xs[i]),
    ensures
        cat_map(xs, f) == cat_map(xs, g),
    decreases xs.len(),
{
    if xs.len() > 0 {
        let ys = xs.drop_last();
        assert forall|i: int| 0 <= i < ys.len() implies f(#[trigger] ys[i]) == g(ys[i]) by {
            assert(ys[i] == xs[i]);
        }
        lemma_cat_map_congr(ys, f, g);
        assert(f(xs[xs.len() - 1]) == g(xs[xs.len() - 1]));
    }
}

pub proof fn lemma_cat_map_map<T>(xs: Seq<T>, g: spec_fn(T) -> Seq<char>, f: spec_fn(Seq<char>) -> Seq<char>)
    ensures
        cat_map(xs.map_values(g), f) == cat_map(xs, |x: T| f(g(x))),
    decreases xs.len(),
{
    if xs.len() > 0 {
        lemma_cat_map_map(xs.drop_last(), g, f);
        assert(xs.map_values(g).drop_last() =~= xs.drop_last().map_values(g));
    }
}

/// The lines of `flat_map(xs, f)` with their breaks are those of each `f(x)`.
pub proof fn lemma_flat_map_lines<T>(xs: Seq<T>, f: spec_fn(T) -> Seq<Seq<char>>)
    ensures
        cat_map(flat_map(xs, f), |l: Seq<char>| nl(l)) == cat_map(
            xs,
            |x: T| cat_map(f(x), |l: Seq<char>| nl(l)),
        ),
    decreases xs.len(),
{
    if xs.len() > 0 {
        lemma_flat_map_lines(xs.drop_last(), f);
        lemma_cat_map_append(flat_map(xs.drop_last(), f), f(xs.last()), |l: Seq<char>| nl(l));
    }
}

pub proof fn lemma_cat_map_two<T>(x: T, y: T, f: spec_fn(T) -> Seq<char>)
    ensures
        cat_map(seq![x, y], f) == f(x) + f(y),
{
    lemma_cat_map_append(seq![x], seq![y], f);
    lemma_cat_map_single(x, f);
    lemma_cat_map_single(y, f);
    assert(seq![x] + seq![y] =~= seq![x, y]);
}

// ---------------------------------------------------------------------------
// The lines.
/// The physical lines of a row whose text may hold line breaks.
pub open spec fn row_lines(r: Seq<char>) -> Seq<Seq<char>> {
    split_on(r, '\n')
}

pub open spec fn version_line(d: DbcView) -> Seq<char> {
    "VERSION "@ + quoted(d.version)
}

pub open spec fn symbol_row(s: Seq<char>) -> Seq<char> {
    seq!['\t'] + s
}

pub open spec fn nodes_line(d: DbcView) -> Seq<char> {
    "BU_:"@ + cat_map(d.nodes, |n: NodeView| seq![' '] + n.name)
}

pub open spec fn table_line(t: ValueTableView) -> Seq<char> {
    "VAL_TABLE_ "@ + t.name + pairs_text(t.values) + " ;"@
}

pub open spec fn message_line(m: MessageView) -> Seq<char> {
    "BO_ "@ + nat_text(m.id as nat) + seq![' '] + m.name + ": "@ + nat_text(m.size as nat) + seq![
        ' ',
    ] + m.transmitter
}

pub open spec fn signal_line(s: SignalView) -> Seq<char> {
    signal_head_text(s) + signal_bits_text(s) + signal_scaling_text(s) + quoted(s.unit)
        + receivers_text(s.receivers)
}

pub open spec fn message_rows(m: MessageView) -> Seq<Seq<char>> {
    seq![message_line(m)] + m.signals.map_values(|s: SignalView| signal_line(s)) + seq![
        Seq::<char>::empty(),
    ]
}

pub open spec fn messages_rows(ms: Seq<MessageView>) -> Seq<Seq<char>> {
    flat_map(ms, |m: MessageView| message_rows(m))
}

pub open spec fn header_rows(d: DbcView) -> Seq<Seq<char>> {
    seq![version_line(d), Seq::<char>::empty(), "NS_ :"@] + written_symbols(d).map_values(
        |s: Seq<char>| symbol_row(s),
    ) + seq![Seq::<char>::empty(), "BS_:"@, Seq::<char>::empty(), nodes_line(d)]
        + flat_map(d.value_tables, |t: ValueTableView| row_lines(table_line(t))) + seq![
        Seq::<char>::empty(),
    ]
}

pub open spec fn network_comment_rows(d: DbcView) -> Seq<Seq<char>> {
    match d.comment {
        Some(c) => row_lines("CM_ "@ + quoted(c) + seq![';']),
        None => Seq::empty(),
    }
}

pub open spec fn node_comment_rows(n: NodeView) -> Seq<Seq<char>> {
    match n.comment {
        Some(c) => row_lines("CM_ BU_ "@ + n.name + seq![' '] + quoted(c) + seq![';']),
        None => Seq::empty(),
    }
}

pub open spec fn message_comment_rows(m: MessageView) -> Seq<Seq<char>> {
    match m.comment {
        Some(c) => row_lines("CM_ BO_ "@ + nat_text(m.id as nat) + seq![' '] + quoted(c) + seq![';']),
        None => Seq::empty(),
    }
}

pub open spec fn signal_comment_rows(id: u32, s: SignalView) -> Seq<Seq<char>> {
    match s.comment {
        Some(c) => row_lines(
            "CM_ SG_ "@ + nat_text(id as nat) + seq![' '] + s.name + seq![' '] + quoted(c) + seq![';'],
        ),
        None => Seq::empty(),
    }
}

pub open spec fn values_line(id: u32, s: SignalView) -> Seq<char> {
    "VAL_ "@ + nat_text(id as nat) + seq![' '] + s.name + pairs_text(s.value_descriptions) + " ;"@
}

pub open spec fn signal_values_rows(id: u32, s: SignalView) -> Seq<Seq<char>> {
    if s.value_descriptions.len() == 0 {
        Seq::empty()
    } else {
        row_lines(values_line(id, s))
    }
}

pub open spec fn message_signal_comment_rows(m: MessageView) -> Seq<Seq<char>> {
    flat_map(m.signals, |s: SignalView| signal_comment_rows(m.id, s))
}

pub open spec fn message_signal_values_rows(m: MessageView) -> Seq<Seq<char>> {
    flat_map(m.signals, |s: SignalView| signal_values_rows(m.id, s))
}

pub open spec fn comment_rows(d: DbcView) -> Seq<Seq<char>> {
    network_comment_rows(d) + flat_map(d.nodes, |n: NodeView| node_comment_rows(n)) + flat_map(
        d.messages,
        |m: MessageView| message_comment_rows(m),
    ) + flat_map(d.messages, |m: MessageView| message_signal_comment_rows(m))
}

pub open spec fn trailer_rows(d: DbcView) -> Seq<Seq<char>> {
    comment_rows(d) + flat_map(d.extra, |e: Seq<char>| row_lines(e)) + flat_map(
        d.messages,
        |m: MessageView| message_signal_values_rows(m),
    )
}

/// The physical lines of the written document, each ended by a line break.
pub open spec fn document_rows(d: DbcView) -> Seq<Seq<char>> {
    header_rows(d) + flat_map(d.messages, |m: MessageView| message_rows(m)) + trailer_rows(d)
}

// ---------------------------------------------------------------------------
// The text is those lines.
pub open spec fn lined(rows: Seq<Seq<char>>) -> Seq<char> {
    cat_map(rows, |l: Seq<char>| nl(l))
}

pub proof fn lemma_lined_append(a: Seq<Seq<char>>, b: Seq<Seq<char>>)
    ensures
        lined(a + b) == lined(a) + lined(b),
{
    lemma_cat_map_append(a, b, |l: Seq<char>| nl(l));
}

pub proof fn lemma_lined_single(l: Seq<char>)
    ensures
        lined(seq![l]) == l + seq!['\n'],
{
    lemma_cat_map_single(l, |l: Seq<char>| nl(l));
}

/// A row's lines, each with its break, are the row and a break.
pub proof fn lemma_row_lines_lined(r: Seq<char>)
    ensures
        lined(row_lines(r)) == r + seq!['\n'],
{
    lemma_text_as_lines(r);
}

pub proof fn lemma_lined_map<T>(xs: Seq<T>, g: spec_fn(T) -> Seq<char>, h: spec_fn(T) -> Seq<char>)
    requires
        forall|i: int| 0 <= i < xs.len() ==> #[trigger] h(xs[i]) == g(xs[i]) + seq!['\n'],
    ensures
        lined(xs.map_values(g)) == cat_map(xs, h),
    decreases xs.len(),
{
    if xs.len() > 0 {
        let ys = xs.drop_last();
        assert forall|i: int| 0 <= i < ys.len() implies #[trigger] h(ys[i]) == g(ys[i]) + seq!['\n'] by {
            assert(ys[i] == xs[i]);
        }
        lemma_lined_map(ys, g, h);
        assert(xs.map_values(g).drop_last() =~= ys.map_values(g));
        assert(h(xs[xs.len() - 1]) == g(xs[xs.len() - 1]) + seq!['\n']);
    }
}

pub proof fn lemma_lined_flat<T>(xs: Seq<T>, f: spec_fn(T) -> Seq<Seq<char>>, h: spec_fn(T) -> Seq<char>)
    requires
        forall|i: int| 0 <= i < xs.len() ==> #[trigger] h(xs[i]) == lined(f(xs[i])),
    ensures
        lined(flat_map(xs, f)) == cat_map(xs, h),
{
    lemma_flat_map_lines(xs, f);
    let g = |x: T| cat_map(f(x), |l: Seq<char>| nl(l));
    assert forall|i: int| 0 <= i < xs.len() implies g(#[trigger] xs[i]) == h(xs[i]) by {
        assert(h(xs[i]) == lined(f(xs[i])));
    }
    lemma_cat_map_congr(xs, g, h);
}

pub proof fn lemma_header_front(d: DbcView)
    ensures
        lined(seq![version_line(d), Seq::<char>::empty(), "NS_ :"@]) == "VERSION "@ + quoted(d.version)
            + "\n\n"@ + "NS_ :\n"@,
{
    reveal_strlit("\n\n");
    reveal_strlit("NS_ :");
    reveal_strlit("NS_ :\n");
    let e = Seq::<char>::empty();
    lemma_lined_append(seq![version_line(d), e], seq!["NS_ :"@]);
    assert(seq![version_line(d), e] + seq!["NS_ :"@] =~= seq![version_line(d), e, "NS_ :"@]);
    lemma_cat_map_two(version_line(d), e, |l: Seq<char>| nl(l));
    lemma_lined_single("NS_ :"@);
    assert(lined(seq![version_line(d), e, "NS_ :"@]) =~= "VERSION "@ + quoted(d.version) + "\n\n"@
        + "NS_ :\n"@);
}

proof fn lemma_header_middle(d: DbcView)
    ensures
        lined(seq![Seq::<char>::empty(), "BS_:"@, Seq::<char>::empty(), nodes_line(d)]) == "\n"@
            + "BS_:\n\n"@ + "BU_:"@ + cat_map(d.nodes, |n: NodeView| seq![' '] + n.name) + "\n"@,
{
    reveal_strlit("BS_:");
    reveal_strlit("BS_:\n\n");
    reveal_strlit("\n");
    let e = Seq::<char>::empty();
    lemma_lined_append(seq![e, "BS_:"@], seq![e, nodes_line(d)]);
    assert(seq![e, "BS_:"@] + seq![e, nodes_line(d)] =~= seq![e, "BS_:"@, e, nodes_line(d)]);
    lemma_cat_map_two(e, "BS_:"@, |l: Seq<char>| nl(l));
    lemma_cat_map_two(e, nodes_line(d), |l: Seq<char>| nl(l));
    assert(lined(seq![e, "BS_:"@, e, nodes_line(d)]) =~= "\n"@ + "BS_:\n\n"@ + "BU_:"@ + cat_map(
        d.nodes,
        |n: NodeView| seq![' '] + n.name,
    ) + "\n"@);
}

proof fn lemma_tables_lined(ts: Seq<ValueTableView>)
    ensures
        lined(flat_map(ts, |t: ValueTableView| row_lines(table_line(t)))) == cat_map(
            ts,
            |t: ValueTableView| table_text(t),
        ),
{
    reveal_strlit(" ;");
    reveal_strlit(" ;\n");
    assert forall|i: int| 0 <= i < ts.len() implies #[trigger] table_text(ts[i]) == lined(
        row_lines(table_line(ts[i])),
    ) by {
        let x = ts[i];
        lemma_row_lines_lined(table_line(x));
        assert(table_text(x) =~= table_line(x) + seq!['\n']);
    }
    lemma_lined_flat(
        ts,
        |t: ValueTableView| row_lines(table_line(t)),
        |t: ValueTableView| table_text(t),
    );
}

proof fn lemma_header_lined(d: DbcView)
    ensures
        lined(header_rows(d)) == header_text(d),
{
    reveal_strlit("\n");
    let e = Seq::<char>::empty();
    let a = seq![version_line(d), e, "NS_ :"@];
    let b = written_symbols(d).map_values(|s: Seq<char>| symbol_row(s));
    let c = seq![e, "BS_:"@, e, nodes_line(d)];
    let t = flat_map(d.value_tables, |t: ValueTableView| row_lines(table_line(t)));
    let z = seq![e];
    lemma_lined_append(a + b + c + t, z);
    lemma_lined_append(a + b + c, t);
    lemma_lined_append(a + b, c);
    lemma_lined_append(a, b);
    lemma_header_front(d);
    lemma_header_middle(d);
    lemma_lined_single(e);
    lemma_lined_map(written_symbols(d), |s: Seq<char>| symbol_row(s), |s: Seq<char>| symbol_line(s));
    lemma_tables_lined(d.value_tables);
    assert(lined(z) =~= "\n"@);
    assert(lined(header_rows(d)) =~= header_text(d));
}

proof fn lemma_message_lined(m: MessageView)
    ensures
        lined(message_rows(m)) == message_text(m),
{
    let a = seq![message_line(m)];
    let b = m.signals.map_values(|s: SignalView| signal_line(s));
    let z = seq![Seq::<char>::empty()];
    lemma_lined_append(a + b, z);
    lemma_lined_append(a, b);
    lemma_lined_single(message_line(m));
    lemma_lined_single(Seq::<char>::empty());
    assert forall|i: int| 0 <= i < m.signals.len() implies #[trigger] signal_text(m.signals[i])
        == signal_line(m.signals[i]) + seq!['\n'] by {
        let s = m.signals[i];
        assert(signal_text(s) =~= signal_line(s) + seq!['\n']);
    }
    lemma_lined_map(m.signals, |s: SignalView| signal_line(s), |s: SignalView| signal_text(s));
    assert(lined(message_rows(m)) =~= message_text(m));
}

proof fn lemma_trailer_lined(d: DbcView)
    ensures
        lined(trailer_rows(d)) == trailer_text(d),
{
    reveal_strlit(";\n");
    reveal_strlit(" ;");
    reveal_strlit(" ;\n");
    let n = network_comment_rows(d);
    let nc = flat_map(d.nodes, |n: NodeView| node_comment_rows(n));
    let mc = flat_map(d.messages, |m: MessageView| message_comment_rows(m));
    let sc = flat_map(d.messages, |m: MessageView| message_signal_comment_rows(m));
    let ex = flat_map(d.extra, |e: Seq<char>| row_lines(e));
    let vd = flat_map(d.messages, |m: MessageView| message_signal_values_rows(m));
    lemma_lined_append(n + nc + mc + sc + ex, vd);
    lemma_lined_append(n + nc + mc + sc, ex);
    lemma_lined_append(n + nc + mc, sc);
    lemma_lined_append(n + nc, mc);
    lemma_lined_append(n, nc);
    match d.comment {
        Some(c) => {
            lemma_row_lines_lined("CM_ "@ + quoted(c) + seq![';']);
            assert(lined(n) =~= "CM_ "@ + quoted(c) + ";\n"@);
        },
        None => {},
    }
    assert forall|i: int| 0 <= i < d.nodes.len() implies #[trigger] node_comment_text(d.nodes[i])
        == lined(node_comment_rows(d.nodes[i])) by {
        let x = d.nodes[i];
        match x.comment {
            Some(c) => {
                lemma_row_lines_lined("CM_ BU_ "@ + x.name + seq![' '] + quoted(c) + seq![';']);
                assert(node_comment_text(x) =~= lined(node_comment_rows(x)));
            },
            None => {},
        }
    }
    lemma_lined_flat(d.nodes, |n: NodeView| node_comment_rows(n), |n: NodeView| node_comment_text(n));
    assert forall|i: int| 0 <= i < d.messages.len() implies #[trigger] message_comment_text(
        d.messages[i],
    ) == lined(message_comment_rows(d.messages[i])) by {
        let x = d.messages[i];
        match x.comment {
            Some(c) => {
                lemma_row_lines_lined(
                    "CM_ BO_ "@ + nat_text(x.id as nat) + seq![' '] + quoted(c) + seq![';'],
                );
                assert(message_comment_text(x) =~= lined(message_comment_rows(x)));
            },
            None => {},
        }
    }
    lemma_lined_flat(
        d.messages,
        |m: MessageView| message_comment_rows(m),
        |m: MessageView| message_comment_text(m),
    );
    assert forall|i: int| 0 <= i < d.messages.len() implies #[trigger] message_signal_comments(
        d.messages[i],
    ) == lined(message_signal_comment_rows(d.messages[i])) by {
        let m = d.messages[i];
        assert forall|k: int| 0 <= k < m.signals.len() implies #[trigger] signal_comment_text(
            m.id,
            m.signals[k],
        ) == lined(signal_comment_rows(m.id, m.signals[k])) by {
            let s = m.signals[k];
            match s.comment {
                Some(c) => {
                    lemma_row_lines_lined(
                        "CM_ SG_ "@ + nat_text(m.id as nat) + seq![' '] + s.name + seq![' '] + quoted(c)
                            + seq![';'],
                    );
                    assert(signal_comment_text(m.id, s) =~= lined(signal_comment_rows(m.id, s)));
                },
                None => {},
            }
        }
        lemma_lined_flat(
            m.signals,
            |s: SignalView| signal_comment_rows(m.id, s),
            |s: SignalView| signal_comment_text(m.id, s),
        );
    }
    lemma_lined_flat(
        d.messages,
        |m: MessageView| message_signal_comment_rows(m),
        |m: MessageView| message_signal_comments(m),
    );
    assert forall|i: int| 0 <= i < d.extra.len() implies #[trigger] (d.extra[i] + seq!['\n']) == lined(
        row_lines(d.extra[i]),
    ) by {
        lemma_row_lines_lined(d.extra[i]);
    }
    lemma_lined_flat(d.extra, |e: Seq<char>| row_lines(e), |e: Seq<char>| e + seq!['\n']);
    assert forall|i: int| 0 <= i < d.messages.len() implies #[trigger] message_signal_values(
        d.messages[i],
    ) == lined(message_signal_values_rows(d.messages[i])) by {
        let m = d.messages[i];
        assert forall|k: int| 0 <= k < m.signals.len() implies #[trigger] signal_values_text(
            m.id,
            m.signals[k],
        ) == lined(signal_values_rows(m.id, m.signals[k])) by {
            let s = m.signals[k];
            if s.value_descriptions.len() > 0 {
                lemma_row_lines_lined(
                    "VAL_ "@ + nat_text(m.id as nat) + seq![' '] + s.name + pairs_text(
                        s.value_descriptions,
                    ) + " ;"@,
                );
                assert(signal_values_text(m.id, s) =~= lined(signal_values_rows(m.id, s)));
            }
        }
        lemma_lined_flat(
            m.signals,
            |s: SignalView| signal_values_rows(m.id, s),
            |s: SignalView| signal_values_text(m.id, s),
        );
    }
    lemma_lined_flat(
        d.messages,
        |m: MessageView| message_signal_values_rows(m),
        |m: MessageView| message_signal_values(m),
    );
    assert(lined(trailer_rows(d)) =~= trailer_text(d));
}

/// The written document is its rows, each followed by a line break.
pub proof fn lemma_document_lined(d: DbcView)
    ensures
        lined(document_rows(d)) == dbc_text(d),
{
    let h = header_rows(d);
    let m = flat_map(d.messages, |m: MessageView| message_rows(m));
    let t = trailer_rows(d);
    lemma_lined_append(h + m, t);
    lemma_lined_append(h, m);
    lemma_header_lined(d);
    lemma_trailer_lined(d);
    assert forall|i: int| 0 <= i < d.messages.len() implies #[trigger] message_text(d.messages[i])
        == lined(message_rows(d.messages[i])) by {
        lemma_message_lined(d.messages[i]);
    }
    lemma_lined_flat(d.messages, |m: MessageView| message_rows(m), |m: MessageView| message_text(m));
}

} // verus!
