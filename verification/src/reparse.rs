//! The parse of a written document, block by block.
use vstd::prelude::*;
use crate::document::{
    row_lines, comment_rows, document_rows, flat_map, header_rows, message_comment_rows, trailer_rows, message_rows, messages_rows, network_comment_rows,
    message_signal_comment_rows, message_signal_values_rows, node_comment_rows,
    signal_comment_rows, signal_values_rows, nodes_line, signal_line, symbol_row, table_line,
    version_line,
};
use crate::model::{DbcView, MessageView, NodeView, SignalView, ValueTableView};
use crate::lines::lacks;
use crate::parser::{
    empty_dbc, initial_state, parse_from, CommentView, ParseOutcome, ParseState, ValDefView,
};
use crate::writer::quoted;
use crate::reread::{
    lemma_parse_next, lemma_read_message_comment, lemma_read_network_comment,
    lemma_read_node_comment, lemma_read_signal_comment, lemma_step_bs, lemma_step_comment_row, lemma_step_kept, lemma_step_values, lemma_step_empty, lemma_step_message, lemma_step_nodes,
    lemma_step_ns, lemma_step_signal, lemma_step_table, lemma_step_version,
};
use crate::roundtrip::{
    is_name, lemma_symbols_wf, wf_dbc, wf_message, wf_node, wf_signal, wf_symbol, wf_table,
};
use crate::writer::written_symbols;

verus! {

pub open spec fn bare_node(n: NodeView) -> NodeView {
    NodeView { name: n.name, comment: None }
}

/// The state after the header: everything but messages, comments, value
/// descriptions and kept lines.
pub open spec fn header_state(d: DbcView) -> ParseState {
    ParseState {
        dbc: DbcView {
            version: d.version,
            new_symbols: written_symbols(d),
            nodes: d.nodes.map_values(|n: NodeView| NodeView { name: n.name, comment: None }),
            value_tables: d.value_tables,
            messages: Seq::empty(),
            comment: None,
            extra: Seq::empty(),
        },
        comments: Seq::empty(),
        values: Seq::empty(),
    }
}

/// The outcome of the parse from line `i` on, kept folded in the block
/// lemmas below.
#[verifier::opaque]
pub open spec fn outcome_from(lines: Seq<Seq<char>>, i: int, st: ParseState) -> ParseOutcome {
    parse_from(lines, i, st)
}

proof fn lemma_adv_empty(lines: Seq<Seq<char>>, i: int, st: ParseState)
    requires
        0 <= i < lines.len(),
        lines[i] == Seq::<char>::empty(),
    ensures
        outcome_from(lines, i, st) == outcome_from(lines, i + 1, st),
{
    reveal(outcome_from);
    lemma_step_empty(lines, i, st);
    lemma_parse_next(lines, i, st, i + 1, st);
}

proof fn lemma_adv_message(lines: Seq<Seq<char>>, i: int, st: ParseState, m: MessageView)
    requires
        0 <= i < lines.len(),
        lines[i] == crate::document::message_line(m),
        wf_message(m),
    ensures
        outcome_from(lines, i, st) == outcome_from(
            lines,
            i + 1,
            ParseState {
                dbc: DbcView {
                    messages: st.dbc.messages.push(
                        MessageView { signals: Seq::empty(), comment: None, ..m },
                    ),
                    ..st.dbc
                },
                ..st
            },
        ),
{
    reveal(outcome_from);
    lemma_step_message(lines, i, st, m);
    lemma_parse_next(
        lines,
        i,
        st,
        i + 1,
        ParseState {
            dbc: DbcView {
                messages: st.dbc.messages.push(MessageView { signals: Seq::empty(), comment: None, ..m }),
                ..st.dbc
            },
            ..st
        },
    );
}

proof fn lemma_adv_signal(lines: Seq<Seq<char>>, i: int, st: ParseState, s: SignalView)
    requires
        0 <= i < lines.len(),
        lines[i] == signal_line(s),
        wf_signal(s),
        st.dbc.messages.len() > 0,
    ensures
        outcome_from(lines, i, st) == outcome_from(
            lines,
            i + 1,
            with_last_signals(st, seq![bare_signal(s)]),
        ),
{
    reveal(outcome_from);
    lemma_step_signal(lines, i, st, s);
    let ms = st.dbc.messages;
    let st2 = ParseState {
        dbc: DbcView {
            messages: ms.update(
                ms.len() - 1,
                MessageView {
                    signals: ms.last().signals.push(
                        SignalView { comment: None, value_descriptions: Seq::empty(), ..s },
                    ),
                    ..ms.last()
                },
            ),
            ..st.dbc
        },
        ..st
    };
    lemma_parse_next(lines, i, st, i + 1, st2);
    assert(ms.last().signals.push(bare_signal(s)) =~= ms.last().signals + seq![bare_signal(s)]);
}

proof fn lemma_adv_version(lines: Seq<Seq<char>>, i: int, st: ParseState, d: DbcView)
    requires
        0 <= i < lines.len(),
        lines[i] == version_line(d),
        crate::roundtrip::one_line(d.version),
    ensures
        outcome_from(lines, i, st) == outcome_from(
            lines,
            i + 1,
            ParseState { dbc: DbcView { version: d.version, ..st.dbc }, ..st },
        ),
{
    reveal(outcome_from);
    lemma_step_version(lines, i, st, d);
    lemma_parse_next(
        lines,
        i,
        st,
        i + 1,
        ParseState { dbc: DbcView { version: d.version, ..st.dbc }, ..st },
    );
}

proof fn lemma_adv_bs(lines: Seq<Seq<char>>, i: int, st: ParseState)
    requires
        0 <= i < lines.len(),
        lines[i] == "BS_:"@,
    ensures
        outcome_from(lines, i, st) == outcome_from(lines, i + 1, st),
{
    reveal(outcome_from);
    lemma_step_bs(lines, i, st);
    lemma_parse_next(lines, i, st, i + 1, st);
}

proof fn lemma_adv_ns(lines: Seq<Seq<char>>, i: int, st: ParseState, syms: Seq<Seq<char>>)
    requires
        0 <= i,
        i + 1 + syms.len() < lines.len(),
        lines[i] == "NS_ :"@,
        forall|k: int| 0 <= k < syms.len() ==> lines[i + 1 + k] == symbol_row(#[trigger] syms[k]),
        forall|k: int| 0 <= k < syms.len() ==> wf_symbol(#[trigger] syms[k]),
        lines[i + 1 + syms.len()] == Seq::<char>::empty(),
    ensures
        outcome_from(lines, i, st) == outcome_from(
            lines,
            i + 1 + syms.len(),
            ParseState { dbc: DbcView { new_symbols: st.dbc.new_symbols + syms, ..st.dbc }, ..st },
        ),
{
    reveal(outcome_from);
    lemma_step_ns(lines, i, st, syms);
    lemma_parse_next(
        lines,
        i,
        st,
        i + 1 + syms.len(),
        ParseState { dbc: DbcView { new_symbols: st.dbc.new_symbols + syms, ..st.dbc }, ..st },
    );
}

proof fn lemma_adv_nodes(lines: Seq<Seq<char>>, i: int, st: ParseState, d: DbcView)
    requires
        0 <= i < lines.len(),
        lines[i] == nodes_line(d),
        forall|k: int| 0 <= k < d.nodes.len() ==> is_name(#[trigger] d.nodes[k].name),
    ensures
        outcome_from(lines, i, st) == outcome_from(
            lines,
            i + 1,
            ParseState {
                dbc: DbcView {
                    nodes: st.dbc.nodes + d.nodes.map_values(
                        |n: NodeView| NodeView { name: n.name, comment: None },
                    ),
                    ..st.dbc
                },
                ..st
            },
        ),
{
    reveal(outcome_from);
    lemma_step_nodes(lines, i, st, d);
    lemma_parse_next(
        lines,
        i,
        st,
        i + 1,
        ParseState {
            dbc: DbcView {
                nodes: st.dbc.nodes + d.nodes.map_values(
                    |n: NodeView| NodeView { name: n.name, comment: None },
                ),
                ..st.dbc
            },
            ..st
        },
    );
}

proof fn lemma_adv_table(lines: Seq<Seq<char>>, i: int, st: ParseState, t: ValueTableView)
    requires
        0 <= i,
        i + row_lines(table_line(t)).len() <= lines.len(),
        lines.subrange(i, i + row_lines(table_line(t)).len()) == row_lines(table_line(t)),
        wf_table(t),
    ensures
        outcome_from(lines, i, st) == outcome_from(
            lines,
            i + row_lines(table_line(t)).len(),
            ParseState { dbc: DbcView { value_tables: st.dbc.value_tables.push(t), ..st.dbc }, ..st },
        ),
{
    reveal(outcome_from);
    lemma_step_table(lines, i, st, t);
    lemma_parse_next(
        lines,
        i,
        st,
        i + row_lines(table_line(t)).len(),
        ParseState { dbc: DbcView { value_tables: st.dbc.value_tables.push(t), ..st.dbc }, ..st },
    );
}

proof fn lemma_read_tables(lines: Seq<Seq<char>>, i: int, ts: Seq<ValueTableView>, st: ParseState)
    requires
        0 <= i,
        i + flat_map(ts, |t: ValueTableView| row_lines(table_line(t))).len() <= lines.len(),
        lines.subrange(i, i + flat_map(ts, |t: ValueTableView| row_lines(table_line(t))).len())
            == flat_map(ts, |t: ValueTableView| row_lines(table_line(t))),
        forall|k: int| 0 <= k < ts.len() ==> wf_table(#[trigger] ts[k]),
    ensures
        outcome_from(lines, i, st) == outcome_from(
            lines,
            i + flat_map(ts, |t: ValueTableView| row_lines(table_line(t))).len(),
            ParseState {
                dbc: DbcView { value_tables: st.dbc.value_tables + ts, ..st.dbc },
                ..st
            },
        ),
    decreases ts.len(),
{
    if ts.len() == 0 {
        assert(st.dbc.value_tables + ts =~= st.dbc.value_tables);
    } else {
        let ys = ts.drop_last();
        let x = ts.last();
        let ry = flat_map(ys, |t: ValueTableView| row_lines(table_line(t)));
        lemma_sub_split(lines, i, ry, row_lines(table_line(x)));
        assert forall|k: int| 0 <= k < ys.len() implies wf_table(#[trigger] ys[k]) by {
            assert(ys[k] == ts[k]);
        }
        lemma_read_tables(lines, i, ys, st);
        let st1 = ParseState {
            dbc: DbcView { value_tables: st.dbc.value_tables + ys, ..st.dbc },
            ..st
        };
        assert(wf_table(ts[ys.len() as int]));
        lemma_adv_table(lines, i + ry.len(), st1, x);
        assert(st1.dbc.value_tables.push(x) =~= st.dbc.value_tables + ts);
    }
}

/// Reading the header rows.
pub proof fn lemma_read_header(lines: Seq<Seq<char>>, d: DbcView)
    requires
        wf_dbc(d),
        header_rows(d).len() < lines.len(),
        forall|k: int| 0 <= k < header_rows(d).len() ==> lines[k] == #[trigger] header_rows(d)[k],
    ensures
        outcome_from(lines, 0, initial_state()) == outcome_from(
            lines,
            header_rows(d).len() as int,
            header_state(d),
        ),
{
    let h = header_rows(d);
    let syms = written_symbols(d);
    let sn = syms.len() as int;
    let tr = flat_map(d.value_tables, |t: ValueTableView| row_lines(table_line(t)));
    let tn = tr.len() as int;
    let e = Seq::<char>::empty();
    assert(h.len() == 8 + sn + tn);
    assert(lines[0] == h[0]);
    assert(lines[1] == h[1]);
    assert(lines[2] == h[2]);
    let s0 = initial_state();
    lemma_adv_version(lines, 0, s0, d);
    let s1 = ParseState { dbc: DbcView { version: d.version, ..s0.dbc }, ..s0 };
    lemma_adv_empty(lines, 1, s1);
    lemma_symbols_wf(d);
    assert forall|k: int| 0 <= k < sn implies lines[2 + 1 + k] == symbol_row(#[trigger] syms[k]) by {
        assert(lines[3 + k] == h[3 + k]);
    }
    assert(lines[3 + sn] == h[3 + sn]);
    lemma_adv_ns(lines, 2, s1, syms);
    let s2 = ParseState { dbc: DbcView { new_symbols: s1.dbc.new_symbols + syms, ..s1.dbc }, ..s1 };
    lemma_adv_empty(lines, 3 + sn, s2);
    assert(lines[4 + sn] == h[4 + sn]);
    lemma_adv_bs(lines, 4 + sn, s2);
    assert(lines[5 + sn] == h[5 + sn]);
    lemma_adv_empty(lines, 5 + sn, s2);
    assert(lines[6 + sn] == h[6 + sn]);
    assert forall|k: int| 0 <= k < d.nodes.len() implies is_name(#[trigger] d.nodes[k].name) by {
        assert(wf_node(d.nodes[k]));
    }
    lemma_adv_nodes(lines, 6 + sn, s2, d);
    let bare = d.nodes.map_values(|n: NodeView| NodeView { name: n.name, comment: None });
    let s3 = ParseState { dbc: DbcView { nodes: s2.dbc.nodes + bare, ..s2.dbc }, ..s2 };
    assert(lines.subrange(7 + sn, 7 + sn + tn) =~= tr) by {
        assert forall|k: int| 0 <= k < tn implies #[trigger] lines.subrange(7 + sn, 7 + sn + tn)[k]
            == tr[k] by {
            assert(lines[7 + sn + k] == h[7 + sn + k]);
        }
    }
    lemma_read_tables(lines, 7 + sn, d.value_tables, s3);
    let s4 = ParseState {
        dbc: DbcView { value_tables: s3.dbc.value_tables + d.value_tables, ..s3.dbc },
        ..s3
    };
    assert(lines[7 + sn + tn] == h[7 + sn + tn]);
    lemma_adv_empty(lines, 7 + sn + tn, s4);
    assert(s0.dbc == empty_dbc());
    assert(s1.dbc.new_symbols + syms =~= syms);
    assert(s2.dbc.nodes + bare =~= bare);
    assert(s3.dbc.value_tables + d.value_tables =~= d.value_tables);
    assert(s4 == header_state(d));
}

pub open spec fn bare_signal(s: SignalView) -> SignalView {
    SignalView { comment: None, value_descriptions: Seq::empty(), ..s }
}

pub open spec fn bare_message(m: MessageView) -> MessageView {
    MessageView {
        signals: m.signals.map_values(|s: SignalView| bare_signal(s)),
        comment: None,
        ..m
    }
}

/// The state with `extra` signals appended to the last message.
pub open spec fn with_last_signals(st: ParseState, extra: Seq<SignalView>) -> ParseState {
    let ms = st.dbc.messages;
    ParseState {
        dbc: DbcView {
            messages: ms.update(
                ms.len() - 1,
                MessageView { signals: ms.last().signals + extra, ..ms.last() },
            ),
            ..st.dbc
        },
        ..st
    }
}

proof fn lemma_read_signals(lines: Seq<Seq<char>>, i: int, sigs: Seq<SignalView>, st: ParseState)
    requires
        0 <= i,
        i + sigs.len() <= lines.len(),
        st.dbc.messages.len() > 0,
        forall|k: int| 0 <= k < sigs.len() ==> lines[i + k] == signal_line(#[trigger] sigs[k]),
        forall|k: int| 0 <= k < sigs.len() ==> wf_signal(#[trigger] sigs[k]),
    ensures
        outcome_from(lines, i, st) == outcome_from(
            lines,
            i + sigs.len(),
            with_last_signals(st, sigs.map_values(|s: SignalView| bare_signal(s))),
        ),
    decreases sigs.len(),
{
    let ms = st.dbc.messages;
    if sigs.len() == 0 {
        assert(sigs.map_values(|s: SignalView| bare_signal(s)) =~= Seq::<SignalView>::empty());
        assert(ms.last().signals + Seq::<SignalView>::empty() =~= ms.last().signals);
        assert(ms.update(ms.len() - 1, MessageView { signals: ms.last().signals, ..ms.last() })
            =~= ms);
        assert(with_last_signals(st, Seq::<SignalView>::empty()) == st);
    } else {
        let ys = sigs.drop_last();
        assert forall|k: int| 0 <= k < ys.len() implies lines[i + k] == signal_line(#[trigger] ys[k]) by {
            assert(ys[k] == sigs[k]);
        }
        assert forall|k: int| 0 <= k < ys.len() implies wf_signal(#[trigger] ys[k]) by {
            assert(ys[k] == sigs[k]);
        }
        lemma_read_signals(lines, i, ys, st);
        let by_ = ys.map_values(|s: SignalView| bare_signal(s));
        let st1 = with_last_signals(st, by_);
        let j = i + ys.len();
        let x = sigs.last();
        assert(lines[i + ys.len()] == signal_line(sigs[ys.len() as int]));
        assert(wf_signal(sigs[ys.len() as int]));
        lemma_adv_signal(lines, j, st1, x);
        let all = sigs.map_values(|s: SignalView| bare_signal(s));
        assert(all =~= by_ + seq![bare_signal(x)]);
        let ms1 = st1.dbc.messages;
        assert(ms1.last() == MessageView { signals: ms.last().signals + by_, ..ms.last() });
        assert(ms.last().signals + by_ + seq![bare_signal(x)] =~= ms.last().signals + all);
        assert(with_last_signals(st1, seq![bare_signal(x)]).dbc.messages =~= with_last_signals(
            st,
            all,
        ).dbc.messages);
        assert(with_last_signals(st1, seq![bare_signal(x)]) == with_last_signals(st, all));
    }
}

/// Reading the rows of one message.
pub proof fn lemma_read_message(lines: Seq<Seq<char>>, i: int, m: MessageView, st: ParseState)
    requires
        0 <= i,
        i + m.signals.len() + 2 <= lines.len(),
        lines[i] == crate::document::message_line(m),
        forall|k: int| 0 <= k < m.signals.len() ==> lines[i + 1 + k] == signal_line(#[trigger] m.signals[k]),
        lines[i + 1 + m.signals.len()] == Seq::<char>::empty(),
        wf_message(m),
    ensures
        outcome_from(lines, i, st) == outcome_from(
            lines,
            i + m.signals.len() + 2,
            ParseState {
                dbc: DbcView { messages: st.dbc.messages.push(bare_message(m)), ..st.dbc },
                ..st
            },
        ),
{
    let n = m.signals.len() as int;
    lemma_adv_message(lines, i, st, m);
    let m0 = MessageView { signals: Seq::empty(), comment: None, ..m };
    let st1 = ParseState { dbc: DbcView { messages: st.dbc.messages.push(m0), ..st.dbc }, ..st };
    assert forall|k: int| 0 <= k < n implies wf_signal(#[trigger] m.signals[k]) by {}
    lemma_read_signals(lines, i + 1, m.signals, st1);
    let st2 = with_last_signals(st1, m.signals.map_values(|s: SignalView| bare_signal(s)));
    lemma_adv_empty(lines, i + 1 + n, st2);
    assert(Seq::<SignalView>::empty() + m.signals.map_values(|s: SignalView| bare_signal(s))
        =~= m.signals.map_values(|s: SignalView| bare_signal(s)));
    assert(st2.dbc.messages =~= st.dbc.messages.push(bare_message(m)));
}

/// Reading the rows of the messages.
pub proof fn lemma_read_messages(lines: Seq<Seq<char>>, i: int, ms: Seq<MessageView>, st: ParseState)
    requires
        0 <= i,
        i + messages_rows(ms).len() <= lines.len(),
        forall|k: int| 0 <= k < messages_rows(ms).len() ==> lines[i + k] == #[trigger] messages_rows(ms)[k],
        forall|k: int| 0 <= k < ms.len() ==> wf_message(#[trigger] ms[k]),
    ensures
        outcome_from(lines, i, st) == outcome_from(
            lines,
            i + messages_rows(ms).len(),
            ParseState {
                dbc: DbcView {
                    messages: st.dbc.messages + ms.map_values(|m: MessageView| bare_message(m)),
                    ..st.dbc
                },
                ..st
            },
        ),
    decreases ms.len(),
{
    let f = |m: MessageView| message_rows(m);
    if ms.len() == 0 {
        assert(st.dbc.messages + ms.map_values(|m: MessageView| bare_message(m)) =~= st.dbc.messages);
    } else {
        let ys = ms.drop_last();
        let fy = messages_rows(ys);
        let fl = message_rows(ms.last());
        assert(messages_rows(ms) == fy + fl);
        assert forall|k: int| 0 <= k < fy.len() implies lines[i + k] == #[trigger] fy[k] by {
            assert(messages_rows(ms)[k] == fy[k]);
        }
        assert forall|k: int| 0 <= k < ys.len() implies wf_message(#[trigger] ys[k]) by {
            assert(ys[k] == ms[k]);
        }
        lemma_read_messages(lines, i, ys, st);
        let st1 = ParseState {
            dbc: DbcView {
                messages: st.dbc.messages + ys.map_values(|m: MessageView| bare_message(m)),
                ..st.dbc
            },
            ..st
        };
        let j = i + fy.len();
        let x = ms.last();
        assert forall|k: int| 0 <= k < fl.len() implies lines[j + k] == #[trigger] fl[k] by {
            assert(messages_rows(ms)[fy.len() + k] == fl[k]);
        }
        assert(fl.len() == x.signals.len() + 2);
        assert(lines[j + 0] == fl[0]);
        assert forall|k: int| 0 <= k < x.signals.len() implies lines[j + 1 + k] == signal_line(
            #[trigger] x.signals[k],
        ) by {
            assert(lines[j + (1 + k)] == fl[1 + k]);
        }
        assert(lines[j + (1 + x.signals.len())] == fl[1 + x.signals.len() as int]);
        assert(wf_message(ms[ms.len() - 1]));
        lemma_read_message(lines, j, x, st1);
        assert(st1.dbc.messages.push(bare_message(ms.last())) =~= st.dbc.messages + ms.map_values(
            |m: MessageView| bare_message(m),
        ));
    }
}

// ---------------------------------------------------------------------------
// The trailer: comments, kept lines and value descriptions.
pub open spec fn network_comments(d: DbcView) -> Seq<CommentView> {
    match d.comment {
        Some(c) => seq![CommentView::Network(c)],
        None => Seq::empty(),
    }
}

pub open spec fn node_comments(n: NodeView) -> Seq<CommentView> {
    match n.comment {
        Some(c) => seq![CommentView::Node(n.name, c)],
        None => Seq::empty(),
    }
}

pub open spec fn message_comments(m: MessageView) -> Seq<CommentView> {
    match m.comment {
        Some(c) => seq![CommentView::Message(m.id, c)],
        None => Seq::empty(),
    }
}

pub open spec fn signal_comments(id: u32, s: SignalView) -> Seq<CommentView> {
    match s.comment {
        Some(c) => seq![CommentView::Signal(id, s.name, c)],
        None => Seq::empty(),
    }
}

pub open spec fn message_signal_comments(m: MessageView) -> Seq<CommentView> {
    flat_map(m.signals, |s: SignalView| signal_comments(m.id, s))
}

pub open spec fn signal_values(id: u32, s: SignalView) -> Seq<ValDefView> {
    if s.value_descriptions.len() == 0 {
        Seq::empty()
    } else {
        seq![ValDefView { message_id: id, signal: s.name, values: s.value_descriptions }]
    }
}

pub open spec fn message_values(m: MessageView) -> Seq<ValDefView> {
    flat_map(m.signals, |s: SignalView| signal_values(m.id, s))
}

/// The comments of a database, in the order the writer writes them.
pub open spec fn comments_of(d: DbcView) -> Seq<CommentView> {
    network_comments(d) + flat_map(d.nodes, |n: NodeView| node_comments(n)) + flat_map(
        d.messages,
        |m: MessageView| message_comments(m),
    ) + flat_map(d.messages, |m: MessageView| message_signal_comments(m))
}

/// The value descriptions of a database, in the order the writer writes them.
pub open spec fn values_of(d: DbcView) -> Seq<ValDefView> {
    flat_map(d.messages, |m: MessageView| message_values(m))
}

pub proof fn lemma_sub_split(lines: Seq<Seq<char>>, i: int, a: Seq<Seq<char>>, b: Seq<Seq<char>>)
    requires
        0 <= i,
        i + a.len() + b.len() <= lines.len(),
        lines.subrange(i, i + a.len() + b.len()) == a + b,
    ensures
        lines.subrange(i, i + a.len()) == a,
        lines.subrange(i + a.len(), i + a.len() + b.len()) == b,
{
    assert(lines.subrange(i, i + a.len()) =~= a) by {
        assert forall|k: int| 0 <= k < a.len() implies lines.subrange(i, i + a.len())[k] == a[k] by {
            assert(lines.subrange(i, i + a.len() + b.len())[k] == (a + b)[k]);
        }
    }
    assert(lines.subrange(i + a.len(), i + a.len() + b.len()) =~= b) by {
        assert forall|k: int| 0 <= k < b.len() implies lines.subrange(
            i + a.len(),
            i + a.len() + b.len(),
        )[k] == b[k] by {
            assert(lines.subrange(i, i + a.len() + b.len())[a.len() + k] == (a + b)[a.len() + k]);
        }
    }
}

pub proof fn lemma_sub_at(lines: Seq<Seq<char>>, i: int, a: Seq<Seq<char>>, k: int)
    requires
        0 <= i,
        i + a.len() <= lines.len(),
        lines.subrange(i, i + a.len()) == a,
        0 <= k < a.len(),
    ensures
        lines[i + k] == a[k],
{
    assert(lines.subrange(i, i + a.len())[k] == lines[i + k]);
}

proof fn lemma_adv_comment_row(
    lines: Seq<Seq<char>>,
    i: int,
    st: ParseState,
    head: Seq<char>,
    c: Seq<char>,
    cm: CommentView,
)
    requires
        0 <= i,
        i + row_lines("CM_ "@ + head + quoted(c) + seq![';']).len() <= lines.len(),
        lines.subrange(i, i + row_lines("CM_ "@ + head + quoted(c) + seq![';']).len()) == row_lines(
            "CM_ "@ + head + quoted(c) + seq![';'],
        ),
        lacks(head, '"'),
        lacks(head, ';'),
        crate::parser::parse_comment_spec(head + quoted(c) + seq![';']) == Some(cm),
    ensures
        outcome_from(lines, i, st) == outcome_from(
            lines,
            i + row_lines("CM_ "@ + head + quoted(c) + seq![';']).len(),
            ParseState { comments: st.comments.push(cm), ..st },
        ),
{
    reveal(outcome_from);
    lemma_step_comment_row(lines, i, st, head, c, cm);
    lemma_parse_next(
        lines,
        i,
        st,
        i + row_lines("CM_ "@ + head + quoted(c) + seq![';']).len(),
        ParseState { comments: st.comments.push(cm), ..st },
    );
}

proof fn lemma_adv_network_comment(lines: Seq<Seq<char>>, i: int, st: ParseState, d: DbcView)
    requires
        0 <= i,
        i + network_comment_rows(d).len() <= lines.len(),
        lines.subrange(i, i + network_comment_rows(d).len()) == network_comment_rows(d),
    ensures
        outcome_from(lines, i, st) == outcome_from(
            lines,
            i + network_comment_rows(d).len(),
            ParseState { comments: st.comments + network_comments(d), ..st },
        ),
{
    reveal_strlit("CM_ ");
    match d.comment {
        Some(c) => {
            assert("CM_ "@ + quoted(c) + seq![';'] =~= "CM_ "@ + Seq::<char>::empty() + quoted(c)
                + seq![';']);
            lemma_read_network_comment(c);
            assert(Seq::<char>::empty() + quoted(c) + seq![';'] =~= quoted(c) + seq![';']);
            lemma_adv_comment_row(lines, i, st, Seq::empty(), c, CommentView::Network(c));
            assert(st.comments.push(CommentView::Network(c)) =~= st.comments + network_comments(d));
        },
        None => {
            assert(st.comments + network_comments(d) =~= st.comments);
        },
    }
}

proof fn lemma_adv_node_comment(lines: Seq<Seq<char>>, i: int, st: ParseState, n: NodeView)
    requires
        0 <= i,
        i + node_comment_rows(n).len() <= lines.len(),
        lines.subrange(i, i + node_comment_rows(n).len()) == node_comment_rows(n),
        wf_node(n),
    ensures
        outcome_from(lines, i, st) == outcome_from(
            lines,
            i + node_comment_rows(n).len(),
            ParseState { comments: st.comments + node_comments(n), ..st },
        ),
{
    reveal_strlit("CM_ ");
    reveal_strlit("BU_ ");
    reveal_strlit("CM_ BU_ ");
    match n.comment {
        Some(c) => {
            let head = "BU_ "@ + n.name + seq![' '];
            assert("CM_ BU_ "@ + n.name + seq![' '] + quoted(c) + seq![';'] =~= "CM_ "@ + head
                + quoted(c) + seq![';']);
            assert forall|k: int| 0 <= k < head.len() implies head[k] != '"' && head[k] != ';' by {
                if 4 <= k < 4 + n.name.len() {
                    assert(head[k] == n.name[k - 4]);
                }
            }
            lemma_read_node_comment(n.name, c);
            assert(head + quoted(c) + seq![';'] =~= "BU_ "@ + n.name + seq![' '] + quoted(c) + seq![';']);
            lemma_adv_comment_row(lines, i, st, head, c, CommentView::Node(n.name, c));
            assert(st.comments.push(CommentView::Node(n.name, c)) =~= st.comments + node_comments(n));
        },
        None => {
            assert(st.comments + node_comments(n) =~= st.comments);
        },
    }
}

proof fn lemma_adv_message_comment(lines: Seq<Seq<char>>, i: int, st: ParseState, m: MessageView)
    requires
        0 <= i,
        i + message_comment_rows(m).len() <= lines.len(),
        lines.subrange(i, i + message_comment_rows(m).len()) == message_comment_rows(m),
    ensures
        outcome_from(lines, i, st) == outcome_from(
            lines,
            i + message_comment_rows(m).len(),
            ParseState { comments: st.comments + message_comments(m), ..st },
        ),
{
    reveal_strlit("CM_ ");
    reveal_strlit("BO_ ");
    reveal_strlit("CM_ BO_ ");
    match m.comment {
        Some(c) => {
            let idt = crate::numbers::nat_text(m.id as nat);
            let head = "BO_ "@ + idt + seq![' '];
            assert("CM_ BO_ "@ + idt + seq![' '] + quoted(c) + seq![';'] =~= "CM_ "@ + head + quoted(c)
                + seq![';']);
            crate::roundtrip::lemma_nat_text_chars(m.id as nat);
            assert forall|k: int| 0 <= k < head.len() implies head[k] != '"' && head[k] != ';' by {
                if 4 <= k < 4 + idt.len() {
                    assert(head[k] == idt[k - 4]);
                    assert(crate::numbers::is_digit(idt[k - 4]));
                }
            }
            lemma_read_message_comment(m.id, c);
            assert(head + quoted(c) + seq![';'] =~= "BO_ "@ + idt + seq![' '] + quoted(c) + seq![';']);
            lemma_adv_comment_row(lines, i, st, head, c, CommentView::Message(m.id, c));
            assert(st.comments.push(CommentView::Message(m.id, c)) =~= st.comments + message_comments(
                m,
            ));
        },
        None => {
            assert(st.comments + message_comments(m) =~= st.comments);
        },
    }
}

proof fn lemma_adv_signal_comment(lines: Seq<Seq<char>>, i: int, st: ParseState, id: u32, s: SignalView)
    requires
        0 <= i,
        i + signal_comment_rows(id, s).len() <= lines.len(),
        lines.subrange(i, i + signal_comment_rows(id, s).len()) == signal_comment_rows(id, s),
        wf_signal(s),
    ensures
        outcome_from(lines, i, st) == outcome_from(
            lines,
            i + signal_comment_rows(id, s).len(),
            ParseState { comments: st.comments + signal_comments(id, s), ..st },
        ),
{
    reveal_strlit("CM_ ");
    reveal_strlit("SG_ ");
    reveal_strlit("CM_ SG_ ");
    match s.comment {
        Some(c) => {
            let idt = crate::numbers::nat_text(id as nat);
            let head = "SG_ "@ + idt + seq![' '] + s.name + seq![' '];
            assert("CM_ SG_ "@ + idt + seq![' '] + s.name + seq![' '] + quoted(c) + seq![';'] =~= "CM_ "@
                + head + quoted(c) + seq![';']);
            crate::roundtrip::lemma_nat_text_chars(id as nat);
            assert forall|k: int| 0 <= k < head.len() implies head[k] != '"' && head[k] != ';' by {
                if 4 <= k < 4 + idt.len() {
                    assert(head[k] == idt[k - 4]);
                    assert(crate::numbers::is_digit(idt[k - 4]));
                } else if 5 + idt.len() <= k < 5 + idt.len() + s.name.len() {
                    assert(head[k] == s.name[k - 5 - idt.len()]);
                }
            }
            lemma_read_signal_comment(id, s.name, c);
            assert(head + quoted(c) + seq![';'] =~= "SG_ "@ + idt + seq![' '] + s.name + seq![' ']
                + quoted(c) + seq![';']);
            lemma_adv_comment_row(lines, i, st, head, c, CommentView::Signal(id, s.name, c));
            assert(st.comments.push(CommentView::Signal(id, s.name, c)) =~= st.comments
                + signal_comments(id, s));
        },
        None => {
            assert(st.comments + signal_comments(id, s) =~= st.comments);
        },
    }
}

proof fn lemma_node_comments_wf_prefix(xs: Seq<NodeView>)
    requires
        xs.len() > 0,
        forall|k: int| 0 <= k < xs.len() ==> wf_node(#[trigger] xs[k]),
    ensures
        forall|k: int| 0 <= k < xs.drop_last().len() ==> wf_node(#[trigger] xs.drop_last()[k]),
        wf_node(xs.last()),
{
    assert forall|k: int| 0 <= k < xs.drop_last().len() implies wf_node(#[trigger] xs.drop_last()[k]) by {
        assert(xs.drop_last()[k] == xs[k]);
    }
    assert(wf_node(xs[xs.len() - 1]));
}

proof fn lemma_signal_comments_wf_prefix(xs: Seq<SignalView>, id: u32)
    requires
        xs.len() > 0,
        forall|k: int| 0 <= k < xs.len() ==> wf_signal(#[trigger] xs[k]),
    ensures
        forall|k: int| 0 <= k < xs.drop_last().len() ==> wf_signal(#[trigger] xs.drop_last()[k]),
        wf_signal(xs.last()),
{
    assert forall|k: int| 0 <= k < xs.drop_last().len() implies wf_signal(
        #[trigger] xs.drop_last()[k],
    ) by {
        assert(xs.drop_last()[k] == xs[k]);
    }
    assert(wf_signal(xs[xs.len() - 1]));
}

proof fn lemma_all_signal_comments_wf_prefix(xs: Seq<MessageView>)
    requires
        xs.len() > 0,
        forall|k: int| 0 <= k < xs.len() ==> wf_message(#[trigger] xs[k]),
    ensures
        forall|k: int| 0 <= k < xs.drop_last().len() ==> wf_message(#[trigger] xs.drop_last()[k]),
        wf_message(xs.last()),
{
    assert forall|k: int| 0 <= k < xs.drop_last().len() implies wf_message(
        #[trigger] xs.drop_last()[k],
    ) by {
        assert(xs.drop_last()[k] == xs[k]);
    }
    assert(wf_message(xs[xs.len() - 1]));
}

proof fn lemma_signal_values_wf_prefix(xs: Seq<SignalView>, id: u32)
    requires
        xs.len() > 0,
        forall|k: int| 0 <= k < xs.len() ==> wf_signal(#[trigger] xs[k]),
    ensures
        forall|k: int| 0 <= k < xs.drop_last().len() ==> wf_signal(#[trigger] xs.drop_last()[k]),
        wf_signal(xs.last()),
{
    lemma_signal_comments_wf_prefix(xs, id);
}

proof fn lemma_all_values_wf_prefix(xs: Seq<MessageView>)
    requires
        xs.len() > 0,
        forall|k: int| 0 <= k < xs.len() ==> wf_message(#[trigger] xs[k]),
    ensures
        forall|k: int| 0 <= k < xs.drop_last().len() ==> wf_message(#[trigger] xs.drop_last()[k]),
        wf_message(xs.last()),
{
    lemma_all_signal_comments_wf_prefix(xs);
}

proof fn lemma_adv_values(lines: Seq<Seq<char>>, i: int, st: ParseState, id: u32, s: SignalView)
    requires
        0 <= i,
        i + signal_values_rows(id, s).len() <= lines.len(),
        lines.subrange(i, i + signal_values_rows(id, s).len()) == signal_values_rows(id, s),
        wf_signal(s),
    ensures
        outcome_from(lines, i, st) == outcome_from(
            lines,
            i + signal_values_rows(id, s).len(),
            ParseState { values: st.values + signal_values(id, s), ..st },
        ),
{
    if s.value_descriptions.len() > 0 {
        reveal(outcome_from);
        lemma_step_values(lines, i, st, id, s);
        let v = ValDefView { message_id: id, signal: s.name, values: s.value_descriptions };
        lemma_parse_next(
            lines,
            i,
            st,
            i + signal_values_rows(id, s).len(),
            ParseState { values: st.values.push(v), ..st },
        );
        assert(st.values.push(v) =~= st.values + signal_values(id, s));
    } else {
        assert(st.values + signal_values(id, s) =~= st.values);
    }
}

proof fn lemma_adv_kept(lines: Seq<Seq<char>>, i: int, st: ParseState, e: Seq<char>)
    requires
        0 <= i,
        i + row_lines(e).len() <= lines.len(),
        lines.subrange(i, i + row_lines(e).len()) == row_lines(e),
        crate::roundtrip::wf_kept_line(e, false),
    ensures
        outcome_from(lines, i, st) == outcome_from(
            lines,
            i + row_lines(e).len(),
            ParseState { dbc: DbcView { extra: st.dbc.extra.push(e), ..st.dbc }, ..st },
        ),
{
    reveal(outcome_from);
    lemma_step_kept(lines, i, st, e);
    lemma_parse_next(
        lines,
        i,
        st,
        i + row_lines(e).len(),
        ParseState { dbc: DbcView { extra: st.dbc.extra.push(e), ..st.dbc }, ..st },
    );
}

proof fn lemma_adv_kept_open(lines: Seq<Seq<char>>, i: int, st: ParseState, e: Seq<char>)
    requires
        0 <= i,
        i + row_lines(e).len() + 1 == lines.len(),
        lines.subrange(i, i + row_lines(e).len()) == row_lines(e),
        lines[i + row_lines(e).len()] == Seq::<char>::empty(),
        crate::roundtrip::wf_kept_line(e, true),
        crate::lexer::needs_semicolon_spec(e),
        crate::lexer::unquoted_semicolon_spec(e) is None,
    ensures
        outcome_from(lines, i, st) == ParseOutcome::Parsed(
            crate::parser::finish(
                ParseState { dbc: DbcView { extra: st.dbc.extra.push(e), ..st.dbc }, ..st },
            ),
        ),
{
    reveal(outcome_from);
    crate::reread::lemma_step_kept_open(lines, i, st, e);
    let st2 = ParseState { dbc: DbcView { extra: st.dbc.extra.push(e), ..st.dbc }, ..st };
    lemma_parse_next(lines, i, st, lines.len() as int, st2);
}

/// A flat map whose every piece is empty is empty.
proof fn lemma_flat_map_empty<T, U>(xs: Seq<T>, f: spec_fn(T) -> Seq<U>)
    requires
        forall|k: int| 0 <= k < xs.len() ==> (#[trigger] f(xs[k])).len() == 0,
    ensures
        flat_map(xs, f) == Seq::<U>::empty(),
    decreases xs.len(),
{
    if xs.len() > 0 {
        let ys = xs.drop_last();
        assert forall|k: int| 0 <= k < ys.len() implies (#[trigger] f(ys[k])).len() == 0 by {
            assert(ys[k] == xs[k]);
        }
        lemma_flat_map_empty(ys, f);
        assert(f(xs[xs.len() - 1]).len() == 0);
        assert(flat_map(xs, f) =~= Seq::<U>::empty());
    }
}

/// With no value descriptions, nothing is written or read after the kept
/// lines.
proof fn lemma_no_values(d: DbcView)
    requires
        crate::roundtrip::no_values_written(d),
    ensures
        flat_map(d.messages, |m: MessageView| message_signal_values_rows(m)) == Seq::<
            Seq<char>,
        >::empty(),
        values_of(d) == Seq::<ValDefView>::empty(),
{
    assert forall|k: int| 0 <= k < d.messages.len() implies (#[trigger] message_signal_values_rows(
        d.messages[k],
    )).len() == 0 && message_values(d.messages[k]).len() == 0 by {
        let m = d.messages[k];
        assert forall|j: int| 0 <= j < m.signals.len() implies (#[trigger] signal_values_rows(
            m.id,
            m.signals[j],
        )).len() == 0 by {
            assert(d.messages[k].signals[j].value_descriptions.len() == 0);
        }
        lemma_flat_map_empty(m.signals, |s: SignalView| signal_values_rows(m.id, s));
        assert forall|j: int| 0 <= j < m.signals.len() implies (#[trigger] signal_values(
            m.id,
            m.signals[j],
        )).len() == 0 by {
            assert(d.messages[k].signals[j].value_descriptions.len() == 0);
        }
        lemma_flat_map_empty(m.signals, |s: SignalView| signal_values(m.id, s));
    }
    lemma_flat_map_empty(d.messages, |m: MessageView| message_signal_values_rows(m));
    assert forall|k: int| 0 <= k < d.messages.len() implies (#[trigger] message_values(
        d.messages[k],
    )).len() == 0 by {
        assert(message_signal_values_rows(d.messages[k]).len() == 0);
    }
    lemma_flat_map_empty(d.messages, |m: MessageView| message_values(m));
}

proof fn lemma_read_kept(lines: Seq<Seq<char>>, i: int, es: Seq<Seq<char>>, st: ParseState)
    requires
        0 <= i,
        i + flat_map(es, |e: Seq<char>| row_lines(e)).len() <= lines.len(),
        lines.subrange(i, i + flat_map(es, |e: Seq<char>| row_lines(e)).len()) == flat_map(
            es,
            |e: Seq<char>| row_lines(e),
        ),
        forall|k: int| 0 <= k < es.len() ==> crate::roundtrip::wf_kept_line(#[trigger] es[k], false),
    ensures
        outcome_from(lines, i, st) == outcome_from(
            lines,
            i + flat_map(es, |e: Seq<char>| row_lines(e)).len(),
            ParseState { dbc: DbcView { extra: st.dbc.extra + es, ..st.dbc }, ..st },
        ),
    decreases es.len(),
{
    if es.len() == 0 {
        assert(st.dbc.extra + es =~= st.dbc.extra);
    } else {
        let ys = es.drop_last();
        let x = es.last();
        let ry = flat_map(ys, |e: Seq<char>| row_lines(e));
        lemma_sub_split(lines, i, ry, row_lines(x));
        assert forall|k: int| 0 <= k < ys.len() implies crate::roundtrip::wf_kept_line(#[trigger] ys[k], false) by {
            assert(ys[k] == es[k]);
        }
        lemma_read_kept(lines, i, ys, st);
        let st1 = ParseState { dbc: DbcView { extra: st.dbc.extra + ys, ..st.dbc }, ..st };
        assert(crate::roundtrip::wf_kept_line(es[es.len() - 1], false));
        lemma_adv_kept(lines, i + ry.len(), st1, x);
        assert((st.dbc.extra + ys).push(x) =~= st.dbc.extra + es);
    }
}

proof fn lemma_read_node_comments(lines: Seq<Seq<char>>, i: int, xs: Seq<NodeView>, st: ParseState)
    requires
        0 <= i,
        i + flat_map(xs, |n: NodeView| node_comment_rows(n)).len() <= lines.len(),
        lines.subrange(i, i + flat_map(xs, |n: NodeView| node_comment_rows(n)).len()) == flat_map(xs, |n: NodeView| node_comment_rows(n)),
        forall|k: int| 0 <= k < xs.len() ==> wf_node(#[trigger] xs[k]),
    ensures
        outcome_from(lines, i, st) == outcome_from(
            lines,
            i + flat_map(xs, |n: NodeView| node_comment_rows(n)).len(),
            ParseState { comments: st.comments + flat_map(xs, |n: NodeView| node_comments(n)), ..st },
        ),
    decreases xs.len(),
{
    if xs.len() == 0 {
        assert(st.comments + flat_map(xs, |n: NodeView| node_comments(n)) =~= st.comments);
    } else {
        let ys = xs.drop_last();
        let x = xs.last();
        let ry = flat_map(ys, |n: NodeView| node_comment_rows(n));
        let rx = flat_map(seq![x], |n: NodeView| node_comment_rows(n));
        assert(flat_map(seq![x], |n: NodeView| node_comment_rows(n)) == flat_map(Seq::<NodeView>::empty(), |n: NodeView| node_comment_rows(n)) + (|n: NodeView| node_comment_rows(n))(x)) by {
            assert(seq![x].drop_last() =~= Seq::<NodeView>::empty());
        }
        assert(rx =~= (|n: NodeView| node_comment_rows(n))(x));
        lemma_sub_split(lines, i, ry, (|n: NodeView| node_comment_rows(n))(x));
        lemma_node_comments_wf_prefix(xs);
        lemma_read_node_comments(lines, i, ys, st);
        let st1 = ParseState { comments: st.comments + flat_map(ys, |n: NodeView| node_comments(n)), ..st };
        lemma_adv_node_comment(lines, i + ry.len(), st1, x);
        assert(st1.comments + (|n: NodeView| node_comments(n))(x) =~= st.comments + flat_map(xs, |n: NodeView| node_comments(n)));
    }
}

proof fn lemma_read_message_comments(lines: Seq<Seq<char>>, i: int, xs: Seq<MessageView>, st: ParseState)
    requires
        0 <= i,
        i + flat_map(xs, |m: MessageView| message_comment_rows(m)).len() <= lines.len(),
        lines.subrange(i, i + flat_map(xs, |m: MessageView| message_comment_rows(m)).len()) == flat_map(xs, |m: MessageView| message_comment_rows(m)),

    ensures
        outcome_from(lines, i, st) == outcome_from(
            lines,
            i + flat_map(xs, |m: MessageView| message_comment_rows(m)).len(),
            ParseState { comments: st.comments + flat_map(xs, |m: MessageView| message_comments(m)), ..st },
        ),
    decreases xs.len(),
{
    if xs.len() == 0 {
        assert(st.comments + flat_map(xs, |m: MessageView| message_comments(m)) =~= st.comments);
    } else {
        let ys = xs.drop_last();
        let x = xs.last();
        let ry = flat_map(ys, |m: MessageView| message_comment_rows(m));
        let rx = flat_map(seq![x], |m: MessageView| message_comment_rows(m));
        assert(flat_map(seq![x], |m: MessageView| message_comment_rows(m)) == flat_map(Seq::<MessageView>::empty(), |m: MessageView| message_comment_rows(m)) + (|m: MessageView| message_comment_rows(m))(x)) by {
            assert(seq![x].drop_last() =~= Seq::<MessageView>::empty());
        }
        assert(rx =~= (|m: MessageView| message_comment_rows(m))(x));
        lemma_sub_split(lines, i, ry, (|m: MessageView| message_comment_rows(m))(x));
        lemma_read_message_comments(lines, i, ys, st);
        let st1 = ParseState { comments: st.comments + flat_map(ys, |m: MessageView| message_comments(m)), ..st };
        lemma_adv_message_comment(lines, i + ry.len(), st1, x);
        assert(st1.comments + (|m: MessageView| message_comments(m))(x) =~= st.comments + flat_map(xs, |m: MessageView| message_comments(m)));
    }
}

proof fn lemma_read_signal_comments(lines: Seq<Seq<char>>, i: int, xs: Seq<SignalView>, st: ParseState, id: u32)
    requires
        0 <= i,
        i + flat_map(xs, |s: SignalView| signal_comment_rows(id, s)).len() <= lines.len(),
        lines.subrange(i, i + flat_map(xs, |s: SignalView| signal_comment_rows(id, s)).len()) == flat_map(xs, |s: SignalView| signal_comment_rows(id, s)),
        forall|k: int| 0 <= k < xs.len() ==> wf_signal(#[trigger] xs[k]),
    ensures
        outcome_from(lines, i, st) == outcome_from(
            lines,
            i + flat_map(xs, |s: SignalView| signal_comment_rows(id, s)).len(),
            ParseState { comments: st.comments + flat_map(xs, |s: SignalView| signal_comments(id, s)), ..st },
        ),
    decreases xs.len(),
{
    if xs.len() == 0 {
        assert(st.comments + flat_map(xs, |s: SignalView| signal_comments(id, s)) =~= st.comments);
    } else {
        let ys = xs.drop_last();
        let x = xs.last();
        let ry = flat_map(ys, |s: SignalView| signal_comment_rows(id, s));
        let rx = flat_map(seq![x], |s: SignalView| signal_comment_rows(id, s));
        assert(flat_map(seq![x], |s: SignalView| signal_comment_rows(id, s)) == flat_map(Seq::<SignalView>::empty(), |s: SignalView| signal_comment_rows(id, s)) + (|s: SignalView| signal_comment_rows(id, s))(x)) by {
            assert(seq![x].drop_last() =~= Seq::<SignalView>::empty());
        }
        assert(rx =~= (|s: SignalView| signal_comment_rows(id, s))(x));
        lemma_sub_split(lines, i, ry, (|s: SignalView| signal_comment_rows(id, s))(x));
        lemma_signal_comments_wf_prefix(xs, id);
        lemma_read_signal_comments(lines, i, ys, st, id);
        let st1 = ParseState { comments: st.comments + flat_map(ys, |s: SignalView| signal_comments(id, s)), ..st };
        lemma_adv_signal_comment(lines, i + ry.len(), st1, id, x);
        assert(st1.comments + (|s: SignalView| signal_comments(id, s))(x) =~= st.comments + flat_map(xs, |s: SignalView| signal_comments(id, s)));
    }
}

proof fn lemma_read_all_signal_comments(lines: Seq<Seq<char>>, i: int, xs: Seq<MessageView>, st: ParseState)
    requires
        0 <= i,
        i + flat_map(xs, |m: MessageView| message_signal_comment_rows(m)).len() <= lines.len(),
        lines.subrange(i, i + flat_map(xs, |m: MessageView| message_signal_comment_rows(m)).len()) == flat_map(xs, |m: MessageView| message_signal_comment_rows(m)),
        forall|k: int| 0 <= k < xs.len() ==> wf_message(#[trigger] xs[k]),
    ensures
        outcome_from(lines, i, st) == outcome_from(
            lines,
            i + flat_map(xs, |m: MessageView| message_signal_comment_rows(m)).len(),
            ParseState { comments: st.comments + flat_map(xs, |m: MessageView| message_signal_comments(m)), ..st },
        ),
    decreases xs.len(),
{
    if xs.len() == 0 {
        assert(st.comments + flat_map(xs, |m: MessageView| message_signal_comments(m)) =~= st.comments);
    } else {
        let ys = xs.drop_last();
        let x = xs.last();
        let ry = flat_map(ys, |m: MessageView| message_signal_comment_rows(m));
        let rx = flat_map(seq![x], |m: MessageView| message_signal_comment_rows(m));
        assert(flat_map(seq![x], |m: MessageView| message_signal_comment_rows(m)) == flat_map(Seq::<MessageView>::empty(), |m: MessageView| message_signal_comment_rows(m)) + (|m: MessageView| message_signal_comment_rows(m))(x)) by {
            assert(seq![x].drop_last() =~= Seq::<MessageView>::empty());
        }
        assert(rx =~= (|m: MessageView| message_signal_comment_rows(m))(x));
        lemma_sub_split(lines, i, ry, (|m: MessageView| message_signal_comment_rows(m))(x));
        lemma_all_signal_comments_wf_prefix(xs);
        lemma_read_all_signal_comments(lines, i, ys, st);
        let st1 = ParseState { comments: st.comments + flat_map(ys, |m: MessageView| message_signal_comments(m)), ..st };
        lemma_read_signal_comments(lines, i + ry.len(), x.signals, st1, x.id);
        assert(st1.comments + (|m: MessageView| message_signal_comments(m))(x) =~= st.comments + flat_map(xs, |m: MessageView| message_signal_comments(m)));
    }
}

proof fn lemma_read_signal_values(lines: Seq<Seq<char>>, i: int, xs: Seq<SignalView>, st: ParseState, id: u32)
    requires
        0 <= i,
        i + flat_map(xs, |s: SignalView| signal_values_rows(id, s)).len() <= lines.len(),
        lines.subrange(i, i + flat_map(xs, |s: SignalView| signal_values_rows(id, s)).len()) == flat_map(xs, |s: SignalView| signal_values_rows(id, s)),
        forall|k: int| 0 <= k < xs.len() ==> wf_signal(#[trigger] xs[k]),
    ensures
        outcome_from(lines, i, st) == outcome_from(
            lines,
            i + flat_map(xs, |s: SignalView| signal_values_rows(id, s)).len(),
            ParseState { values: st.values + flat_map(xs, |s: SignalView| signal_values(id, s)), ..st },
        ),
    decreases xs.len(),
{
    if xs.len() == 0 {
        assert(st.values + flat_map(xs, |s: SignalView| signal_values(id, s)) =~= st.values);
    } else {
        let ys = xs.drop_last();
        let x = xs.last();
        let ry = flat_map(ys, |s: SignalView| signal_values_rows(id, s));
        let rx = flat_map(seq![x], |s: SignalView| signal_values_rows(id, s));
        assert(flat_map(seq![x], |s: SignalView| signal_values_rows(id, s)) == flat_map(Seq::<SignalView>::empty(), |s: SignalView| signal_values_rows(id, s)) + (|s: SignalView| signal_values_rows(id, s))(x)) by {
            assert(seq![x].drop_last() =~= Seq::<SignalView>::empty());
        }
        assert(rx =~= (|s: SignalView| signal_values_rows(id, s))(x));
        lemma_sub_split(lines, i, ry, (|s: SignalView| signal_values_rows(id, s))(x));
        lemma_signal_values_wf_prefix(xs, id);
        lemma_read_signal_values(lines, i, ys, st, id);
        let st1 = ParseState { values: st.values + flat_map(ys, |s: SignalView| signal_values(id, s)), ..st };
        lemma_adv_values(lines, i + ry.len(), st1, id, x);
        assert(st1.values + (|s: SignalView| signal_values(id, s))(x) =~= st.values + flat_map(xs, |s: SignalView| signal_values(id, s)));
    }
}

proof fn lemma_read_all_values(lines: Seq<Seq<char>>, i: int, xs: Seq<MessageView>, st: ParseState)
    requires
        0 <= i,
        i + flat_map(xs, |m: MessageView| message_signal_values_rows(m)).len() <= lines.len(),
        lines.subrange(i, i + flat_map(xs, |m: MessageView| message_signal_values_rows(m)).len()) == flat_map(xs, |m: MessageView| message_signal_values_rows(m)),
        forall|k: int| 0 <= k < xs.len() ==> wf_message(#[trigger] xs[k]),
    ensures
        outcome_from(lines, i, st) == outcome_from(
            lines,
            i + flat_map(xs, |m: MessageView| message_signal_values_rows(m)).len(),
            ParseState { values: st.values + flat_map(xs, |m: MessageView| message_values(m)), ..st },
        ),
    decreases xs.len(),
{
    if xs.len() == 0 {
        assert(st.values + flat_map(xs, |m: MessageView| message_values(m)) =~= st.values);
    } else {
        let ys = xs.drop_last();
        let x = xs.last();
        let ry = flat_map(ys, |m: MessageView| message_signal_values_rows(m));
        let rx = flat_map(seq![x], |m: MessageView| message_signal_values_rows(m));
        assert(flat_map(seq![x], |m: MessageView| message_signal_values_rows(m)) == flat_map(Seq::<MessageView>::empty(), |m: MessageView| message_signal_values_rows(m)) + (|m: MessageView| message_signal_values_rows(m))(x)) by {
            assert(seq![x].drop_last() =~= Seq::<MessageView>::empty());
        }
        assert(rx =~= (|m: MessageView| message_signal_values_rows(m))(x));
        lemma_sub_split(lines, i, ry, (|m: MessageView| message_signal_values_rows(m))(x));
        lemma_all_values_wf_prefix(xs);
        lemma_read_all_values(lines, i, ys, st);
        let st1 = ParseState { values: st.values + flat_map(ys, |m: MessageView| message_values(m)), ..st };
        lemma_read_signal_values(lines, i + ry.len(), x.signals, st1, x.id);
        assert(st1.values + (|m: MessageView| message_values(m))(x) =~= st.values + flat_map(xs, |m: MessageView| message_values(m)));
    }
}

// ---------------------------------------------------------------------------
// The whole document.
/// The state after the last row: the bare database and the comments and value
/// descriptions still to attach.
pub open spec fn read_state(d: DbcView) -> ParseState {
    ParseState {
        dbc: DbcView {
            version: d.version,
            new_symbols: written_symbols(d),
            nodes: d.nodes.map_values(|n: NodeView| NodeView { name: n.name, comment: None }),
            value_tables: d.value_tables,
            messages: d.messages.map_values(|m: MessageView| bare_message(m)),
            comment: None,
            extra: d.extra,
        },
        comments: comments_of(d),
        values: values_of(d),
    }
}

proof fn lemma_rows_at(lines: Seq<Seq<char>>, i: int, a: Seq<Seq<char>>)
    requires
        0 <= i,
        i + a.len() <= lines.len(),
        lines.subrange(i, i + a.len()) == a,
    ensures
        forall|k: int| 0 <= k < a.len() ==> lines[i + k] == #[trigger] a[k],
{
    assert forall|k: int| 0 <= k < a.len() implies lines[i + k] == #[trigger] a[k] by {
        lemma_sub_at(lines, i, a, k);
    }
}

proof fn lemma_read_comments(lines: Seq<Seq<char>>, i: int, d: DbcView, st: ParseState)
    requires
        wf_dbc(d),
        0 <= i,
        i + comment_rows(d).len() <= lines.len(),
        lines.subrange(i, i + comment_rows(d).len()) == comment_rows(d),
    ensures
        outcome_from(lines, i, st) == outcome_from(
            lines,
            i + comment_rows(d).len(),
            ParseState { comments: st.comments + comments_of(d), ..st },
        ),
{
    let n = network_comment_rows(d);
    let nc = flat_map(d.nodes, |n: NodeView| node_comment_rows(n));
    let mc = flat_map(d.messages, |m: MessageView| message_comment_rows(m));
    let sc = flat_map(d.messages, |m: MessageView| message_signal_comment_rows(m));
    lemma_sub_split(lines, i, n + nc + mc, sc);
    lemma_sub_split(lines, i, n + nc, mc);
    lemma_sub_split(lines, i, n, nc);
    lemma_adv_network_comment(lines, i, st, d);
    let st1 = ParseState { comments: st.comments + network_comments(d), ..st };
    lemma_read_node_comments(lines, i + n.len(), d.nodes, st1);
    let st2 = ParseState {
        comments: st1.comments + flat_map(d.nodes, |n: NodeView| node_comments(n)),
        ..st1
    };
    lemma_read_message_comments(lines, i + n.len() + nc.len(), d.messages, st2);
    let st3 = ParseState {
        comments: st2.comments + flat_map(d.messages, |m: MessageView| message_comments(m)),
        ..st2
    };
    lemma_read_all_signal_comments(lines, i + n.len() + nc.len() + mc.len(), d.messages, st3);
    assert(st3.comments + flat_map(d.messages, |m: MessageView| message_signal_comments(m))
        =~= st.comments + comments_of(d));
}

/// Reading a written document gives the bare database and its comments and
/// value descriptions.
pub proof fn lemma_read_document(d: DbcView)
    requires
        wf_dbc(d),
    ensures
        outcome_from(document_rows(d) + seq![Seq::<char>::empty()], 0, initial_state())
            == ParseOutcome::Parsed(crate::parser::finish(read_state(d))),
{
    let h = header_rows(d);
    let m = messages_rows(d.messages);
    let c = comment_rows(d);
    let e = flat_map(d.extra, |e: Seq<char>| row_lines(e));
    let v = flat_map(d.messages, |m: MessageView| message_signal_values_rows(m));
    let t = trailer_rows(d);
    let p = document_rows(d);
    let lines = p + seq![Seq::<char>::empty()];
    assert(t == c + e + v);
    assert(p == h + m + t);
    assert(lines.subrange(0, p.len() as int) =~= p);
    lemma_sub_split(lines, 0, h + m, t);
    lemma_sub_split(lines, 0, h, m);
    lemma_sub_split(lines, h.len() as int + m.len() as int, c + e, v);
    lemma_sub_split(lines, h.len() as int + m.len() as int, c, e);
    assert(lines.subrange(0, h.len() as int) == h);
    lemma_rows_at(lines, 0, h);
    assert forall|k: int| 0 <= k < h.len() implies lines[k] == #[trigger] h[k] by {
        assert(lines[0 + k] == h[k]);
    }
    lemma_read_header(lines, d);
    let s1 = header_state(d);
    lemma_rows_at(lines, h.len() as int, m);
    assert forall|k: int| 0 <= k < d.messages.len() implies wf_message(#[trigger] d.messages[k]) by {}
    lemma_read_messages(lines, h.len() as int, d.messages, s1);
    let s2 = ParseState {
        dbc: DbcView {
            messages: s1.dbc.messages + d.messages.map_values(|m: MessageView| bare_message(m)),
            ..s1.dbc
        },
        ..s1
    };
    let i2: int = h.len() as int + m.len() as int;
    lemma_read_comments(lines, i2, d, s2);
    let s3 = ParseState { comments: s2.comments + comments_of(d), ..s2 };
    let xe = d.extra;
    let flag = crate::roundtrip::no_values_written(d);
    assert(s1.dbc.messages + d.messages.map_values(|m: MessageView| bare_message(m)) =~= d.messages.map_values(
        |m: MessageView| bare_message(m),
    ));
    assert(Seq::<CommentView>::empty() + comments_of(d) =~= comments_of(d));
    if !(xe.len() > 0 && crate::lexer::needs_semicolon_spec(xe.last())
        && crate::lexer::unquoted_semicolon_spec(xe.last()) is None) {
        assert forall|k: int| 0 <= k < xe.len() implies crate::roundtrip::wf_kept_line(
            #[trigger] xe[k],
            false,
        ) by {
            assert(crate::roundtrip::wf_kept_line(xe[k], k == xe.len() - 1 && flag));
        }
        lemma_read_kept(lines, i2 + c.len() as int, xe, s3);
        let s4 = ParseState { dbc: DbcView { extra: s3.dbc.extra + xe, ..s3.dbc }, ..s3 };
        lemma_read_all_values(lines, i2 + c.len() as int + e.len() as int, d.messages, s4);
        let s5 = ParseState {
            values: s4.values + flat_map(d.messages, |m: MessageView| message_values(m)),
            ..s4
        };
        assert(lines[p.len() as int] == Seq::<char>::empty());
        lemma_adv_empty(lines, p.len() as int, s5);
        assert(Seq::<Seq<char>>::empty() + xe =~= xe);
        assert(Seq::<ValDefView>::empty() + values_of(d) =~= values_of(d));
        assert(s5 == read_state(d));
        reveal(outcome_from);
        assert(parse_from(lines, lines.len() as int, s5) == ParseOutcome::Parsed(
            crate::parser::finish(s5),
        ));
    } else {
        let ys = xe.drop_last();
        let x = xe.last();
        assert(crate::roundtrip::wf_kept_line(xe[xe.len() - 1], xe.len() - 1 == xe.len() - 1 && flag));
        assert(flag);
        lemma_no_values(d);
        let ey = flat_map(ys, |e: Seq<char>| row_lines(e));
        assert(e == ey + row_lines(x));
        lemma_sub_split(lines, i2 + c.len() as int, ey, row_lines(x));
        assert forall|k: int| 0 <= k < ys.len() implies crate::roundtrip::wf_kept_line(
            #[trigger] ys[k],
            false,
        ) by {
            assert(ys[k] == xe[k]);
            assert(crate::roundtrip::wf_kept_line(xe[k], k == xe.len() - 1 && flag));
        }
        lemma_read_kept(lines, i2 + c.len() as int, ys, s3);
        let s3b = ParseState { dbc: DbcView { extra: s3.dbc.extra + ys, ..s3.dbc }, ..s3 };
        let j = i2 + c.len() as int + ey.len() as int;
        assert(v.len() == 0);
        assert(j + row_lines(x).len() == p.len());
        lemma_adv_kept_open(lines, j, s3b, x);
        let s4 = ParseState { dbc: DbcView { extra: s3b.dbc.extra.push(x), ..s3b.dbc }, ..s3b };
        assert(s4.dbc.extra =~= xe);
        assert(s4 == read_state(d));
    }
}

} // verus!
