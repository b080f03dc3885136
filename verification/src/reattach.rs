//! Attaching the comments and value descriptions of a written document puts
//! each back on the object it was written for.
use vstd::prelude::*;
use crate::document::{flat_map, lemma_flat_map_take};
use crate::model::{DbcView, MessageView, NodeView, SignalView};
use crate::parser::{
    apply_comment, apply_values, attach_comments_spec, attach_values_spec, first_index,
    lemma_first_index_at, message_with_id, node_named, signal_named, CommentView, ValDefView,
};
use crate::reparse::{
    bare_message, bare_node, bare_signal, message_comments, message_signal_comments,
    message_values, node_comments, signal_comments, signal_values,
};
use crate::roundtrip::{message_has_statements, signal_has_statements, wf_dbc, wf_message};

verus! {

pub proof fn lemma_attach_comments_append(d: DbcView, a: Seq<CommentView>, b: Seq<CommentView>)
    ensures
        attach_comments_spec(d, a + b) == attach_comments_spec(attach_comments_spec(d, a), b),
    decreases b.len(),
{
    if b.len() == 0 {
        assert(a + b =~= a);
    } else {
        lemma_attach_comments_append(d, a, b.drop_last());
        assert((a + b).drop_last() =~= a + b.drop_last());
        assert((a + b).last() == b.last());
    }
}

pub proof fn lemma_attach_values_append(d: DbcView, a: Seq<ValDefView>, b: Seq<ValDefView>)
    ensures
        attach_values_spec(d, a + b) == attach_values_spec(attach_values_spec(d, a), b),
    decreases b.len(),
{
    if b.len() == 0 {
        assert(a + b =~= a);
    } else {
        lemma_attach_values_append(d, a, b.drop_last());
        assert((a + b).drop_last() =~= a + b.drop_last());
        assert((a + b).last() == b.last());
    }
}

proof fn lemma_attach_one(d: DbcView, c: CommentView)
    ensures
        attach_comments_spec(d, seq![c]) == apply_comment(d, c),
{
    assert(seq![c].drop_last() =~= Seq::<CommentView>::empty());
    assert(attach_comments_spec(d, Seq::<CommentView>::empty()) == d);
    assert(seq![c].last() == c);
}

proof fn lemma_attach_value_one(d: DbcView, v: ValDefView)
    ensures
        attach_values_spec(d, seq![v]) == apply_values(d, v),
{
    assert(seq![v].drop_last() =~= Seq::<ValDefView>::empty());
    assert(attach_values_spec(d, Seq::<ValDefView>::empty()) == d);
    assert(seq![v].last() == v);
}

// ---------------------------------------------------------------------------
// Nodes.
pub open spec fn nodes_upto(ns: Seq<NodeView>, k: int) -> Seq<NodeView> {
    Seq::new(ns.len(), |j: int| if j < k { ns[j] } else { bare_node(ns[j]) })
}

pub open spec fn unique_commented_nodes(ns: Seq<NodeView>) -> bool {
    forall|k: int, l: int|
        #![trigger ns[k], ns[l]]
        0 <= l < k < ns.len() && ns[k].comment is Some ==> ns[l].name != ns[k].name
}

pub open spec fn node_comment_list(ns: Seq<NodeView>) -> Seq<CommentView> {
    flat_map(ns, |n: NodeView| node_comments(n))
}

pub open spec fn message_comment_list(ms: Seq<MessageView>) -> Seq<CommentView> {
    flat_map(ms, |m: MessageView| message_comments(m))
}

proof fn lemma_attach_nodes(d: DbcView, ns: Seq<NodeView>, k: int)
    requires
        d.nodes == nodes_upto(ns, 0),
        unique_commented_nodes(ns),
        0 <= k <= ns.len(),
    ensures
        attach_comments_spec(d, node_comment_list(ns.take(k))) == (DbcView {
            nodes: nodes_upto(ns, k),
            ..d
        }),
    decreases k,
{
    let f = |n: NodeView| node_comments(n);
    if k == 0 {
        assert(ns.take(0) =~= Seq::<NodeView>::empty());
        assert(d == DbcView { nodes: nodes_upto(ns, 0), ..d });
    } else {
        lemma_attach_nodes(d, ns, k - 1);
        lemma_flat_map_take(ns, f, k - 1);
        lemma_attach_comments_append(d, flat_map(ns.take(k - 1), f), f(ns[k - 1]));
        let dk = DbcView { nodes: nodes_upto(ns, k - 1), ..d };
        let x = ns[k - 1];
        match x.comment {
            Some(c) => {
                lemma_attach_one(dk, CommentView::Node(x.name, c));
                let cur = nodes_upto(ns, k - 1);
                assert forall|j: int| 0 <= j < k - 1 implies !node_named(x.name)(#[trigger] cur[j]) by {
                    assert(ns[j].name != ns[k - 1].name);
                }
                lemma_first_index_at(cur, node_named(x.name), k - 1);
                assert(cur.update(k - 1, NodeView { comment: Some(c), ..cur[k - 1] }) =~= nodes_upto(
                    ns,
                    k,
                ));
            },
            None => {
                assert(f(x) =~= Seq::<CommentView>::empty());
                assert(attach_comments_spec(dk, Seq::<CommentView>::empty()) == dk);
                assert(nodes_upto(ns, k - 1) =~= nodes_upto(ns, k));
            },
        }
    }
}

// ---------------------------------------------------------------------------
// Messages.
/// The signals of a message with their comments and no value descriptions.
pub open spec fn commented_signal(s: SignalView) -> SignalView {
    SignalView { value_descriptions: Seq::empty(), ..s }
}

/// A message with its comment and the bare signals.
pub open spec fn message_stage1(m: MessageView) -> MessageView {
    MessageView { comment: m.comment, ..bare_message(m) }
}

/// A message with its comment and the commented signals.
pub open spec fn message_stage2(m: MessageView) -> MessageView {
    MessageView {
        signals: m.signals.map_values(|s: SignalView| commented_signal(s)),
        ..m
    }
}

pub open spec fn messages_stage1_upto(ms: Seq<MessageView>, k: int) -> Seq<MessageView> {
    Seq::new(ms.len(), |j: int| if j < k { message_stage1(ms[j]) } else { bare_message(ms[j]) })
}

pub open spec fn unique_mentioned_messages(ms: Seq<MessageView>) -> bool {
    forall|k: int, l: int|
        #![trigger ms[k], ms[l]]
        0 <= l < k < ms.len() && message_has_statements(ms[k]) ==> ms[l].id != ms[k].id
}

/// The first message with the id of message `k` is message `k`.
proof fn lemma_first_message(cur: Seq<MessageView>, ms: Seq<MessageView>, k: int)
    requires
        cur.len() == ms.len(),
        forall|j: int| 0 <= j < ms.len() ==> (#[trigger] cur[j]).id == ms[j].id,
        unique_mentioned_messages(ms),
        0 <= k < ms.len(),
        message_has_statements(ms[k]),
    ensures
        first_index(cur, message_with_id(ms[k].id)) == Some(k),
{
    assert forall|j: int| 0 <= j < k implies !message_with_id(ms[k].id)(#[trigger] cur[j]) by {
        assert(cur[j].id == ms[j].id);
        assert(ms[j].id != ms[k].id);
    }
    assert(cur[k].id == ms[k].id);
    lemma_first_index_at(cur, message_with_id(ms[k].id), k);
}

proof fn lemma_attach_message_comments(d: DbcView, ms: Seq<MessageView>, k: int)
    requires
        d.messages == messages_stage1_upto(ms, 0),
        unique_mentioned_messages(ms),
        0 <= k <= ms.len(),
    ensures
        attach_comments_spec(d, message_comment_list(ms.take(k))) == (DbcView {
            messages: messages_stage1_upto(ms, k),
            ..d
        }),
    decreases k,
{
    let f = |m: MessageView| message_comments(m);
    if k == 0 {
        assert(ms.take(0) =~= Seq::<MessageView>::empty());
    } else {
        lemma_attach_message_comments(d, ms, k - 1);
        lemma_flat_map_take(ms, f, k - 1);
        lemma_attach_comments_append(d, flat_map(ms.take(k - 1), f), f(ms[k - 1]));
        let cur = messages_stage1_upto(ms, k - 1);
        let dk = DbcView { messages: cur, ..d };
        let x = ms[k - 1];
        match x.comment {
            Some(c) => {
                lemma_attach_one(dk, CommentView::Message(x.id, c));
                assert(message_has_statements(ms[k - 1]));
                lemma_first_message(cur, ms, k - 1);
                assert(cur.update(k - 1, MessageView { comment: Some(c), ..cur[k - 1] })
                    =~= messages_stage1_upto(ms, k));
            },
            None => {
                assert(f(x) =~= Seq::<CommentView>::empty());
                assert(attach_comments_spec(dk, Seq::<CommentView>::empty()) == dk);
                assert(cur =~= messages_stage1_upto(ms, k));
            },
        }
    }
}

// ---------------------------------------------------------------------------
// Signals.
pub open spec fn signal_comment_list(id: u32, ss: Seq<SignalView>) -> Seq<CommentView> {
    flat_map(ss, |s: SignalView| signal_comments(id, s))
}

pub open spec fn all_signal_comment_list(ms: Seq<MessageView>) -> Seq<CommentView> {
    flat_map(ms, |m: MessageView| message_signal_comments(m))
}

pub open spec fn signal_value_list(id: u32, ss: Seq<SignalView>) -> Seq<ValDefView> {
    flat_map(ss, |s: SignalView| signal_values(id, s))
}

pub open spec fn all_value_list(ms: Seq<MessageView>) -> Seq<ValDefView> {
    flat_map(ms, |m: MessageView| message_values(m))
}

pub open spec fn signals_commented_upto(ss: Seq<SignalView>, q: int) -> Seq<SignalView> {
    Seq::new(ss.len(), |j: int| if j < q { commented_signal(ss[j]) } else { bare_signal(ss[j]) })
}

pub open spec fn signals_valued_upto(ss: Seq<SignalView>, q: int) -> Seq<SignalView> {
    Seq::new(ss.len(), |j: int| if j < q { ss[j] } else { commented_signal(ss[j]) })
}

pub open spec fn messages_stage2_upto(ms: Seq<MessageView>, k: int) -> Seq<MessageView> {
    Seq::new(ms.len(), |j: int| if j < k { message_stage2(ms[j]) } else { message_stage1(ms[j]) })
}

pub open spec fn messages_full_upto(ms: Seq<MessageView>, k: int) -> Seq<MessageView> {
    Seq::new(ms.len(), |j: int| if j < k { ms[j] } else { message_stage2(ms[j]) })
}

pub open spec fn same_ids(cur: Seq<MessageView>, ms: Seq<MessageView>) -> bool {
    cur.len() == ms.len() && forall|j: int| 0 <= j < ms.len() ==> (#[trigger] cur[j]).id == ms[j].id
}

/// The first signal named like signal `q` of a message is signal `q`.
proof fn lemma_first_signal(cur: Seq<SignalView>, m: MessageView, q: int)
    requires
        cur.len() == m.signals.len(),
        forall|j: int| 0 <= j < cur.len() ==> (#[trigger] cur[j]).name == m.signals[j].name,
        wf_message(m),
        0 <= q < m.signals.len(),
        signal_has_statements(m.signals[q]),
    ensures
        first_index(cur, signal_named(m.signals[q].name)) == Some(q),
{
    assert forall|j: int| 0 <= j < q implies !signal_named(m.signals[q].name)(#[trigger] cur[j]) by {
        assert(cur[j].name == m.signals[j].name);
        assert(m.signals[j].name != m.signals[q].name);
    }
    assert(cur[q].name == m.signals[q].name);
    lemma_first_index_at(cur, signal_named(m.signals[q].name), q);
}

proof fn lemma_attach_signal_comments(d: DbcView, ms: Seq<MessageView>, k: int, q: int)
    requires
        same_ids(d.messages, ms),
        unique_mentioned_messages(ms),
        0 <= k < ms.len(),
        wf_message(ms[k]),
        d.messages[k] == (MessageView {
            signals: signals_commented_upto(ms[k].signals, 0),
            ..message_stage1(ms[k])
        }),
        0 <= q <= ms[k].signals.len(),
    ensures
        attach_comments_spec(d, signal_comment_list(ms[k].id, ms[k].signals.take(q))) == (DbcView {
            messages: d.messages.update(
                k,
                MessageView {
                    signals: signals_commented_upto(ms[k].signals, q),
                    ..message_stage1(ms[k])
                },
            ),
            ..d
        }),
    decreases q,
{
    let m = ms[k];
    let f = |s: SignalView| signal_comments(m.id, s);
    if q == 0 {
        assert(m.signals.take(0) =~= Seq::<SignalView>::empty());
        assert(d.messages.update(k, d.messages[k]) =~= d.messages);
    } else {
        lemma_attach_signal_comments(d, ms, k, q - 1);
        lemma_flat_map_take(m.signals, f, q - 1);
        lemma_attach_comments_append(d, flat_map(m.signals.take(q - 1), f), f(m.signals[q - 1]));
        let cur_sigs = signals_commented_upto(m.signals, q - 1);
        let cur_msgs = d.messages.update(
            k,
            MessageView { signals: cur_sigs, ..message_stage1(m) },
        );
        let dk = DbcView { messages: cur_msgs, ..d };
        let x = m.signals[q - 1];
        match x.comment {
            Some(c) => {
                lemma_attach_one(dk, CommentView::Signal(m.id, x.name, c));
                assert(signal_has_statements(m.signals[q - 1]));
                assert(message_has_statements(ms[k]));
                assert forall|j: int| 0 <= j < ms.len() implies (#[trigger] cur_msgs[j]).id == ms[j].id by {
                    if j != k {
                        assert(cur_msgs[j] == d.messages[j]);
                    }
                }
                lemma_first_message(cur_msgs, ms, k);
                assert forall|j: int| 0 <= j < cur_sigs.len() implies (#[trigger] cur_sigs[j]).name
                    == m.signals[j].name by {}
                lemma_first_signal(cur_sigs, m, q - 1);
                assert(cur_sigs.update(q - 1, SignalView { comment: Some(c), ..cur_sigs[q - 1] })
                    =~= signals_commented_upto(m.signals, q));
                assert(cur_msgs.update(
                    k,
                    MessageView {
                        signals: cur_sigs.update(
                            q - 1,
                            SignalView { comment: Some(c), ..cur_sigs[q - 1] },
                        ),
                        ..cur_msgs[k]
                    },
                ) =~= d.messages.update(
                    k,
                    MessageView {
                        signals: signals_commented_upto(m.signals, q),
                        ..message_stage1(m)
                    },
                ));
            },
            None => {
                assert(f(x) =~= Seq::<CommentView>::empty());
                assert(attach_comments_spec(dk, Seq::<CommentView>::empty()) == dk);
                assert(cur_sigs =~= signals_commented_upto(m.signals, q));
            },
        }
    }
}

proof fn lemma_attach_all_signal_comments(d: DbcView, ms: Seq<MessageView>, k: int)
    requires
        d.messages == messages_stage2_upto(ms, 0),
        unique_mentioned_messages(ms),
        forall|j: int| 0 <= j < ms.len() ==> wf_message(#[trigger] ms[j]),
        0 <= k <= ms.len(),
    ensures
        attach_comments_spec(d, all_signal_comment_list(ms.take(k))) == (DbcView {
            messages: messages_stage2_upto(ms, k),
            ..d
        }),
    decreases k,
{
    let f = |m: MessageView| message_signal_comments(m);
    if k == 0 {
        assert(ms.take(0) =~= Seq::<MessageView>::empty());
    } else {
        lemma_attach_all_signal_comments(d, ms, k - 1);
        lemma_flat_map_take(ms, f, k - 1);
        lemma_attach_comments_append(d, flat_map(ms.take(k - 1), f), f(ms[k - 1]));
        let cur = messages_stage2_upto(ms, k - 1);
        let dk = DbcView { messages: cur, ..d };
        let m = ms[k - 1];
        assert(wf_message(ms[k - 1]));
        assert(same_ids(cur, ms));
        assert(signals_commented_upto(m.signals, 0) =~= m.signals.map_values(
            |s: SignalView| bare_signal(s),
        ));
        assert(cur[k - 1] == MessageView {
            signals: signals_commented_upto(m.signals, 0),
            ..message_stage1(m)
        });
        lemma_attach_signal_comments(dk, ms, k - 1, m.signals.len() as int);
        assert(m.signals.take(m.signals.len() as int) =~= m.signals);
        assert(signals_commented_upto(m.signals, m.signals.len() as int) =~= m.signals.map_values(
            |s: SignalView| commented_signal(s),
        ));
        assert(cur.update(
            k - 1,
            MessageView {
                signals: signals_commented_upto(m.signals, m.signals.len() as int),
                ..message_stage1(m)
            },
        ) =~= messages_stage2_upto(ms, k));
    }
}

proof fn lemma_attach_signal_values(d: DbcView, ms: Seq<MessageView>, k: int, q: int)
    requires
        same_ids(d.messages, ms),
        unique_mentioned_messages(ms),
        0 <= k < ms.len(),
        wf_message(ms[k]),
        d.messages[k] == (MessageView {
            signals: signals_valued_upto(ms[k].signals, 0),
            ..ms[k]
        }),
        0 <= q <= ms[k].signals.len(),
    ensures
        attach_values_spec(d, signal_value_list(ms[k].id, ms[k].signals.take(q))) == (DbcView {
            messages: d.messages.update(
                k,
                MessageView { signals: signals_valued_upto(ms[k].signals, q), ..ms[k] },
            ),
            ..d
        }),
    decreases q,
{
    let m = ms[k];
    let f = |s: SignalView| signal_values(m.id, s);
    if q == 0 {
        assert(m.signals.take(0) =~= Seq::<SignalView>::empty());
        assert(d.messages.update(k, d.messages[k]) =~= d.messages);
    } else {
        lemma_attach_signal_values(d, ms, k, q - 1);
        lemma_flat_map_take(m.signals, f, q - 1);
        lemma_attach_values_append(d, flat_map(m.signals.take(q - 1), f), f(m.signals[q - 1]));
        let cur_sigs = signals_valued_upto(m.signals, q - 1);
        let cur_msgs = d.messages.update(k, MessageView { signals: cur_sigs, ..m });
        let dk = DbcView { messages: cur_msgs, ..d };
        let x = m.signals[q - 1];
        if x.value_descriptions.len() > 0 {
            let v = ValDefView { message_id: m.id, signal: x.name, values: x.value_descriptions };
            lemma_attach_value_one(dk, v);
            assert(signal_has_statements(m.signals[q - 1]));
            assert(message_has_statements(ms[k]));
            assert forall|j: int| 0 <= j < ms.len() implies (#[trigger] cur_msgs[j]).id == ms[j].id by {
                if j != k {
                    assert(cur_msgs[j] == d.messages[j]);
                }
            }
            lemma_first_message(cur_msgs, ms, k);
            assert forall|j: int| 0 <= j < cur_sigs.len() implies (#[trigger] cur_sigs[j]).name
                == m.signals[j].name by {}
            lemma_first_signal(cur_sigs, m, q - 1);
            assert(cur_sigs.update(
                q - 1,
                SignalView { value_descriptions: x.value_descriptions, ..cur_sigs[q - 1] },
            ) =~= signals_valued_upto(m.signals, q));
            assert(cur_msgs.update(
                k,
                MessageView {
                    signals: cur_sigs.update(
                        q - 1,
                        SignalView { value_descriptions: x.value_descriptions, ..cur_sigs[q - 1] },
                    ),
                    ..cur_msgs[k]
                },
            ) =~= d.messages.update(
                k,
                MessageView { signals: signals_valued_upto(m.signals, q), ..m },
            ));
        } else {
            assert(f(x) =~= Seq::<ValDefView>::empty());
            assert(attach_values_spec(dk, Seq::<ValDefView>::empty()) == dk);
            assert(x.value_descriptions =~= Seq::<(i64, Seq<char>)>::empty());
            assert(cur_sigs =~= signals_valued_upto(m.signals, q));
        }
    }
}

proof fn lemma_attach_all_values(d: DbcView, ms: Seq<MessageView>, k: int)
    requires
        d.messages == messages_full_upto(ms, 0),
        unique_mentioned_messages(ms),
        forall|j: int| 0 <= j < ms.len() ==> wf_message(#[trigger] ms[j]),
        0 <= k <= ms.len(),
    ensures
        attach_values_spec(d, all_value_list(ms.take(k))) == (DbcView {
            messages: messages_full_upto(ms, k),
            ..d
        }),
    decreases k,
{
    let f = |m: MessageView| message_values(m);
    if k == 0 {
        assert(ms.take(0) =~= Seq::<MessageView>::empty());
    } else {
        lemma_attach_all_values(d, ms, k - 1);
        lemma_flat_map_take(ms, f, k - 1);
        lemma_attach_values_append(d, flat_map(ms.take(k - 1), f), f(ms[k - 1]));
        let cur = messages_full_upto(ms, k - 1);
        let dk = DbcView { messages: cur, ..d };
        let m = ms[k - 1];
        assert(wf_message(ms[k - 1]));
        assert(same_ids(cur, ms));
        assert(signals_valued_upto(m.signals, 0) =~= m.signals.map_values(
            |s: SignalView| commented_signal(s),
        ));
        assert(cur[k - 1] == MessageView { signals: signals_valued_upto(m.signals, 0), ..m });
        lemma_attach_signal_values(dk, ms, k - 1, m.signals.len() as int);
        assert(m.signals.take(m.signals.len() as int) =~= m.signals);
        assert(signals_valued_upto(m.signals, m.signals.len() as int) =~= m.signals);
        assert(cur.update(
            k - 1,
            MessageView {
                signals: signals_valued_upto(m.signals, m.signals.len() as int),
                ..m
            },
        ) =~= messages_full_upto(ms, k));
    }
}

// ---------------------------------------------------------------------------
/// Attaching the comments and value descriptions of a written database to
/// its bare form gives the database back.
pub proof fn lemma_finish(d: DbcView)
    requires
        wf_dbc(d),
    ensures
        crate::parser::finish(crate::reparse::read_state(d)) == (DbcView {
            new_symbols: crate::writer::written_symbols(d),
            ..d
        }),
{
    let st = crate::reparse::read_state(d);
    let d0 = st.dbc;
    let n = crate::reparse::network_comments(d);
    let nc = node_comment_list(d.nodes);
    let mc = message_comment_list(d.messages);
    let sc = all_signal_comment_list(d.messages);
    assert(crate::reparse::comments_of(d) == n + nc + mc + sc);
    lemma_attach_comments_append(d0, n + nc + mc, sc);
    lemma_attach_comments_append(d0, n + nc, mc);
    lemma_attach_comments_append(d0, n, nc);
    // The network comment.
    let d1 = DbcView { comment: d.comment, ..d0 };
    match d.comment {
        Some(c) => {
            lemma_attach_one(d0, CommentView::Network(c));
        },
        None => {
            assert(n =~= Seq::<CommentView>::empty());
            assert(attach_comments_spec(d0, Seq::<CommentView>::empty()) == d0);
        },
    }
    assert(attach_comments_spec(d0, n) == d1);
    // Node comments.
    assert(d1.nodes =~= nodes_upto(d.nodes, 0));
    lemma_attach_nodes(d1, d.nodes, d.nodes.len() as int);
    assert(d.nodes.take(d.nodes.len() as int) =~= d.nodes);
    assert(nodes_upto(d.nodes, d.nodes.len() as int) =~= d.nodes);
    let d2 = DbcView { nodes: d.nodes, ..d1 };
    // Message comments.
    assert(d2.messages =~= messages_stage1_upto(d.messages, 0));
    lemma_attach_message_comments(d2, d.messages, d.messages.len() as int);
    assert(d.messages.take(d.messages.len() as int) =~= d.messages);
    let s1 = messages_stage1_upto(d.messages, d.messages.len() as int);
    let d3 = DbcView { messages: s1, ..d2 };
    // Signal comments.
    assert(s1 =~= messages_stage2_upto(d.messages, 0));
    lemma_attach_all_signal_comments(d3, d.messages, d.messages.len() as int);
    let s2 = messages_stage2_upto(d.messages, d.messages.len() as int);
    let d4 = DbcView { messages: s2, ..d3 };
    assert(attach_comments_spec(d0, crate::reparse::comments_of(d)) == d4);
    // Value descriptions.
    assert(s2 =~= messages_full_upto(d.messages, 0));
    assert(crate::reparse::values_of(d) == all_value_list(d.messages));
    lemma_attach_all_values(d4, d.messages, d.messages.len() as int);
    assert(messages_full_upto(d.messages, d.messages.len() as int) =~= d.messages);
}

} // verus!
