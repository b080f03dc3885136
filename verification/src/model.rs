//! In-memory representation of a CAN database (`.dbc`) file.
//!
//! The model is editor-oriented: comments and value descriptions are attached
//! directly to the objects they describe.  Constructs that are not modelled
//! (attribute definitions, signal groups, ...) are kept verbatim in
//! [`Dbc::extra`] so that a load/save round-trip keeps them.
use vstd::prelude::*;
use crate::decimal::{Number, NumberView};

verus! {

/// Byte order of a signal on the wire.
#[derive(Clone, Copy, Debug, PartialEq, Eq, Structural)]
pub enum ByteOrder {
    /// `@1`: Intel, little-endian.
    LittleEndian,
    /// `@0`: Motorola, big-endian.
    BigEndian,
}

impl ByteOrder {
    pub open spec fn label_text(self) -> Seq<char> {
        match self {
            ByteOrder::LittleEndian => "Little (Intel)"@,
            ByteOrder::BigEndian => "Big (Motorola)"@,
        }
    }

    /// The name shown to a user.
    pub fn label(self) -> (r: &'static str)
        ensures
            r@ == self.label_text(),
    {
        match self {
            ByteOrder::LittleEndian => "Little (Intel)",
            ByteOrder::BigEndian => "Big (Motorola)",
        }
    }
}

/// Whether the raw value is read as signed or unsigned.
#[derive(Clone, Copy, Debug, PartialEq, Eq, Structural)]
pub enum ValueType {
    Unsigned,
    Signed,
}

impl ValueType {
    pub open spec fn label_text(self) -> Seq<char> {
        match self {
            ValueType::Unsigned => "Unsigned"@,
            ValueType::Signed => "Signed"@,
        }
    }

    /// The name shown to a user.
    pub fn label(self) -> (r: &'static str)
        ensures
            r@ == self.label_text(),
    {
        match self {
            ValueType::Unsigned => "Unsigned",
            ValueType::Signed => "Signed",
        }
    }
}

/// Multiplexing role of a signal within its message.
#[derive(Clone, Copy, Debug, PartialEq, Eq, Structural)]
pub enum Multiplexer {
    /// An ordinary signal, always present.
    Normal,
    /// The multiplexor switch (`M`).
    Multiplexor,
    /// Present only when the switch equals this value (`m<n>`).
    Multiplexed(u64),
}

/// A single signal (`SG_`) of a message.
#[derive(Clone, Debug, PartialEq)]
pub struct Signal {
    pub name: String,
    pub multiplexer: Multiplexer,
    pub start_bit: u64,
    pub size: u64,
    pub byte_order: ByteOrder,
    pub value_type: ValueType,
    pub factor: Number,
    pub offset: Number,
    pub min: Number,
    pub max: Number,
    pub unit: String,
    pub receivers: Vec<String>,
    pub comment: Option<String>,
    /// `VAL_` value descriptions: (raw value, label).
    pub value_descriptions: Vec<(i64, String)>,
}

/// A CAN message (`BO_`).
#[derive(Clone, Debug, PartialEq)]
pub struct Message {
    /// Raw message id.  Bit 31 set marks an extended (29-bit) frame.
    pub id: u32,
    pub name: String,
    /// Data length code in bytes.
    pub size: u64,
    pub transmitter: String,
    pub signals: Vec<Signal>,
    pub comment: Option<String>,
}

/// A network node / ECU (`BU_`).
#[derive(Clone, Debug, PartialEq)]
pub struct Node {
    pub name: String,
    pub comment: Option<String>,
}

/// A global value table (`VAL_TABLE_`).
#[derive(Clone, Debug, PartialEq)]
pub struct ValueTable {
    pub name: String,
    pub values: Vec<(i64, String)>,
}

/// A complete CAN database.
#[derive(Clone, Debug, PartialEq)]
pub struct Dbc {
    pub version: String,
    /// `NS_` new-symbol entries, kept verbatim.
    pub new_symbols: Vec<String>,
    pub nodes: Vec<Node>,
    pub value_tables: Vec<ValueTable>,
    pub messages: Vec<Message>,
    /// Network-level comment (`CM_ "...";`).
    pub comment: Option<String>,
    /// Lines that are not modelled, kept verbatim and written back on save.
    pub extra: Vec<String>,
}

/// The extended-frame flag stored in bit 31 of a message id.
pub const EXTENDED_FLAG: u32 = 0x8000_0000;

// ---------------------------------------------------------------------------
// Mathematical views.
pub struct SignalView {
    pub name: Seq<char>,
    pub multiplexer: Multiplexer,
    pub start_bit: u64,
    pub size: u64,
    pub byte_order: ByteOrder,
    pub value_type: ValueType,
    pub factor: NumberView,
    pub offset: NumberView,
    pub min: NumberView,
    pub max: NumberView,
    pub unit: Seq<char>,
    pub receivers: Seq<Seq<char>>,
    pub comment: Option<Seq<char>>,
    pub value_descriptions: Seq<(i64, Seq<char>)>,
}

pub struct MessageView {
    pub id: u32,
    pub name: Seq<char>,
    pub size: u64,
    pub transmitter: Seq<char>,
    pub signals: Seq<SignalView>,
    pub comment: Option<Seq<char>>,
}

pub struct NodeView {
    pub name: Seq<char>,
    pub comment: Option<Seq<char>>,
}

pub struct ValueTableView {
    pub name: Seq<char>,
    pub values: Seq<(i64, Seq<char>)>,
}

pub struct DbcView {
    pub version: Seq<char>,
    pub new_symbols: Seq<Seq<char>>,
    pub nodes: Seq<NodeView>,
    pub value_tables: Seq<ValueTableView>,
    pub messages: Seq<MessageView>,
    pub comment: Option<Seq<char>>,
    pub extra: Seq<Seq<char>>,
}

pub open spec fn opt_text(o: Option<String>) -> Option<Seq<char>> {
    match o {
        Some(s) => Some(s@),
        None => None,
    }
}

pub open spec fn texts(v: Seq<String>) -> Seq<Seq<char>> {
    v.map_values(|s: String| s@)
}

pub open spec fn pairs(v: Seq<(i64, String)>) -> Seq<(i64, Seq<char>)> {
    v.map_values(|p: (i64, String)| (p.0, p.1@))
}

impl View for Signal {
    type V = SignalView;

    open spec fn view(&self) -> SignalView {
        SignalView {
            name: self.name@,
            multiplexer: self.multiplexer,
            start_bit: self.start_bit,
            size: self.size,
            byte_order: self.byte_order,
            value_type: self.value_type,
            factor: self.factor@,
            offset: self.offset@,
            min: self.min@,
            max: self.max@,
            unit: self.unit@,
            receivers: texts(self.receivers@),
            comment: opt_text(self.comment),
            value_descriptions: pairs(self.value_descriptions@),
        }
    }
}

pub open spec fn signals_view(v: Seq<Signal>) -> Seq<SignalView> {
    v.map_values(|s: Signal| s@)
}

impl View for Message {
    type V = MessageView;

    open spec fn view(&self) -> MessageView {
        MessageView {
            id: self.id,
            name: self.name@,
            size: self.size,
            transmitter: self.transmitter@,
            signals: signals_view(self.signals@),
            comment: opt_text(self.comment),
        }
    }
}

impl View for Node {
    type V = NodeView;

    open spec fn view(&self) -> NodeView {
        NodeView { name: self.name@, comment: opt_text(self.comment) }
    }
}

impl View for ValueTable {
    type V = ValueTableView;

    open spec fn view(&self) -> ValueTableView {
        ValueTableView { name: self.name@, values: pairs(self.values@) }
    }
}

pub open spec fn messages_view(v: Seq<Message>) -> Seq<MessageView> {
    v.map_values(|m: Message| m@)
}

pub open spec fn nodes_view(v: Seq<Node>) -> Seq<NodeView> {
    v.map_values(|n: Node| n@)
}

pub open spec fn tables_view(v: Seq<ValueTable>) -> Seq<ValueTableView> {
    v.map_values(|t: ValueTable| t@)
}

impl View for Dbc {
    type V = DbcView;

    open spec fn view(&self) -> DbcView {
        DbcView {
            version: self.version@,
            new_symbols: texts(self.new_symbols@),
            nodes: nodes_view(self.nodes@),
            value_tables: tables_view(self.value_tables@),
            messages: messages_view(self.messages@),
            comment: opt_text(self.comment),
            extra: texts(self.extra@),
        }
    }
}

pub open spec fn vector_xxx() -> Seq<char> {
    seq!['V', 'e', 'c', 't', 'o', 'r', '_', '_', 'X', 'X', 'X']
}

/// `Vector__XXX`, the placeholder for "no node".
pub fn vector_xxx_string() -> (r: String)
    ensures
        r@ == vector_xxx(),
{
    let v = vec!['V', 'e', 'c', 't', 'o', 'r', '_', '_', 'X', 'X', 'X'];
    assert(v@ =~= vector_xxx());
    crate::text::to_string(&v)
}

impl Signal {
    /// A fresh 8-bit unsigned little-endian signal with unit scaling, received
    /// by no node.
    pub fn new(name: String, start_bit: u64) -> (r: Signal)
        ensures
            r@ == (SignalView {
                name: name@,
                multiplexer: Multiplexer::Normal,
                start_bit,
                size: 8,
                byte_order: ByteOrder::LittleEndian,
                value_type: ValueType::Unsigned,
                factor: NumberView::Finite { negative: false, digits: seq![1u8], exponent: 0 },
                offset: crate::decimal::zero(),
                min: crate::decimal::zero(),
                max: crate::decimal::zero(),
                unit: Seq::empty(),
                receivers: seq![vector_xxx()],
                comment: None,
                value_descriptions: Seq::empty(),
            }),
    {
        let receivers = vec![vector_xxx_string()];
        let value_descriptions: Vec<(i64, String)> = Vec::new();
        let r = Signal {
            name,
            multiplexer: Multiplexer::Normal,
            start_bit,
            size: 8,
            byte_order: ByteOrder::LittleEndian,
            value_type: ValueType::Unsigned,
            factor: Number::one(),
            offset: Number::zero(),
            min: Number::zero(),
            max: Number::zero(),
            unit: String::new(),
            receivers,
            comment: None,
            value_descriptions,
        };
        assert(texts(r.receivers@) =~= seq![vector_xxx()]);
        assert(pairs(r.value_descriptions@) =~= Seq::<(i64, Seq<char>)>::empty());
        r
    }
}

impl Message {
    /// A fresh 8-byte message with no signals, sent by no node.
    pub fn new(id: u32, name: String) -> (r: Message)
        ensures
            r@ == (MessageView {
                id,
                name: name@,
                size: 8,
                transmitter: vector_xxx(),
                signals: Seq::empty(),
                comment: None,
            }),
    {
        let signals: Vec<Signal> = Vec::new();
        let r = Message { id, name, size: 8, transmitter: vector_xxx_string(), signals, comment: None };
        assert(signals_view(r.signals@) =~= Seq::<SignalView>::empty());
        r
    }

    /// True when the message uses a 29-bit extended identifier.
    pub fn is_extended(&self) -> (r: bool)
        ensures
            r == (self.id & EXTENDED_FLAG != 0),
    {
        self.id & EXTENDED_FLAG != 0
    }

    /// The functional identifier with the extended flag masked off.
    pub fn raw_id(&self) -> (r: u32)
        ensures
            r == self.id & 0x7fff_ffff,
    {
        let x = self.id;
        assert(x & !0x8000_0000u32 == x & 0x7fff_ffffu32) by (bit_vector);
        x & !EXTENDED_FLAG
    }
}

/// Index of the first message with the given id.
pub open spec fn first_with_id(msgs: Seq<Message>, id: u32) -> Option<int>
    decreases msgs.len(),
{
    if msgs.len() == 0 {
        None
    } else if msgs.last().id == id && first_with_id(msgs.drop_last(), id) is None {
        Some(msgs.len() - 1)
    } else {
        first_with_id(msgs.drop_last(), id)
    }
}

pub proof fn lemma_first_with_id(msgs: Seq<Message>, id: u32)
    ensures
        match first_with_id(msgs, id) {
            Some(i) => 0 <= i < msgs.len() && msgs[i].id == id && forall|j: int|
                0 <= j < i ==> #[trigger] msgs[j].id != id,
            None => forall|j: int| 0 <= j < msgs.len() ==> #[trigger] msgs[j].id != id,
        },
    decreases msgs.len(),
{
    if msgs.len() > 0 {
        lemma_first_with_id(msgs.drop_last(), id);
        assert forall|j: int| 0 <= j < msgs.len() - 1 implies msgs[j] == msgs.drop_last()[j] by {}
    }
}

/// The total number of signals over all messages.
pub open spec fn total_signals(msgs: Seq<MessageView>) -> nat
    decreases msgs.len(),
{
    if msgs.len() == 0 {
        0
    } else {
        total_signals(msgs.drop_last()) + msgs.last().signals.len()
    }
}

/// Adding a message adds its signals to the count, whatever its id.
pub proof fn lemma_total_signals_push(msgs: Seq<MessageView>, m: MessageView)
    ensures
        total_signals(msgs.push(m)) == total_signals(msgs) + m.signals.len(),
{
    assert(msgs.push(m).drop_last() =~= msgs);
}

/// The count over two lists of messages is the sum of their counts.
pub proof fn lemma_total_signals_append(a: Seq<MessageView>, b: Seq<MessageView>)
    ensures
        total_signals(a + b) == total_signals(a) + total_signals(b),
    decreases b.len(),
{
    if b.len() == 0 {
        assert(a + b =~= a);
    } else {
        lemma_total_signals_append(a, b.drop_last());
        assert((a + b).drop_last() =~= a + b.drop_last());
        assert((a + b).last() == b.last());
    }
}

/// Every message's signals are counted: the count is at least the signals
/// of any one message.
pub proof fn lemma_total_signals_each(msgs: Seq<MessageView>, i: int)
    requires
        0 <= i < msgs.len(),
    ensures
        total_signals(msgs) >= msgs[i].signals.len(),
    decreases msgs.len(),
{
    if i < msgs.len() - 1 {
        lemma_total_signals_each(msgs.drop_last(), i);
        assert(msgs.drop_last()[i] == msgs[i]);
    }
}

impl Dbc {
    /// The first message with the given id.
    pub fn find_message(&self, id: u32) -> (r: Option<&Message>)
        ensures
            r == (match first_with_id(self.messages@, id) {
                Some(i) => Some(&self.messages@[i]),
                None => None,
            }),
    {
        let mut i: usize = 0;
        while i < self.messages.len()
            invariant
                i <= self.messages.len(),
                forall|j: int| 0 <= j < i ==> #[trigger] self.messages@[j].id != id,
            decreases self.messages.len() - i,
        {
            if self.messages[i].id == id {
                proof {
                    lemma_first_with_id(self.messages@, id);
                }
                return Some(&self.messages[i]);
            }
            i += 1;
        }
        proof {
            lemma_first_with_id(self.messages@, id);
        }
        None
    }

    /// The message at position `idx`, for editing in place.
    pub fn message_mut(&mut self, idx: usize) -> (r: Option<&mut Message>)
        ensures
            idx < old(self).messages.len() ==> ({
                &&& r is Some
                &&& *r->0 == old(self).messages@[idx as int]
                &&& final(self).messages@ == old(self).messages@.update(idx as int, *final(r->0))
                &&& final(self).version == old(self).version
                &&& final(self).new_symbols == old(self).new_symbols
                &&& final(self).nodes == old(self).nodes
                &&& final(self).value_tables == old(self).value_tables
                &&& final(self).comment == old(self).comment
                &&& final(self).extra == old(self).extra
            }),
            idx >= old(self).messages.len() ==> r is None && *final(self) == *old(self),
    {
        if idx < self.messages.len() {
            Some(&mut self.messages[idx])
        } else {
            None
        }
    }

    /// Total number of signals across all messages.
    pub fn signal_count(&self) -> (r: usize)
        requires
            total_signals(self@.messages) <= usize::MAX,
        ensures
            r == total_signals(self@.messages),
    {
        let mut total: usize = 0;
        let mut i: usize = 0;
        while i < self.messages.len()
            invariant
                i <= self.messages.len(),
                total_signals(self@.messages) <= usize::MAX,
                total == total_signals(self@.messages.subrange(0, i as int)),
            decreases self.messages.len() - i,
        {
            proof {
                lemma_total_signals_prefix(self@.messages, i as int + 1);
                assert(self@.messages.subrange(0, i + 1).drop_last() =~= self@.messages.subrange(
                    0,
                    i as int,
                ));
            }
            total = total + self.messages[i].signals.len();
            i += 1;
        }
        assert(self@.messages.subrange(0, i as int) =~= self@.messages);
        total
    }
}

pub proof fn lemma_total_signals_prefix(msgs: Seq<MessageView>, j: int)
    requires
        0 <= j <= msgs.len(),
    ensures
        total_signals(msgs.subrange(0, j)) <= total_signals(msgs),
    decreases msgs.len() - j,
{
    if j < msgs.len() {
        lemma_total_signals_prefix(msgs, j + 1);
        assert(msgs.subrange(0, j + 1).drop_last() =~= msgs.subrange(0, j));
    } else {
        assert(msgs.subrange(0, j) =~= msgs);
    }
}

impl Default for Dbc {
    fn default() -> (r: Dbc)
        ensures
            r@ == (DbcView {
                version: Seq::empty(),
                new_symbols: Seq::empty(),
                nodes: Seq::empty(),
                value_tables: Seq::empty(),
                messages: Seq::empty(),
                comment: None,
                extra: Seq::empty(),
            }),
    {
        let r = Dbc {
            version: String::new(),
            new_symbols: Vec::new(),
            nodes: Vec::new(),
            value_tables: Vec::new(),
            messages: Vec::new(),
            comment: None,
            extra: Vec::new(),
        };
        assert(texts(r.new_symbols@) =~= Seq::<Seq<char>>::empty());
        assert(nodes_view(r.nodes@) =~= Seq::<NodeView>::empty());
        assert(tables_view(r.value_tables@) =~= Seq::<ValueTableView>::empty());
        assert(messages_view(r.messages@) =~= Seq::<MessageView>::empty());
        assert(texts(r.extra@) =~= Seq::<Seq<char>>::empty());
        r
    }

}

} // verus!
