use rsdbc::editor::{
    add_value_pair, base_name, bit_owners, contains_chars, hex_chars, matches_lowered,
    message_matches,
    next_free_bit, occupied_positions, parse_receivers, signal_positions_fit,
};
use rsdbc::{ByteOrder, Dbc, Message, Signal, EXTENDED_FLAG};

fn signal(start: u64, size: u64, order: ByteOrder) -> Signal {
    let mut s = Signal::new("S".to_string(), start);
    s.size = size;
    s.byte_order = order;
    s
}

#[test]
fn little_endian_positions_count_up() {
    let s = signal(4, 6, ByteOrder::LittleEndian);
    assert_eq!(occupied_positions(&s), vec![4, 5, 6, 7, 8, 9]);
}

#[test]
fn big_endian_positions_follow_the_sawtooth() {
    let s = signal(7, 16, ByteOrder::BigEndian);
    assert_eq!(
        occupied_positions(&s),
        vec![7, 6, 5, 4, 3, 2, 1, 0, 15, 14, 13, 12, 11, 10, 9, 8]
    );
    let s = signal(3, 6, ByteOrder::BigEndian);
    assert_eq!(occupied_positions(&s), vec![3, 2, 1, 0, 15, 14]);
}

#[test]
fn big_endian_start_beyond_i64_occupies_nothing() {
    let s = signal(u64::MAX, 4, ByteOrder::BigEndian);
    assert!(occupied_positions(&s).is_empty());
}

#[test]
fn next_free_bit_skips_used_bits() {
    let mut m = Message::new(1, "M".to_string());
    assert_eq!(next_free_bit(&m), 0);
    m.signals.push(signal(0, 8, ByteOrder::LittleEndian));
    assert_eq!(next_free_bit(&m), 8);
    m.signals.push(signal(15, 4, ByteOrder::BigEndian));
    // bits 15, 14, 13, 12 are taken; 8 is still free
    assert_eq!(next_free_bit(&m), 8);
    m.signals.push(signal(8, 4, ByteOrder::LittleEndian));
    assert_eq!(next_free_bit(&m), 16);
}

#[test]
fn next_free_bit_goes_past_a_full_frame() {
    let mut m = Message::new(1, "M".to_string());
    m.signals.push(signal(0, 64, ByteOrder::LittleEndian));
    assert_eq!(next_free_bit(&m), 64);
    m.signals.push(signal(65, 3, ByteOrder::LittleEndian));
    assert_eq!(next_free_bit(&m), 64);
    m.signals.push(signal(64, 1, ByteOrder::LittleEndian));
    assert_eq!(next_free_bit(&m), 68);
}

#[test]
fn bit_owners_last_signal_wins() {
    let mut m = Message::new(1, "M".to_string());
    m.size = 2;
    m.signals.push(signal(0, 8, ByteOrder::LittleEndian));
    m.signals.push(signal(4, 8, ByteOrder::LittleEndian));
    let owners = bit_owners(&m);
    assert_eq!(owners.len(), 64);
    assert_eq!(owners[0], Some(0));
    assert_eq!(owners[3], Some(0));
    assert_eq!(owners[4], Some(1));
    assert_eq!(owners[11], Some(1));
    assert_eq!(owners[12], None);
    m.size = 16;
    assert_eq!(bit_owners(&m).len(), 128);
}

#[test]
fn raw_id_and_extended_flag_compose() {
    let mut m = Message::new(0x8000_0123, "M".to_string());
    assert!(m.is_extended());
    assert_eq!(m.raw_id(), 0x123);
    m.set_raw_id(0x1ABC_DEF0);
    assert_eq!(m.raw_id(), 0x1ABC_DEF0);
    assert!(m.is_extended());
    assert_eq!(m.id, 0x9ABC_DEF0);
    m.set_extended(false);
    assert_eq!(m.id, 0x1ABC_DEF0);
    assert!(!m.is_extended());
    m.set_extended(true);
    assert_eq!(m.id, 0x1ABC_DEF0 | EXTENDED_FLAG);
}

#[test]
fn new_message_ids_follow_the_largest() {
    let mut d = Dbc::default();
    assert_eq!(d.next_message_id(), 256);
    let i = d.add_message();
    assert_eq!(i, 0);
    assert_eq!(d.messages[0].id, 256);
    assert_eq!(d.messages[0].name, "NEW_MSG_256");
    d.messages.push(Message::new(0x8000_0400, "X".to_string()));
    assert_eq!(d.next_message_id(), 0x401);
    let j = d.add_message();
    assert_eq!(j, 2);
    assert_eq!(d.messages[2].name, "NEW_MSG_1025");
    assert_eq!(d.messages[2].transmitter, "Vector__XXX");
}

#[test]
fn added_nodes_and_tables_are_numbered() {
    let mut d = Dbc::default();
    d.add_node();
    d.add_node();
    assert_eq!(d.nodes[0].name, "NODE_1");
    assert_eq!(d.nodes[1].name, "NODE_2");
    assert!(d.nodes[1].comment.is_none());
    d.add_value_table();
    assert_eq!(d.value_tables[0].name, "Table_1");
    assert_eq!(
        d.value_tables[0].values,
        vec![(0, "off".to_string()), (1, "on".to_string())]
    );
}

#[test]
fn added_signal_starts_at_the_free_bit() {
    let mut m = Message::new(1, "M".to_string());
    m.add_signal();
    m.add_signal();
    assert_eq!(m.signals[0].name, "NewSignal_1");
    assert_eq!(m.signals[0].start_bit, 0);
    assert_eq!(m.signals[1].name, "NewSignal_2");
    assert_eq!(m.signals[1].start_bit, 8);
    assert_eq!(m.signals[1].size, 8);
    assert_eq!(m.signals[1].receivers, vec!["Vector__XXX".to_string()]);
}

#[test]
fn removing_a_message_picks_the_next_selection() {
    let mut d = Dbc::default();
    d.add_message();
    d.add_message();
    d.add_message();
    assert_eq!(d.remove_message(0), Some(0));
    assert_eq!(d.messages.len(), 2);
    assert_eq!(d.remove_message(1), Some(0));
    assert_eq!(d.remove_message(0), None);
    assert!(d.messages.is_empty());
}

#[test]
fn richest_message_is_the_last_with_most_signals() {
    let mut d = Dbc::default();
    assert_eq!(d.richest_message(), None);
    for n in [1usize, 3, 2, 3] {
        let mut m = Message::new(n as u32, "M".to_string());
        for _ in 0..n {
            m.add_signal();
        }
        d.messages.push(m);
    }
    assert_eq!(d.richest_message(), Some(3));
}

#[test]
fn receivers_are_trimmed_and_never_empty() {
    assert_eq!(parse_receivers(" A, B,,C "), vec!["A", "B", "C"]);
    assert_eq!(parse_receivers(""), vec!["Vector__XXX"]);
    assert_eq!(parse_receivers(" , "), vec!["Vector__XXX"]);
}

#[test]
fn base_name_is_the_last_path_component() {
    assert_eq!(base_name("dir/sub\\file.dbc"), "file.dbc");
    assert_eq!(base_name("plain.dbc"), "plain.dbc");
    assert_eq!(base_name("trailing/"), "");
}

#[test]
fn new_value_pair_follows_the_last() {
    let mut ps: Vec<(i64, String)> = Vec::new();
    add_value_pair(&mut ps);
    assert_eq!(ps, vec![(0, String::new())]);
    ps[0].0 = 41;
    add_value_pair(&mut ps);
    assert_eq!(ps[1], (42, String::new()));
}

#[test]
fn position_fit_check_matches_the_limits() {
    assert!(signal_positions_fit(&signal(0, 64, ByteOrder::LittleEndian)));
    assert!(!signal_positions_fit(&signal(u64::MAX, 2, ByteOrder::LittleEndian)));
    assert!(signal_positions_fit(&signal(u64::MAX, 1, ByteOrder::LittleEndian)));
    assert!(signal_positions_fit(&signal(u64::MAX, 9, ByteOrder::BigEndian)));
    assert!(signal_positions_fit(&signal(i64::MAX as u64, 1, ByteOrder::BigEndian)));
    assert!(signal_positions_fit(&signal(i64::MAX as u64 - 1, 6, ByteOrder::BigEndian)));
    assert!(!signal_positions_fit(&signal(i64::MAX as u64 - 1, 7, ByteOrder::BigEndian)));
    assert!(!signal_positions_fit(&signal(i64::MAX as u64 - 7, 1, ByteOrder::BigEndian)));
    assert!(signal_positions_fit(&signal(i64::MAX as u64 - 15, 8, ByteOrder::BigEndian)));
    assert!(signal_positions_fit(&signal(63, 64, ByteOrder::BigEndian)));
}

#[test]
fn filter_matches_name_or_hex_id() {
    let m = Message::new(0x8000_01AF, "Engine_Data".to_string());
    assert!(message_matches(&m, ""));
    assert!(message_matches(&m, "engine"));
    assert!(message_matches(&m, "_da"));
    assert!(message_matches(&m, "1af"));
    assert!(message_matches(&m, "1AF"));
    assert!(message_matches(&m, "ENGINE_d"));
    assert!(!message_matches(&m, "8000"));
    assert!(!message_matches(&m, "motor"));
    let name: Vec<char> = "engine_data".chars().collect();
    let f: Vec<char> = "1AF".chars().collect();
    assert!(!matches_lowered(&name, 0x1af, &f));
    let f: Vec<char> = "1af".chars().collect();
    assert!(matches_lowered(&name, 0x1af, &f));
}

#[test]
fn hex_text_and_search() {
    assert_eq!(hex_chars(0), vec!['0']);
    assert_eq!(hex_chars(0x7fff_ffff).iter().collect::<String>(), "7fffffff");
    assert_eq!(hex_chars(4096).iter().collect::<String>(), "1000");
    let hay: Vec<char> = "abcabd".chars().collect();
    assert!(contains_chars(&hay, &"abd".chars().collect()));
    assert!(contains_chars(&hay, &Vec::new()));
    assert!(!contains_chars(&hay, &"abe".chars().collect()));
    assert!(!contains_chars(&"ab".chars().collect(), &"abc".chars().collect()));
}

#[test]
fn small_edits_change_only_their_item() {
    let mut d = Dbc::new_database();
    assert_eq!(d.version, "");
    assert_eq!(d.nodes.len(), 1);
    assert_eq!(d.nodes[0].name, "ECU");
    assert!(d.messages.is_empty() && d.value_tables.is_empty() && d.extra.is_empty());
    d.add_node();
    d.remove_node(0);
    assert_eq!(d.nodes.len(), 1);
    assert_eq!(d.nodes[0].name, "NODE_2");
    d.add_value_table();
    d.add_value_table();
    d.remove_value_table(0);
    assert_eq!(d.value_tables.len(), 1);
    assert_eq!(d.value_tables[0].name, "Table_2");

    let mut m = Message::new(1, "M".to_string());
    m.add_signal();
    m.add_signal();
    m.add_signal();
    m.move_signal_up(2);
    let names: Vec<&str> = m.signals.iter().map(|s| s.name.as_str()).collect();
    assert_eq!(names, vec!["NewSignal_1", "NewSignal_3", "NewSignal_2"]);
    m.remove_signal(0);
    let names: Vec<&str> = m.signals.iter().map(|s| s.name.as_str()).collect();
    assert_eq!(names, vec!["NewSignal_3", "NewSignal_2"]);

    let mut pairs = vec![(0i64, "a".to_string()), (1, "b".to_string()), (2, "c".to_string())];
    rsdbc::editor::remove_value_pair(&mut pairs, 1);
    assert_eq!(pairs, vec![(0i64, "a".to_string()), (2, "c".to_string())]);
}
