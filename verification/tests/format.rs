use rsdbc::{parse, parse_checked, ByteOrder, Dbc, Multiplexer, Number, ValueType};
use rsdbc::lexer::{join_statement, unquoted_semicolon};

const DEFAULT_SYMBOLS: [&str; 30] = [
    "NS_DESC_", "CM_", "BA_DEF_", "BA_", "VAL_", "CAT_DEF_", "CAT_", "FILTER", "BA_DEF_DEF_",
    "EV_DATA_", "ENVVAR_DATA_", "SGTYPE_", "SGTYPE_VAL_", "BA_DEF_SGTYPE_", "BA_SGTYPE_",
    "SIG_TYPE_REF_", "VAL_TABLE_", "SIG_GROUP_", "SIG_VALTYPE_", "SIGTYPE_VALTYPE_", "BO_TX_BU_",
    "BA_DEF_REL_", "BA_REL_", "BA_DEF_DEF_REL_", "BU_SG_REL_", "BU_EV_REL_", "BU_BO_REL_",
    "SG_MUL_VAL_", "NS_DESC_", "CM_",
];

fn header(version: &str, nodes: &str) -> String {
    let mut out = format!("VERSION \"{version}\"\n\nNS_ :\n");
    for s in DEFAULT_SYMBOLS {
        out.push('\t');
        out.push_str(s);
        out.push('\n');
    }
    out.push_str("\nBS_:\n\nBU_:");
    out.push_str(nodes);
    out.push('\n');
    out
}

#[test]
fn empty_database_writes_the_default_skeleton() {
    let text = rsdbc::writer::write(&Dbc::default());
    let expected = header("", "") + "\n";
    assert_eq!(text, expected);
}

#[test]
fn written_document_has_the_exact_layout() {
    let src = "VERSION \"1.0\"\nBU_: ECU GW\nVAL_TABLE_ Onoff 1 \"on\" 0 \"off\" ;\nBO_ 2147484160 Big: 8 ECU\n SG_ Sw M : 7|8@0- (0.5,-2) [-10|10] \"V\" GW,ECU\n SG_ Val m3 : 8|4@1+ (1,0) [0|15] \"\" GW\nCM_ \"net\";\nCM_ BU_ GW \"gateway\";\nCM_ BO_ 2147484160 \"big \\\"one\\\"\";\nCM_ SG_ 2147484160 Val \"value\";\nBA_DEF_ \"X\" INT 0 1;\nVAL_ 2147484160 Val 1 \"one\" 0 \"zero\" ;\n";
    let dbc = parse(src).unwrap();
    let text = rsdbc::writer::write(&dbc);
    let expected = header("1.0", " ECU GW")
        + "VAL_TABLE_ Onoff 1 \"on\" 0 \"off\" ;\n\n"
        + "BO_ 2147484160 Big: 8 ECU\n"
        + " SG_ Sw M : 7|8@0- (0.5,-2) [-10|10] \"V\" GW,ECU\n"
        + " SG_ Val m3 : 8|4@1+ (1,0) [0|15] \"\" GW\n\n"
        + "CM_ \"net\";\n"
        + "CM_ BU_ GW \"gateway\";\n"
        + "CM_ BO_ 2147484160 \"big \\\"one\\\"\";\n"
        + "CM_ SG_ 2147484160 Val \"value\";\n"
        + "BA_DEF_ \"X\" INT 0 1;\n"
        + "VAL_ 2147484160 Val 1 \"one\" 0 \"zero\" ;\n";
    assert_eq!(text, expected);
    assert_eq!(dbc.messages[0].comment.as_deref(), Some("big \"one\""));
}

#[test]
fn written_database_parses_back() {
    let src = "VERSION \"v\\\\2\"\nBU_: A B\nBO_ 10 M1: 2 A\n SG_ X : 0|8@1+ (1,0) [0|0] \"\" B\n SG_ Y m1 : 8|8@1- (0.25,1.5) [-3|3.75] \"deg\" A,B\nBO_ 11 M2: 1 B\n SG_ Z : 0|1@1+ (1,0) [0|1] \"\" A\nCM_ \"top\";\nCM_ BU_ B \"node b\";\nCM_ BO_ 11 \"m2\";\nCM_ SG_ 10 Y \"why\";\nSIG_GROUP_ 10 G 1 : X Y;\nVAL_ 10 X 1 \"a\" 2 \"b\" ;\n";
    let d1 = parse(src).unwrap();
    assert_eq!(d1.version, "v\\2");
    let d2 = parse(&rsdbc::writer::write(&d1)).unwrap();
    assert_eq!(d2.version, d1.version);
    assert_eq!(d2.nodes, d1.nodes);
    assert_eq!(d2.messages, d1.messages);
    assert_eq!(d2.value_tables, d1.value_tables);
    assert_eq!(d2.comment, d1.comment);
    assert_eq!(d2.extra, d1.extra);
    assert_eq!(d2.new_symbols.len(), 30);
    assert_eq!(rsdbc::writer::write(&d2), rsdbc::writer::write(&d1));
}

#[test]
fn signal_fields_are_read() {
    let src = "BO_ 1 M: 8 E\n SG_ s m12 : 3|10@0- (2.5e-1,-1) [-1E2|inf] \"u\\\"x\" R1 R2,R3\n";
    let d = parse(src).unwrap();
    let s = &d.messages[0].signals[0];
    assert_eq!(s.multiplexer, Multiplexer::Multiplexed(12));
    assert_eq!(s.start_bit, 3);
    assert_eq!(s.size, 10);
    assert_eq!(s.byte_order, ByteOrder::BigEndian);
    assert_eq!(s.value_type, ValueType::Signed);
    assert_eq!(s.factor.to_text(), "0.25");
    assert_eq!(s.offset.to_text(), "-1");
    assert_eq!(s.min.to_text(), "-100");
    assert_eq!(s.max.to_text(), "inf");
    assert_eq!(s.unit, "u\"x");
    assert_eq!(s.receivers, vec!["R1", "R2", "R3"]);
}

#[test]
fn message_without_transmitter_gets_the_placeholder() {
    let d = parse("BO_ 7 Lone: 3\n").unwrap();
    assert_eq!(d.messages[0].name, "Lone");
    assert_eq!(d.messages[0].size, 3);
    assert_eq!(d.messages[0].transmitter, "Vector__XXX");
}

#[test]
fn message_errors_name_the_line() {
    assert_eq!(parse("BO_ x N: 8 E").unwrap_err().message, "line 1: bad message id 'x'");
    assert_eq!(parse("\nBO_ 5").unwrap_err().message, "line 2: BO_ missing name");
    assert_eq!(parse("BO_ 5 N:").unwrap_err().message, "line 1: BO_ missing size");
    assert_eq!(parse("BO_ 5 N: z E").unwrap_err().message, "line 1: bad dlc 'z'");
    assert_eq!(
        parse("BO_ 4294967296 N: 1 E").unwrap_err().message,
        "line 1: bad message id '4294967296'"
    );
}

fn signal_error(sg: &str) -> String {
    parse(&format!("BO_ 1 M: 8 E\n{sg}\n")).unwrap_err().message
}

#[test]
fn signal_errors_name_the_problem() {
    assert_eq!(
        parse(" SG_ a : 0|8@1+ (1,0) [0|0] \"\" X").unwrap_err().message,
        "line 1: SG_ without preceding BO_"
    );
    assert_eq!(signal_error("SG_ a 0|8@1+"), "line 2: SG_ missing ':'");
    assert_eq!(signal_error("SG_ : 0|8@1+ (1,0) [0|0]"), "line 2: SG_ missing name");
    assert_eq!(signal_error("SG_ a : 0|8@1+ 1,0) [0|0]"), "line 2: SG_ missing '('");
    assert_eq!(signal_error("SG_ a : 0 8@1+ (1,0) [0|0]"), "line 2: SG_ missing '|'");
    assert_eq!(signal_error("SG_ a : x|8@1+ (1,0) [0|0]"), "line 2: bad start bit");
    assert_eq!(signal_error("SG_ a : 0|8 1+ (1,0) [0|0]"), "line 2: SG_ missing '@'");
    assert_eq!(signal_error("SG_ a : 0|y@1+ (1,0) [0|0]"), "line 2: bad size");
    assert_eq!(signal_error("SG_ a : 0|8@1+ (1,0 [0|0]"), "line 2: SG_ missing ')'");
    assert_eq!(signal_error("SG_ a : 0|8@1+ (1 0) [0|0]"), "line 2: SG_ bad (factor,offset)");
    assert_eq!(signal_error("SG_ a : 0|8@1+ (q,0) [0|0]"), "line 2: bad factor");
    assert_eq!(signal_error("SG_ a : 0|8@1+ (1,q) [0|0]"), "line 2: bad offset");
    assert_eq!(signal_error("SG_ a : 0|8@1+ (1,0) 0|0]"), "line 2: SG_ missing '['");
    assert_eq!(signal_error("SG_ a : 0|8@1+ (1,0) [0|0"), "line 2: SG_ missing ']'");
    assert_eq!(signal_error("SG_ a : 0|8@1+ (1,0) [0 0]"), "line 2: SG_ bad [min|max]");
    assert_eq!(signal_error("SG_ a : 0|8@1+ (1,0) [q|0]"), "line 2: bad min");
    assert_eq!(signal_error("SG_ a : 0|8@1+ (1,0) [0|q]"), "line 2: bad max");
}

#[test]
fn delimiters_out_of_order_abort_the_read() {
    assert_eq!(
        parse_checked("BO_ 1 M: 8 E\n SG_ a : 0@8|1+ (1,0) [0|0] \"\" X\n").unwrap().unwrap_err().message,
        "line 2: bad start bit"
    );
    assert!(parse_checked("BO_ 1 M: 8 E\n SG_ a : 0|8@1+ )1,0( [0|0]\n").is_none());
    assert!(parse_checked("BO_ 1 M: 8 E\n SG_ a : 0|8@1+ (1,0) ]0|0[\n").is_none());
    assert_eq!(
        parse_checked("BO_ x").unwrap().unwrap_err().message,
        "line 1: bad message id 'x'"
    );
    assert!(parse_checked("").unwrap().is_ok());
}

#[test]
fn unparsed_statements_are_kept() {
    let src = "BA_ \"A\" BO_ 1\n 2;\nVAL_ x y ;\nCM_ BX_ \"q\";\nCM_ nothing;\nFOO bar\nVAL_TABLE_ ;\n";
    let d = parse(src).unwrap();
    assert_eq!(
        d.extra,
        vec![
            "BA_ \"A\" BO_ 1\n 2;".to_string(),
            "VAL_ x y ;".to_string(),
            "CM_ nothing;".to_string(),
            "FOO bar".to_string(),
            "VAL_TABLE_ ;".to_string(),
        ]
    );
    assert_eq!(d.comment.as_deref(), Some("q"));
}

#[test]
fn comments_for_unknown_objects_are_dropped() {
    let src = "BU_: A\nBO_ 1 M: 8 A\nCM_ BU_ Z \"none\";\nCM_ BO_ 2 \"none\";\nCM_ SG_ 1 Q \"none\";\nVAL_ 9 S 1 \"x\" ;\n";
    let d = parse(src).unwrap();
    assert!(d.nodes[0].comment.is_none());
    assert!(d.messages[0].comment.is_none());
}

#[test]
fn numbers_read_and_print_exactly() {
    let text = |s: &str| Number::parse(s).map(|n| n.to_text());
    assert_eq!(text("0.03278").as_deref(), Some("0.03278"));
    assert_eq!(text("1e3").as_deref(), Some("1000"));
    assert_eq!(text("-5.0").as_deref(), Some("-5"));
    assert_eq!(text("2.50").as_deref(), Some("2.5"));
    assert_eq!(text("1.5e-3").as_deref(), Some("0.0015"));
    assert_eq!(text("+7").as_deref(), Some("7"));
    assert_eq!(text(".5").as_deref(), Some("0.5"));
    assert_eq!(text("-0").as_deref(), Some("0"));
    assert_eq!(text("inf").as_deref(), Some("inf"));
    assert_eq!(text("-Infinity").as_deref(), Some("-inf"));
    assert_eq!(text("nan").as_deref(), Some("NaN"));
    assert_eq!(text("1e400").as_deref(), Some("inf"));
    assert_eq!(text("1e-400").as_deref(), Some("0"));
    assert_eq!(text("abc"), None);
    assert_eq!(text(""), None);
    assert_eq!(text("1.2.3"), None);
}

#[test]
fn numbers_overflow_and_underflow_where_a_double_does() {
    let text = |s: &str| Number::parse(s).map(|n| n.to_text());
    assert_eq!(text("2e308").as_deref(), Some("inf"));
    assert_eq!(text("-1.8e308").as_deref(), Some("-inf"));
    let over = "179769313486231580793728971405303415079934132710037826936173778980444968292764750946649017977587207096330286416692887910946555547851940402630657488671505820681908902000708383676273854845817711531764475730270069855571366959622842914819860834936475292719074168444365510704342711559699508093042880177904174497792";
    let below = "179769313486231580793728971405303415079934132710037826936173778980444968292764750946649017977587207096330286416692887910946555547851940402630657488671505820681908902000708383676273854845817711531764475730270069855571366959622842914819860834936475292719074168444365510704342711559699508093042880177904174497791";
    assert_eq!(text(over).as_deref(), Some("inf"));
    assert_eq!(text(below).as_deref(), Some(below));
    assert_eq!(text("1.7976931348623157e308").map(|t| t.len()), Some(309));
    let half = format!("0.{}{}", "0".repeat(1075 - 752), "24703282292062327208828439643411068618252990130716238221279284125033775363510437593264991818081799618989828234772285886546332835517796989819938739800539093906315035659515570226392290858392449105184435931802849936536152500319370457678249219365623669863658480757001585769269903706311928279558551332927834338409351978015531246597263579574622766465272827220056374006485499977096599470454020828166226237857393450736339007967761930577506740176324673600968951340535537458516661134223766678604162159680461914467291840300530057530849048765391711386591646239524912623653881879636239373280423891018672348497668235089863388587925628302755995657524455507255189313690836254779186948667994968324049705821028513185451396213837722826145437693412532098591327667236328125");
    assert_eq!(text(&half).as_deref(), Some("0"));
    assert_eq!(text(&format!("{half}1")).as_deref(), Some(format!("{half}1").as_str()));
    assert_eq!(text("2.4703282292062327e-324").as_deref(), Some("0"));
    assert_eq!(text("2.4703282292062328e-324").map(|t| t.len()), Some(2 + 323 + 17));
    assert_eq!(text("1e-324").as_deref(), Some("0"));
}

#[test]
fn labels_and_values_round_trip() {
    let src = "VAL_TABLE_ T -3 \"minus \\\"three\\\"\" 9223372036854775807 \"max\" ;\n";
    let d = parse(src).unwrap();
    assert_eq!(
        d.value_tables[0].values,
        vec![
            (-3, "minus \"three\"".to_string()),
            (i64::MAX, "max".to_string()),
        ]
    );
    let d2 = parse(&rsdbc::writer::write(&d)).unwrap();
    assert_eq!(d2.value_tables, d.value_tables);
}

#[test]
fn labels_and_kinds_name_themselves() {
    assert_eq!(ByteOrder::LittleEndian.label(), "Little (Intel)");
    assert_eq!(ByteOrder::BigEndian.label(), "Big (Motorola)");
    assert_eq!(ValueType::Unsigned.label(), "Unsigned");
    assert_eq!(ValueType::Signed.label(), "Signed");
}

#[test]
fn new_symbols_are_kept_verbatim() {
    let d = parse("NS_ :\n  A_\n\tB_ \nBS_:\n").unwrap();
    assert_eq!(d.new_symbols, vec!["A_", "B_"]);
    assert!(rsdbc::writer::write(&d).contains("NS_ :\n\tA_\n\tB_\n\n"));
}

#[test]
fn signal_count_totals_all_messages() {
    let d = parse("BO_ 1 A: 8 E\n SG_ a : 0|8@1+ (1,0) [0|0] \"\" X\nBO_ 2 B: 8 E\n SG_ b : 0|8@1+ (1,0) [0|0] \"\" X\n SG_ c : 8|8@1+ (1,0) [0|0] \"\" X\n").unwrap();
    assert_eq!(d.signal_count(), 3);
    assert_eq!(d.find_message(2).unwrap().name, "B");
    assert!(d.find_message(3).is_none());
}

#[test]
fn comments_and_values_may_come_before_their_objects() {
    let src = "CM_ BO_ 5 \"early\";\nVAL_ 5 B 1 \"one\" ;\nCM_ SG_ 5 B \"sig\";\nBO_ 5 M: 8 E\n SG_ A : 0|8@1+ (1,0) [0|0] \"\" X\n SG_ B : 8|8@1+ (1,0) [0|0] \"\" X\n";
    let d = parse(src).unwrap();
    assert_eq!(d.messages[0].comment.as_deref(), Some("early"));
    assert_eq!(d.messages[0].signals[1].comment.as_deref(), Some("sig"));
    assert_eq!(d.messages[0].signals[1].value_descriptions, vec![(1, "one".to_string())]);
    assert!(d.messages[0].signals[0].value_descriptions.is_empty());
}

#[test]
fn comments_go_to_the_first_object_with_that_name_or_id() {
    let src = "BU_: N N\nBO_ 3 A: 8 E\nBO_ 3 B: 8 E\nCM_ BU_ N \"first\";\nCM_ BO_ 3 \"m\";\nCM_ \"one\";\nCM_ \"two\";\n";
    let d = parse(src).unwrap();
    assert_eq!(d.nodes[0].comment.as_deref(), Some("first"));
    assert!(d.nodes[1].comment.is_none());
    assert_eq!(d.messages[0].comment.as_deref(), Some("m"));
    assert!(d.messages[1].comment.is_none());
    assert_eq!(d.comment.as_deref(), Some("two"));
}

#[test]
fn multi_line_comments_are_joined() {
    let src = "BU_: N\nCM_ BU_ N \"line one\nline two; still\";\n";
    let d = parse(src).unwrap();
    assert_eq!(d.nodes[0].comment.as_deref(), Some("line one\nline two; still"));
}

#[test]
fn message_can_be_edited_in_place() {
    let mut d = parse("BO_ 1 A: 8 E\n").unwrap();
    if let Some(m) = d.message_mut(0) {
        m.name = "Renamed".to_string();
    }
    assert!(d.message_mut(1).is_none());
    assert_eq!(d.messages[0].name, "Renamed");
}

#[test]
fn carriage_returns_before_line_breaks_are_ignored() {
    let d = parse("VERSION \"x\"\r\nBU_: A B\r\n").unwrap();
    assert_eq!(d.version, "x");
    assert_eq!(d.nodes.len(), 2);
    assert_eq!(d.nodes[1].name, "B");
}

#[test]
fn statements_over_several_lines_round_trip() {
    let src = "BU_: N\nVAL_TABLE_ T 1 \"first\nsecond\" ;\nBO_ 5 M: 8 N\n SG_ S : 0|8@1+ (1,0) [0|0] \"\" N\nCM_ BU_ N \"line one\nline two; still\";\nCM_ SG_ 5 S \"a\n\nb\";\nBA_ \"A\" BO_ 5\n 2;\nVAL_ 5 S 0 \"zero\nor none\" ;\n";
    let d1 = parse(src).unwrap();
    assert_eq!(d1.value_tables[0].values[0].1, "first\nsecond");
    assert_eq!(d1.messages[0].signals[0].comment.as_deref(), Some("a\n\nb"));
    assert_eq!(d1.extra, vec!["BA_ \"A\" BO_ 5\n 2;".to_string()]);
    let text = rsdbc::writer::write(&d1);
    assert!(text.contains("CM_ BU_ N \"line one\nline two; still\";\n"));
    let d2 = parse(&text).unwrap();
    assert_eq!(d2.nodes, d1.nodes);
    assert_eq!(d2.messages, d1.messages);
    assert_eq!(d2.value_tables, d1.value_tables);
    assert_eq!(d2.extra, d1.extra);
    assert_eq!(rsdbc::writer::write(&d2), text);
}

#[test]
fn a_failed_parse_hands_back_what_was_read() {
    let err = parse("BU_: A\nBO_ x M: 8 A\n").unwrap_err();
    assert_eq!(err.message, "line 2: bad message id 'x'");
    assert_eq!(err.partial.nodes.len(), 1);
    assert_eq!(err.partial.nodes[0].name, "A");
    assert!(err.partial.nodes[0].comment.is_none());
    assert!(err.partial.messages.is_empty());
    let err = parse("BO_ 1 M: 8 E\nCM_ BO_ 1 \"c\";\n SG_ a 0|8@1+\n").unwrap_err();
    assert_eq!(err.partial.messages[0].comment.as_deref(), Some("c"));
}

#[test]
fn escaped_text_reads_back_between_quotes() {
    for (s, r) in [("plain", ""), ("a \"quoted\" \\ path", " rest;"), ("", "x")] {
        let e = rsdbc::writer::escape(s);
        let text: Vec<char> = format!("\"{e}\"{r}").chars().collect();
        let (got, rest) = rsdbc::lexer::read_first_quoted(&text).unwrap();
        assert_eq!(got.iter().collect::<String>(), s);
        assert_eq!(rest.iter().collect::<String>(), r);
    }
    assert_eq!(rsdbc::writer::escape("a\"b\\c"), "a\\\"b\\\\c");
}

#[test]
fn an_unterminated_last_statement_round_trips() {
    let src = "BU_: A\nBO_ 1 M: 8 A\n SG_ s : 0|8@1+ (1,0) [0|0] \"\" A\nCM_ SG_ 1 s \"c\";\nBA_ x\n  y";
    let d1 = parse(src).unwrap();
    assert_eq!(d1.extra, vec!["BA_ x\n  y".to_string()]);
    let text = rsdbc::writer::write(&d1);
    let d2 = parse(&text).unwrap();
    assert_eq!(d2.messages, d1.messages);
    assert_eq!(d2.nodes, d1.nodes);
    assert_eq!(d2.extra, d1.extra);
    assert_eq!(rsdbc::writer::write(&d2), text);
}

#[test]
fn an_unterminated_statement_swallows_value_descriptions_written_after_it() {
    let src = "BO_ 1 M: 8 A\n SG_ s : 0|8@1+ (1,0) [0|0] \"\" A\nVAL_ 1 s 1 \"one\" ;\nBA_ x\n";
    let d1 = parse(src).unwrap();
    assert_eq!(d1.messages[0].signals[0].value_descriptions.len(), 1);
    let d2 = parse(&rsdbc::writer::write(&d1)).unwrap();
    assert!(d2.messages[0].signals[0].value_descriptions.is_empty());
    assert_eq!(d2.extra, vec!["BA_ x\nVAL_ 1 s 1 \"one\" ;".to_string()]);
}

#[test]
fn statement_scanning_counts_bytes_and_joins_lines() {
    assert_eq!(unquoted_semicolon("BA_ x;"), Some(5));
    assert_eq!(unquoted_semicolon("CM_ \"é;\" é;"), Some(12));
    assert_eq!(unquoted_semicolon("CM_ \"a\\\";\""), None);
    assert_eq!(unquoted_semicolon("no end"), None);
    let lines: Vec<Vec<char>> = ["CM_ \"a", "b\"; junk", "next"].iter().map(|l| l.chars().collect()).collect();
    let (stmt, used) = join_statement(&lines, 0);
    assert_eq!(stmt.iter().collect::<String>(), "CM_ \"a\nb\";");
    assert_eq!(used, 2);
    let (stmt, used) = join_statement(&lines, 3);
    assert!(stmt.is_empty());
    assert_eq!(used, 0);
    let (stmt, used) = join_statement(&lines, 2);
    assert_eq!(stmt.iter().collect::<String>(), "next");
    assert_eq!(used, 1);
}

#[test]
fn default_symbols_read_back_despite_odd_names() {
    let mut d = Dbc::default();
    d.nodes.push(rsdbc::Node { name: "two words".to_string(), comment: None });
    let d2 = parse(&rsdbc::writer::write(&d)).unwrap();
    assert_eq!(d2.new_symbols, DEFAULT_SYMBOLS.iter().map(|s| s.to_string()).collect::<Vec<_>>());
    assert_eq!(d2.nodes.len(), 2);
}
