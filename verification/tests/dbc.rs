use rsdbc::{parse, Multiplexer, Number, ValueType};

const SOCIALLEDGE: &str = r#"VERSION ""


NS_ :
	BA_
	BA_DEF_
	BA_DEF_DEF_
	CM_
	VAL_

BS_:

BU_: DBG DRIVER IO MOTOR SENSOR


BO_ 100 DRIVER_HEARTBEAT: 1 DRIVER
 SG_ DRIVER_HEARTBEAT_cmd : 0|8@1+ (1,0) [0|0] "" SENSOR,MOTOR

BO_ 500 IO_DEBUG: 4 IO
 SG_ IO_DEBUG_test_unsigned : 0|8@1+ (1,0) [0|0] "" DBG
 SG_ IO_DEBUG_test_enum : 8|8@1+ (1,0) [0|0] "" DBG
 SG_ IO_DEBUG_test_signed : 16|8@1- (1,0) [0|0] "" DBG
 SG_ IO_DEBUG_test_float : 24|8@1+ (0.5,0) [0|0] "" DBG

BO_ 101 MOTOR_CMD: 1 DRIVER
 SG_ MOTOR_CMD_steer : 0|4@1- (1,-5) [-5|5] "" MOTOR
 SG_ MOTOR_CMD_drive : 4|4@1+ (1,0) [0|9] "" MOTOR

BO_ 400 MOTOR_STATUS: 3 MOTOR
 SG_ MOTOR_STATUS_wheel_error : 0|1@1+ (1,0) [0|0] "" DRIVER,IO
 SG_ MOTOR_STATUS_speed_kph : 8|16@1+ (0.001,0) [0|0] "kph" DRIVER,IO

BO_ 200 SENSOR_SONARS: 8 SENSOR
 SG_ SENSOR_SONARS_mux M : 0|4@1+ (1,0) [0|0] "" DRIVER,IO
 SG_ SENSOR_SONARS_err_count : 4|12@1+ (1,0) [0|0] "" DRIVER,IO
 SG_ SENSOR_SONARS_left m0 : 16|12@1+ (0.1,0) [0|0] "" DRIVER,IO
 SG_ SENSOR_SONARS_middle m0 : 28|12@1+ (0.1,0) [0|0] "" DRIVER,IO
 SG_ SENSOR_SONARS_right m0 : 40|12@1+ (0.1,0) [0|0] "" DRIVER,IO
 SG_ SENSOR_SONARS_rear m0 : 52|12@1+ (0.1,0) [0|0] "" DRIVER,IO
 SG_ SENSOR_SONARS_no_filt_left m1 : 16|12@1+ (0.1,0) [0|0] "" DBG
 SG_ SENSOR_SONARS_no_filt_middle m1 : 28|12@1+ (0.1,0) [0|0] "" DBG
 SG_ SENSOR_SONARS_no_filt_right m1 : 40|12@1+ (0.1,0) [0|0] "" DBG
 SG_ SENSOR_SONARS_no_filt_rear m1 : 52|12@1+ (0.1,0) [0|0] "" DBG

CM_ BU_ DRIVER "// The driver controller driving the car //"; // a trailing line comment
CM_ BU_ MOTOR "The motor controller of the car";
CM_ BU_ SENSOR "The sensor controller of the car";
CM_ BO_ 100 "Sync message used to synchronize the controllers";
BA_DEF_  "BusType" STRING ;
BA_DEF_ BO_ "GenMsgCycleTime" INT 0 0;
BA_DEF_DEF_  "BusType" "CAN";
BA_DEF_DEF_  "GenMsgCycleTime" 0;
BA_ "GenMsgCycleTime" BO_ 100 1000;
BA_ "GenMsgCycleTime" BO_ 500 100;
BA_ "GenMsgCycleTime" BO_ 101 100;
BA_ "GenMsgCycleTime" BO_ 400 100;
BA_ "GenMsgCycleTime" BO_ 200 100;
VAL_ 100 DRIVER_HEARTBEAT_cmd 2 "DRIVER_HEARTBEAT_cmd_REBOOT" 1 "DRIVER_HEARTBEAT_cmd_SYNC" 0 "DRIVER_HEARTBEAT_cmd_NOOP" ;
VAL_ 500 IO_DEBUG_test_enum 2 "IO_DEBUG_test2_enum_two" 1 "IO_DEBUG_test2_enum_one" ;
"#;

fn value(n: &Number) -> f64 {
    n.to_text().parse::<f64>().unwrap()
}

#[test]
fn parses_basic_structure() {
    let dbc = parse(SOCIALLEDGE).unwrap();
    assert_eq!(dbc.nodes.len(), 5);
    assert_eq!(dbc.nodes[0].name, "DBG");
    assert_eq!(dbc.messages.len(), 5);

    // Multiplexed message.
    let sonars = dbc.find_message(200).unwrap();
    assert_eq!(sonars.name, "SENSOR_SONARS");
    assert_eq!(sonars.signals.len(), 10);
    let mux = &sonars.signals[0];
    assert_eq!(mux.name, "SENSOR_SONARS_mux");
    assert_eq!(mux.multiplexer, Multiplexer::Multiplexor);
    let left = sonars
        .signals
        .iter()
        .find(|s| s.name == "SENSOR_SONARS_left")
        .unwrap();
    assert_eq!(left.multiplexer, Multiplexer::Multiplexed(0));
    let no_filt = sonars
        .signals
        .iter()
        .find(|s| s.name == "SENSOR_SONARS_no_filt_left")
        .unwrap();
    assert_eq!(no_filt.multiplexer, Multiplexer::Multiplexed(1));

    // Signed signal with a negative offset.
    let steer = dbc
        .find_message(101)
        .unwrap()
        .signals
        .iter()
        .find(|s| s.name == "MOTOR_CMD_steer")
        .unwrap();
    assert_eq!(steer.value_type, ValueType::Signed);
    assert_eq!(value(&steer.offset), -5.0);

    // VAL_ attached to the right signal.
    let cmd = &dbc.find_message(100).unwrap().signals[0];
    assert_eq!(cmd.value_descriptions.len(), 3);
    assert_eq!(
        cmd.value_descriptions[0],
        (2, "DRIVER_HEARTBEAT_cmd_REBOOT".to_string())
    );
}

#[test]
fn comments_survive_trailing_line_comments() {
    let dbc = parse(SOCIALLEDGE).unwrap();
    let motor = dbc.nodes.iter().find(|n| n.name == "MOTOR").unwrap();
    assert_eq!(motor.comment.as_deref(), Some("The motor controller of the car"));
    let driver = dbc.nodes.iter().find(|n| n.name == "DRIVER").unwrap();
    assert_eq!(
        driver.comment.as_deref(),
        Some("// The driver controller driving the car //")
    );
}

#[test]
fn parses_signed_and_factor() {
    let src = r#"VERSION ""
BO_ 100 Test: 8 ECU
 SG_ Current_A : 48|16@1- (0.03278,0) [0|1] "A" Vector__XXX
"#;
    let dbc = parse(src).unwrap();
    let s = &dbc.messages[0].signals[0];
    assert_eq!(s.value_type, ValueType::Signed);
    assert!((value(&s.factor) - 0.03278).abs() < 1e-9);
    assert_eq!(s.unit, "A");
}

#[test]
fn round_trip_is_stable() {
    // parse -> write -> parse must yield the same model.
    let dbc1 = parse(SOCIALLEDGE).unwrap();
    let text = rsdbc::writer::write(&dbc1);
    let dbc2 = parse(&text).unwrap();
    assert_eq!(dbc1.messages, dbc2.messages);
    assert_eq!(dbc1.nodes, dbc2.nodes);
    assert_eq!(dbc1.value_tables, dbc2.value_tables);
    assert_eq!(dbc1.version, dbc2.version);
}

#[test]
fn write_then_parse_idempotent() {
    let dbc1 = parse(SOCIALLEDGE).unwrap();
    let t1 = rsdbc::writer::write(&dbc1);
    let dbc2 = parse(&t1).unwrap();
    let t2 = rsdbc::writer::write(&dbc2);
    assert_eq!(t1, t2, "writer must be idempotent");
}

#[test]
fn parses_value_tables_including_empty() {
    let src = r#"VERSION ""
VAL_TABLE_ Table3 16 "16" 7 "7" 2 "2" 0 "0" ;
VAL_TABLE_ Empty ;
VAL_TABLE_ Table1 1 "One" 0 "Zero" ;
"#;
    let dbc = parse(src).unwrap();
    assert_eq!(dbc.value_tables.len(), 3);
    assert_eq!(dbc.value_tables[0].name, "Table3");
    assert_eq!(dbc.value_tables[0].values.len(), 4);
    assert_eq!(dbc.value_tables[1].name, "Empty");
    assert!(dbc.value_tables[1].values.is_empty());
    assert_eq!(dbc.value_tables[2].values, vec![(1, "One".into()), (0, "Zero".into())]);
}

#[test]
fn comments_attach_to_objects() {
    let src = r#"VERSION ""
BU_: ECU
BO_ 100 Test: 8 ECU
 SG_ Sig : 0|8@1+ (1,0) [0|0] "" Vector__XXX
CM_ "network level";
CM_ BU_ ECU "the controller";
CM_ BO_ 100 "a message";
CM_ SG_ 100 Sig "a signal";
"#;
    let dbc = parse(src).unwrap();
    assert_eq!(dbc.comment.as_deref(), Some("network level"));
    assert_eq!(dbc.nodes[0].comment.as_deref(), Some("the controller"));
    assert_eq!(dbc.messages[0].comment.as_deref(), Some("a message"));
    assert_eq!(
        dbc.messages[0].signals[0].comment.as_deref(),
        Some("a signal")
    );
}
