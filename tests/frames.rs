use smartmeter::frame::{assemble, Frame, FrameAssembler};

#[test]
fn two_frames_from_replayed_lines() {
    let lines = vec!["1-0:1.8.1(123.4*kWh)", "!", "1-0:1.8.1(200.0*kWh)", "!"];
    let frames = assemble(&lines);
    assert_eq!(frames.len(), 2);
    let mut first = Frame::empty();
    first.delivered_1 = Some(123_400_000_000);
    let mut second = Frame::empty();
    second.delivered_1 = Some(200_000_000_000);
    assert_eq!(frames[0], first);
    assert_eq!(frames[1], second);
}

#[test]
fn unterminated_frame_is_not_emitted() {
    let lines = vec!["1-0:1.8.1(1.0)", "!", "1-0:1.8.1(2.0)"];
    assert_eq!(assemble(&lines).len(), 1);
    assert_eq!(assemble(&Vec::new()).len(), 0);
}

#[test]
fn terminator_resets_every_field() {
    let mut a = FrameAssembler::new();
    assert_eq!(a.feed("1-0:1.8.1(1.0*kWh)"), None);
    assert_eq!(a.feed("1-0:2.7.0(00.250*kW)"), None);
    let first = a.feed("!").unwrap();
    assert_eq!(first.delivered_1, Some(1_000_000_000));
    assert_eq!(first.actual_received, Some(250_000_000));
    assert_eq!(a.current(), Frame::empty());
    assert_eq!(a.feed("1-0:1.8.2(3.0*kWh)"), None);
    let second = a.feed("!").unwrap();
    assert_eq!(second.delivered_1, None);
    assert_eq!(second.actual_received, None);
    assert_eq!(second.delivered_2, Some(3_000_000_000));
}

#[test]
fn all_nine_registers() {
    let lines = vec![
        "/XMX5LGBBFG1012463386",
        "1-0:1.8.1(012345.678*kWh)",
        "1-0:1.8.2(000100.001*kWh)",
        "1-0:2.8.1(000001.500*kWh)",
        "1-0:2.8.2(000002.250*kWh)",
        "0-0:96.14.0(0002)",
        "1-0:1.7.0(00.512*kW)",
        "1-0:2.7.0(00.000*kW)",
        "0-0:17.0.0(999.9*kW)",
        "0-0:96.3.10(1)",
        "garbage",
        "!",
    ];
    let frames = assemble(&lines);
    assert_eq!(frames.len(), 1);
    let f = frames[0];
    assert_eq!(f.delivered_1, Some(12_345_678_000_000));
    assert_eq!(f.delivered_2, Some(100_001_000_000));
    assert_eq!(f.received_1, Some(1_500_000_000));
    assert_eq!(f.received_2, Some(2_250_000_000));
    assert_eq!(f.current_tariff, Some(2));
    assert_eq!(f.actual_delivered, Some(512_000_000));
    assert_eq!(f.actual_received, Some(0));
    assert_eq!(f.max_power, Some(999_900_000_000));
    assert_eq!(f.switch_mode, Some(1));
}

#[test]
fn code_registers_truncate_toward_zero() {
    let frames = assemble(&vec!["0-0:96.14.0(2.9)", "0-0:96.3.10(-2.9)", "!"]);
    assert_eq!(frames[0].current_tariff, Some(2));
    assert_eq!(frames[0].switch_mode, Some(-2));
}

#[test]
fn repeated_register_last_write_wins() {
    let frames = assemble(&vec!["1-0:1.8.1(1.0)", "1-0:1.8.1(2.0)", "!"]);
    assert_eq!(frames[0].delivered_1, Some(2_000_000_000));
}

#[test]
fn malformed_line_keeps_earlier_value() {
    let frames = assemble(&vec!["1-0:1.8.1(1.0)", "1-0:1.8.1(oops)", "!"]);
    assert_eq!(frames[0].delivered_1, Some(1_000_000_000));
}

#[test]
fn try_field_i32_truncates_or_keeps() {
    let mut field = Some(7);
    smartmeter::frame::try_field_i32("0-0:96.14.0(0002.7)", "0-0:96.14.0", &mut field);
    assert_eq!(field, Some(2));
    smartmeter::frame::try_field_i32("0-0:96.14.0(bad)", "0-0:96.14.0", &mut field);
    assert_eq!(field, Some(2));
    smartmeter::frame::try_field_i32("1-0:1.8.1(5)", "0-0:96.14.0", &mut field);
    assert_eq!(field, Some(2));
}

#[test]
fn try_field_i32_saturates_like_an_i32_cast() {
    let mut f = None;
    let mut g = None;
    smartmeter::frame::try_field_i32("0-0:96.14.0(1e20)", "0-0:96.14.0", &mut f);
    smartmeter::frame::try_field_i32("0-0:96.14.0(-1e20)", "0-0:96.14.0", &mut g);
    assert_eq!(f, Some(i32::MAX as i64));
    assert_eq!(g, Some(i32::MIN as i64));
}

#[test]
fn try_field_i32_reads_long_literal() {
    let mut f = Some(9);
    smartmeter::frame::try_field_i32("0-0:96.14.0(1.000000000000000000)", "0-0:96.14.0", &mut f);
    assert_eq!(f, Some(1));
}
