use smartmeter::number::extract;

const DL: &str = "1-0:1.8.1";
const TARIFF: &str = "0-0:96.14.0";
const IDS: [&str; 9] = [
    "1-0:1.8.1",
    "1-0:1.8.2",
    "1-0:2.8.1",
    "1-0:2.8.2",
    "0-0:96.14.0",
    "1-0:1.7.0",
    "1-0:2.7.0",
    "0-0:17.0.0",
    "0-0:96.3.10",
];

#[test]
fn value_with_unit() {
    assert_eq!(extract("1-0:1.8.1(123.4*kWh)", DL), Some(123_400_000_000));
}

#[test]
fn value_without_unit() {
    assert_eq!(extract("1-0:1.8.1(123.4)", DL), Some(123_400_000_000));
}

#[test]
fn unit_text_does_not_change_value() {
    for id in IDS {
        for lit in ["0", "-1.5", "+2.25", "000123.456", ".5", "7.", "1.5e2", "2E-3", "1e+1"] {
            let plain = extract(&format!("{id}({lit})"), id);
            let with_unit = extract(&format!("{id}({lit}*anything at all)"), id);
            assert!(plain.is_some());
            assert_eq!(plain, with_unit);
        }
    }
}

#[test]
fn exponent_forms() {
    assert_eq!(extract("1-0:1.8.1(1.5e2*kWh)", DL), Some(150_000_000_000));
    assert_eq!(extract("1-0:1.8.1(2E-3)", DL), Some(2_000_000));
    assert_eq!(extract("1-0:1.8.1(-4e0)", DL), Some(-4_000_000_000));
}

#[test]
fn leading_dot_and_trailing_dot() {
    assert_eq!(extract("1-0:1.8.1(.5)", DL), Some(500_000_000));
    assert_eq!(extract("1-0:1.8.1(7.)", DL), Some(7_000_000_000));
}

#[test]
fn malformed_numbers_are_absent() {
    assert_eq!(extract("1-0:1.8.1(abc)", DL), None);
    assert_eq!(extract("1-0:1.8.1(.)", DL), None);
    assert_eq!(extract("1-0:1.8.1()", DL), None);
    assert_eq!(extract("1-0:1.8.1(1e)", DL), None);
    assert_eq!(extract("1-0:1.8.1(1.2.3)", DL), None);
    assert_eq!(extract("1-0:1.8.1(12.5*kWh", DL), None);
    assert_eq!(extract("1-0:1.8.1(12.5", DL), None);
    assert_eq!(extract("1-0:1.8.112.5)", DL), None);
}

#[test]
fn values_round_to_the_nearest_billionth() {
    assert_eq!(extract("1-0:1.8.1(0.0000000001)", DL), Some(0));
    assert_eq!(extract("1-0:1.8.1(0.00000000049)", DL), Some(0));
    assert_eq!(extract("1-0:1.8.1(0.0000000005)", DL), Some(1));
    assert_eq!(extract("1-0:1.8.1(-0.0000000005)", DL), Some(-1));
    assert_eq!(extract("1-0:1.8.1(0.000000001)", DL), Some(1));
    assert_eq!(extract("1-0:1.8.1(2.9999999999)", DL), Some(3_000_000_000));
    assert_eq!(extract("1-0:1.8.1(1e-9)", DL), Some(1));
    assert_eq!(extract("1-0:1.8.1(1e-10)", DL), Some(0));
    assert_eq!(extract("1-0:1.8.1(5e-10)", DL), Some(1));
    assert_eq!(extract("1-0:1.8.1(1e-1000)", DL), Some(0));
}

#[test]
fn long_mantissas_read_exactly() {
    assert_eq!(extract("1-0:1.8.1(1.000000000000000000*kWh)", DL), Some(1_000_000_000));
    assert_eq!(extract("1-0:1.8.1(1.000000000000000000)junk", DL), Some(1_000_000_000));
    assert_eq!(extract("1-0:1.8.1(000000000000000000000012.5)", DL), Some(12_500_000_000));
    assert_eq!(extract("1-0:1.8.1(1000000000000000000000e-20)", DL), Some(10_000_000_000));
}

#[test]
fn values_out_of_range_saturate() {
    assert_eq!(extract("1-0:1.8.1(1e19)", DL), Some(i64::MAX));
    assert_eq!(extract("1-0:1.8.1(-1e30)", DL), Some(-i64::MAX));
    assert_eq!(extract("1-0:1.8.1(9223372036.85477580)", DL), Some(9_223_372_036_854_775_800));
    assert_eq!(extract("1-0:1.8.1(9223372036.854775807)", DL), Some(i64::MAX));
    assert_eq!(extract("1-0:1.8.1(9223372037)", DL), Some(i64::MAX));
    assert_eq!(extract("1-0:1.8.1(1234567890123456789)", DL), Some(i64::MAX));
    assert_eq!(extract("1-0:1.8.1(1e1000)", DL), Some(i64::MAX));
}

#[test]
fn long_exponents() {
    assert_eq!(extract("1-0:1.8.1(0e1000)", DL), Some(0));
    assert_eq!(extract("1-0:1.8.1(-0.0e-99999999999999999999)", DL), Some(0));
    assert_eq!(extract("1-0:1.8.1(5e0000000000000000000000001)", DL), Some(50_000_000_000));
    assert_eq!(extract("1-0:1.8.1(1230e-0000000000000000000000003*kWh)", DL), Some(1_230_000_000));
}

#[test]
fn trailing_text_after_group_is_accepted() {
    assert_eq!(extract("1-0:1.8.1(001.5*kWh)(7)junk", DL), Some(1_500_000_000));
}

#[test]
fn other_identifier_is_absent() {
    assert_eq!(extract("1-0:1.8.2(001.5*kWh)", DL), None);
    assert_eq!(extract("1-0:1.8.1(001.5*kWh)", "1-0:1.8.2"), None);
}

#[test]
fn unrecognised_line_gives_nothing() {
    for line in ["0-1:24.2.1(101209112500W)(12785.123*m3)", "/ISk5MT382-1000", "", "!", "foo(1.0)"] {
        for id in IDS {
            assert_eq!(extract(line, id), None);
        }
    }
}

#[test]
fn code_register_text() {
    assert_eq!(extract("0-0:96.14.0(0002)", TARIFF), Some(2_000_000_000));
}
