use toml::{have_equiv_types, DecimalLiteral, MemReader, Parser, Table, Value};

fn parser(text: &str) -> Parser {
    let mut rd = MemReader::new(text.as_bytes().to_vec());
    Parser::new(&mut rd)
}

fn value(text: &str) -> Value {
    parser(text).parse_value()
}

fn decimal(negative: bool, whole: u64, fraction: &[u8]) -> Value {
    Value::Float(DecimalLiteral { negative, whole, fraction: fraction.to_vec() })
}

fn is_decimal(v: &Value, negative: bool, whole: u64, fraction: &[u8]) -> bool {
    match v.get_float() {
        Some(d) => d.negative == negative && d.whole == whole && d.fraction == fraction,
        None => false,
    }
}

#[test]
fn unsigned_integer_is_read() {
    assert!(matches!(value("42"), Value::Unsigned(42)));
    assert!(matches!(value("0"), Value::Unsigned(0)));
    assert!(matches!(value("007"), Value::Unsigned(7)));
}

#[test]
fn negative_integer_holds_its_magnitude() {
    assert!(matches!(value("-17"), Value::Signed(17)));
    assert!(matches!(value("-0"), Value::Signed(0)));
}

#[test]
fn minus_without_digits_is_no_value() {
    let mut p = parser("-x");
    assert!(matches!(p.parse_value(), Value::NoValue));
    assert_eq!(p.ch(), Some('x'));
}

#[test]
fn value_is_read_after_blanks_and_comments() {
    let mut p = parser(" \n# c\n\t 5 rest");
    assert!(matches!(p.parse_value(), Value::Unsigned(5)));
    assert_eq!(p.ch(), Some(' '));
    assert_eq!(p.get_line(), 3);
}

#[test]
fn empty_input_is_no_value() {
    assert!(matches!(value(""), Value::NoValue));
    assert!(matches!(value("  # only a comment"), Value::NoValue));
}

#[test]
fn unknown_first_character_is_no_value_and_stays_unread() {
    let mut p = parser("x");
    assert!(matches!(p.parse_value(), Value::NoValue));
    assert_eq!(p.ch(), Some('x'));
}

#[test]
fn decimal_keeps_sign_whole_part_and_fraction_digits() {
    assert!(is_decimal(&value("3.14"), false, 3, &[1, 4]));
    assert!(is_decimal(&value("-0.5"), true, 0, &[5]));
    assert!(is_decimal(&value("10.050"), false, 10, &[0, 5, 0]));
}

#[test]
fn decimal_needs_a_digit_after_the_point() {
    let mut p = parser("1.x");
    assert!(matches!(p.parse_value(), Value::NoValue));
    assert_eq!(p.ch(), Some('x'));
    assert!(matches!(value("1."), Value::NoValue));
    assert!(matches!(value("-1."), Value::NoValue));
}

#[test]
fn decimal_ends_at_a_second_point() {
    let mut p = parser("1.2.3");
    assert!(is_decimal(&p.parse_value(), false, 1, &[2]));
    assert_eq!(p.ch(), Some('.'));
}

#[test]
fn parse_float_rest_reads_the_fraction() {
    let mut p = parser("25,");
    assert!(is_decimal(&p.parse_float_rest(7, true), true, 7, &[2, 5]));
    assert_eq!(p.ch(), Some(','));
    let mut q = parser(",");
    assert!(matches!(q.parse_float_rest(7, false), Value::NoValue));
    let mut r = parser("");
    assert!(matches!(r.parse_float_rest(7, false), Value::NoValue));
}

#[test]
fn read_float_mantissa_reads_digit_by_digit() {
    let mut p = parser("0190x");
    assert_eq!(p.read_float_mantissa(), vec![0, 1, 9, 0]);
    assert_eq!(p.ch(), Some('x'));
    assert_eq!(p.read_float_mantissa(), Vec::<u8>::new());
}

#[test]
fn datetime_is_read() {
    assert!(matches!(value("1979-05-27T07:32:00Z"), Value::Datetime(1979, 5, 27, 7, 32, 0)));
}

#[test]
fn datetime_accepts_the_ends_of_each_range() {
    assert!(matches!(value("0000-01-01T00:00:00Z"), Value::Datetime(0, 1, 1, 0, 0, 0)));
    assert!(matches!(value("9999-12-31T24:60:60Z"), Value::Datetime(9999, 12, 31, 24, 60, 60)));
}

#[test]
fn datetime_out_of_range_is_no_value() {
    assert!(matches!(value("2014-00-02T03:04:05Z"), Value::NoValue));
    assert!(matches!(value("2014-13-02T03:04:05Z"), Value::NoValue));
    assert!(matches!(value("2014-01-00T03:04:05Z"), Value::NoValue));
    assert!(matches!(value("2014-01-32T03:04:05Z"), Value::NoValue));
    assert!(matches!(value("2014-01-02T25:04:05Z"), Value::NoValue));
    assert!(matches!(value("2014-01-02T03:61:05Z"), Value::NoValue));
    assert!(matches!(value("2014-01-02T03:04:61Z"), Value::NoValue));
}

#[test]
fn datetime_with_a_missing_part_is_no_value() {
    assert!(matches!(value("2014-01-02"), Value::NoValue));
    assert!(matches!(value("2014-1-02T03:04:05Z"), Value::NoValue));
    assert!(matches!(value("2014-01-02 03:04:05Z"), Value::NoValue));
    assert!(matches!(value("2014-01-02T03:04:05"), Value::NoValue));
    assert!(matches!(value("2014-01-02T03-04-05Z"), Value::NoValue));
}

#[test]
fn failed_datetime_leaves_the_cursor_where_it_stopped() {
    let mut p = parser("2014-01x02");
    assert!(matches!(p.parse_value(), Value::NoValue));
    assert_eq!(p.ch(), Some('x'));
    let mut q = parser("2014-1-02");
    assert!(matches!(q.parse_value(), Value::NoValue));
    assert_eq!(q.ch(), Some('-'));
}

#[test]
fn hyphen_after_other_than_four_digits_ends_an_integer() {
    let mut p = parser("123-01");
    assert!(matches!(p.parse_value(), Value::Unsigned(123)));
    assert_eq!(p.ch(), Some('-'));
    let mut q = parser("12345-01");
    assert!(matches!(q.parse_value(), Value::Unsigned(12345)));
    assert_eq!(q.ch(), Some('-'));
}

#[test]
fn booleans_are_read() {
    assert!(matches!(value("true"), Value::Boolean(true)));
    assert!(matches!(value("false"), Value::Boolean(false)));
}

#[test]
fn misspelled_boolean_is_no_value() {
    let mut p = parser("trve");
    assert!(matches!(p.parse_value(), Value::NoValue));
    assert_eq!(p.ch(), Some('v'));
    let mut q = parser("fals");
    assert!(matches!(q.parse_value(), Value::NoValue));
    assert!(q.eos());
    assert!(matches!(value("t"), Value::NoValue));
}

#[test]
fn string_value_is_read() {
    match value("\"hi\"") {
        Value::String(s) => assert_eq!(s, "hi"),
        _ => panic!("not a string"),
    }
}

#[test]
fn malformed_string_is_no_value() {
    assert!(matches!(value("\"hi"), Value::NoValue));
}

#[test]
fn empty_array_is_read() {
    match value("[]") {
        Value::Array(items) => assert!(items.is_empty()),
        _ => panic!("not an array"),
    }
    match value("[ \n # nothing\n ]") {
        Value::Array(items) => assert!(items.is_empty()),
        _ => panic!("not an array"),
    }
}

#[test]
fn array_of_integers_is_read_in_order() {
    match value("[1, 2 ,3]") {
        Value::Array(items) => {
            assert_eq!(items.len(), 3);
            assert!(matches!(items[0], Value::Unsigned(1)));
            assert!(matches!(items[1], Value::Unsigned(2)));
            assert!(matches!(items[2], Value::Unsigned(3)));
        },
        _ => panic!("not an array"),
    }
}

#[test]
fn array_may_mix_the_signs_of_integers() {
    match value("[1, -2]") {
        Value::Array(items) => {
            assert!(matches!(items[0], Value::Unsigned(1)));
            assert!(matches!(items[1], Value::Signed(2)));
        },
        _ => panic!("not an array"),
    }
}

#[test]
fn array_may_end_in_a_comma() {
    match value("[1, 2, ]") {
        Value::Array(items) => assert_eq!(items.len(), 2),
        _ => panic!("not an array"),
    }
}

#[test]
fn array_may_span_lines_and_hold_comments() {
    let mut p = parser("[\n  1, # one\n  2\n]x");
    match p.parse_value() {
        Value::Array(items) => assert_eq!(items.len(), 2),
        _ => panic!("not an array"),
    }
    assert_eq!(p.ch(), Some('x'));
    assert_eq!(p.get_line(), 4);
}

#[test]
fn array_of_mixed_types_is_no_value() {
    assert!(matches!(value("[1, 2, \"x\"]"), Value::NoValue));
    assert!(matches!(value("[1, 1.5]"), Value::NoValue));
    assert!(matches!(value("[true, 1]"), Value::NoValue));
    assert!(matches!(value("[\"a\", [1]]"), Value::NoValue));
}

#[test]
fn mismatch_stops_the_array_right_after_the_element() {
    let mut p = parser("[1, \"x\", 2]");
    assert!(matches!(p.parse_value(), Value::NoValue));
    assert_eq!(p.ch(), Some(','));
}

#[test]
fn arrays_in_an_array_may_differ_in_what_they_hold() {
    match value("[[1, 2], [\"a\"], []]") {
        Value::Array(items) => {
            assert_eq!(items.len(), 3);
            assert_eq!(items[0].get_vec().map(|v| v.len()), Some(2));
            assert_eq!(items[1].get_vec().map(|v| v.len()), Some(1));
            assert_eq!(items[2].get_vec().map(|v| v.len()), Some(0));
        },
        _ => panic!("not an array"),
    }
}

#[test]
fn array_without_closing_bracket_is_no_value() {
    assert!(matches!(value("[1, 2"), Value::NoValue));
    assert!(matches!(value("[1 2]"), Value::NoValue));
    assert!(matches!(value("["), Value::NoValue));
}

#[test]
fn failed_element_ends_the_list_of_elements() {
    match value("[1, -]") {
        Value::Array(items) => {
            assert_eq!(items.len(), 1);
            assert!(matches!(items[0], Value::Unsigned(1)));
        },
        _ => panic!("not an array"),
    }
    assert_eq!(value("[1, tru]").get_vec().map(|v| v.len()), Some(1));
    assert!(matches!(value("[1, trux]"), Value::NoValue));
    assert!(matches!(value("[1, - 2]"), Value::NoValue));
}

#[test]
fn same_kinds_have_equivalent_types() {
    assert!(have_equiv_types(&Value::Boolean(true), &Value::Boolean(false)));
    assert!(have_equiv_types(&Value::Unsigned(1), &Value::Unsigned(2)));
    assert!(have_equiv_types(&Value::Unsigned(1), &Value::Signed(2)));
    assert!(have_equiv_types(&Value::Signed(1), &Value::Unsigned(2)));
    assert!(have_equiv_types(&Value::Signed(1), &Value::Signed(2)));
    assert!(have_equiv_types(&decimal(false, 1, &[5]), &decimal(true, 2, &[0])));
    assert!(have_equiv_types(&Value::String("a".to_string()), &Value::String(String::new())));
    assert!(have_equiv_types(
        &Value::Datetime(2014, 1, 2, 3, 4, 5),
        &Value::Datetime(1979, 5, 27, 7, 32, 0)
    ));
    assert!(have_equiv_types(
        &Value::Array(vec![Value::Unsigned(1)]),
        &Value::Array(vec![Value::Boolean(true)])
    ));
}

#[test]
fn different_kinds_have_no_equivalent_types() {
    assert!(!have_equiv_types(&Value::Boolean(true), &Value::Unsigned(1)));
    assert!(!have_equiv_types(&Value::Unsigned(1), &decimal(false, 1, &[0])));
    assert!(!have_equiv_types(&Value::String("1".to_string()), &Value::Unsigned(1)));
    assert!(!have_equiv_types(&Value::Array(vec![]), &Value::TableArray(vec![])));
    assert!(!have_equiv_types(&Value::NoValue, &Value::NoValue));
    assert!(!have_equiv_types(&Value::Table(Table::new()), &Value::Table(Table::new())));
    assert!(!have_equiv_types(&Value::TableArray(vec![]), &Value::TableArray(vec![])));
}

#[test]
fn getters_answer_for_their_own_kind_only() {
    let b = Value::Boolean(true);
    assert_eq!(b.get_bool(), Some(true));
    assert_eq!(b.get_int(), None);
    assert!(b.get_float().is_none());
    assert!(b.get_str().is_none());
    assert!(b.get_vec().is_none());
    assert!(b.get_table().is_none());
    assert!(b.get_table_array().is_none());
    let s = Value::String("x".to_string());
    assert_eq!(s.get_str().map(|s| s.as_str()), Some("x"));
    assert_eq!(s.get_bool(), None);
    let a = Value::Array(vec![Value::Unsigned(1)]);
    assert_eq!(a.get_vec().map(|v| v.len()), Some(1));
    assert!(a.get_table_array().is_none());
    let ta = Value::TableArray(vec![Value::Table(Table::new())]);
    assert_eq!(ta.get_table_array().map(|v| v.len()), Some(1));
    assert!(ta.get_vec().is_none());
    let t = Value::Table(Table::new());
    assert_eq!(t.get_table().map(|t| t.len()), Some(0));
    assert!(Value::NoValue.get_table().is_none());
}

#[test]
fn get_int_reads_integers_of_either_sign() {
    assert_eq!(Value::Unsigned(5).get_int(), Some(5));
    assert_eq!(Value::Signed(5).get_int(), Some(-5));
    assert_eq!(Value::Signed(0).get_int(), Some(0));
    assert_eq!(Value::Unsigned(i64::MAX as u64).get_int(), Some(i64::MAX));
    assert_eq!(Value::Signed(i64::MAX as u64).get_int(), Some(-i64::MAX));
}

#[test]
fn get_int_wraps_around_beyond_the_range_of_i64() {
    assert_eq!(Value::Unsigned(u64::MAX).get_int(), Some(-1));
    assert_eq!(Value::Unsigned(1 << 63).get_int(), Some(i64::MIN));
    assert_eq!(Value::Signed(1 << 63).get_int(), Some(i64::MIN));
    assert_eq!(Value::Signed(u64::MAX).get_int(), Some(1));
}
