use locustdb::engine::comparator::{CmpGreaterThan, CmpLessThan, Comparator};
use locustdb::engine::vec_data::{same_text, Compound, VecData};
use locustdb::ingest::raw_val::RawVal;
use locustdb::mem_store::value::{float_rank, Val};

fn bits(value: f64) -> u64 {
    value.to_bits()
}

#[test]
fn float_rank_orders_as_the_numbers() {
    let ascending = [
        f64::NEG_INFINITY,
        -1.5,
        -1e-300,
        0.0,
        1e-32,
        0.4,
        1.123124e30,
        f64::INFINITY,
        f64::NAN,
    ];
    for pair in ascending.windows(2) {
        assert!(float_rank(bits(pair[0])) < float_rank(bits(pair[1])));
    }
    assert_eq!(float_rank(bits(0.0)), 0);
    assert_eq!(float_rank(bits(-0.0)), 0);
    assert_eq!(float_rank(bits(1.0)), 0x3ff0_0000_0000_0000);
    assert_eq!(float_rank(bits(-1.0)), -0x3ff0_0000_0000_0000);
    assert_eq!(float_rank(bits(f64::NAN)), 0x7ff0_0000_0000_0001);
    assert_eq!(float_rank(bits(-f64::NAN)), 0x7ff0_0000_0000_0001);
    assert_eq!(float_rank(bits(f64::INFINITY)), 0x7ff0_0000_0000_0000);
}

#[test]
fn val_order_puts_nulls_last() {
    let ascending = [
        Val::Bool(false),
        Val::Bool(true),
        Val::Integer(-3),
        Val::Integer(7),
        Val::Str("a"),
        Val::Str("ab"),
        Val::Str("b"),
        Val::Float(bits(-2.0)),
        Val::Float(bits(0.5)),
        Val::Float(bits(f64::NAN)),
        Val::Null,
    ];
    for i in 0..ascending.len() {
        for j in 0..ascending.len() {
            assert_eq!(ascending[i].less_or_equal(ascending[j]), i <= j);
            assert_eq!(ascending[i].same(ascending[j]), i == j);
        }
    }
    assert!(Val::Float(bits(0.0)).same(Val::Float(bits(-0.0))));
}

#[test]
fn raw_val_order_is_by_type_then_value() {
    let ascending = [
        RawVal::Null,
        RawVal::Int(-1),
        RawVal::Int(5),
        RawVal::Float(bits(-1.0)),
        RawVal::Float(bits(2.5)),
        RawVal::Float(bits(f64::NAN)),
        RawVal::Str("".to_string()),
        RawVal::Str("a".to_string()),
        RawVal::Str("b".to_string()),
    ];
    for i in 0..ascending.len() {
        for j in 0..ascending.len() {
            assert_eq!(ascending[i].less_or_equal(&ascending[j]), i <= j);
        }
    }
    assert_eq!(RawVal::Str("x".to_string()).tag(), 3);
    assert_eq!(RawVal::Float(0).clone(), RawVal::Float(0));
}

#[test]
fn strings_compare_by_their_bytes() {
    assert!("".less_or_equal("a"));
    assert!("a".less_or_equal("a"));
    assert!("a".less_or_equal("ab"));
    assert!(!"ab".less_or_equal("a"));
    assert!("Z".less_or_equal("a"));
    assert!("z".less_or_equal("é"));
    assert!("abc".same("abc"));
    assert!(!"abc".same("abd"));
    assert!(same_text("日本", "日本"));
    assert!(!same_text("日本", "日"));
}

#[test]
fn integers_compare_as_numbers() {
    assert!((-5i64).less_or_equal(3));
    assert!(!3i64.less_or_equal(-5));
    assert!(7u8.same(7));
    assert!(7u32.less_or_equal(8));
    assert!(!9u32.same(8));
}

#[test]
fn compound_keys_compare_part_by_part() {
    let rows = [
        Compound("a", 1i64),
        Compound("a", 2),
        Compound("b", 0),
        Compound("b", 5),
    ];
    for i in 0..rows.len() {
        for j in 0..rows.len() {
            assert_eq!(rows[i].less_or_equal(rows[j]), i <= j);
            assert_eq!(rows[i].same(rows[j]), i == j);
        }
    }
}

#[test]
fn comparators_follow_their_direction() {
    assert!(<CmpLessThan as Comparator<i64>>::strictly_before(1, 2));
    assert!(!<CmpLessThan as Comparator<i64>>::strictly_before(2, 2));
    assert!(<CmpLessThan as Comparator<i64>>::not_after(2, 2));
    assert!(<CmpLessThan as Comparator<i64>>::is_less_than());
    assert!(<CmpGreaterThan as Comparator<i64>>::strictly_before(3, 2));
    assert!(!<CmpGreaterThan as Comparator<i64>>::strictly_before(2, 2));
    assert!(<CmpGreaterThan as Comparator<i64>>::not_after(2, 2));
    assert!(!<CmpGreaterThan as Comparator<i64>>::not_after(1, 2));
    assert!(!<CmpGreaterThan as Comparator<i64>>::is_less_than());
}

#[test]
fn numbers_are_written_in_decimal_notation() {
    for n in [0usize, 7, 9, 10, 11, 99, 100, 1234567890, usize::MAX] {
        let mut text = String::from("n = ");
        locustdb::text::append_decimal(&mut text, n);
        assert_eq!(text, format!("n = {}", n));
    }
    let mut text = String::new();
    locustdb::text::append_decimals(&mut text, &[]);
    assert_eq!(text, "");
    locustdb::text::append_decimals(&mut text, &[5]);
    assert_eq!(text, "5");
    locustdb::text::append_decimals(&mut text, &[10, 0, 321]);
    assert_eq!(text, "510, 0, 321");
}
