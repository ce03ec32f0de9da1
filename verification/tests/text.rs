use peak_reconcile::text::{
    decimal_string, degrees_string, same_text, signed_decimal_string, text_no_later,
};

#[test]
fn same_text_is_exact() {
    assert!(same_text("Mount X", "Mount X"));
    assert!(same_text("", ""));
    assert!(!same_text("Mount X", "mount x"));
    assert!(!same_text("Mount X", "Mount X "));
    assert!(!same_text("Café", "Cafe"));
    assert!(!same_text("a", "ab"));
    assert!(!same_text("ab", "a"));
}

#[test]
fn text_order_is_that_of_str() {
    let names = [
        "", "A", "Adams", "Adams Peak", "Baker", "Mount", "Mount Whitney", "Zebra", "apple",
        "z", "é", "Étoile", "山", "a\u{10348}",
    ];
    for a in names {
        for b in names {
            assert_eq!(text_no_later(a, b), a <= b, "{:?} against {:?}", a, b);
        }
    }
}

#[test]
fn text_order_puts_a_prefix_first() {
    assert!(text_no_later("Mount", "Mount Whitney"));
    assert!(!text_no_later("Mount Whitney", "Mount"));
    assert!(text_no_later("Mount", "Mount"));
}

#[test]
fn decimal_string_writes_whole_numbers() {
    assert_eq!(decimal_string(0), "0");
    assert_eq!(decimal_string(7), "7");
    assert_eq!(decimal_string(10), "10");
    assert_eq!(decimal_string(4421), "4421");
    assert_eq!(decimal_string(1_000_000), "1000000");
    assert_eq!(decimal_string(4_294_967_295), "4294967295");
    assert_eq!(decimal_string(u64::MAX), "18446744073709551615");
}

#[test]
fn signed_decimal_string_writes_the_sign() {
    assert_eq!(signed_decimal_string(0), "0");
    assert_eq!(signed_decimal_string(-1), "-1");
    assert_eq!(signed_decimal_string(358_915_477), "358915477");
    assert_eq!(signed_decimal_string(i64::MAX), "9223372036854775807");
    assert_eq!(signed_decimal_string(i64::MIN), "-9223372036854775808");
}

#[test]
fn degrees_string_drops_trailing_zeros() {
    assert_eq!(degrees_string(365_786_000), "36.5786");
    assert_eq!(degrees_string(-1_182_920_000), "-118.292");
    assert_eq!(degrees_string(0), "0");
    assert_eq!(degrees_string(10_000_000), "1");
    assert_eq!(degrees_string(900_000_000), "90");
    assert_eq!(degrees_string(-1_800_000_000), "-180");
}

#[test]
fn degrees_string_keeps_leading_zeros_of_the_fraction() {
    assert_eq!(degrees_string(1), "0.0000001");
    assert_eq!(degrees_string(-5), "-0.0000005");
    assert_eq!(degrees_string(500_000), "0.05");
    assert_eq!(degrees_string(10_000_010), "1.000001");
    assert_eq!(degrees_string(i32::MAX), "214.7483647");
    assert_eq!(degrees_string(i32::MIN), "-214.7483648");
}
