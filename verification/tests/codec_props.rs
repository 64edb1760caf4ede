use interval_ds::IntervalDS;

#[test]
fn round_trip_preserves_canonical_forms() {
    // every fractional precision 0..=9 and every documented day width,
    // with a nanosecond value exactly representable at each precision
    let scales: [i32; 10] = [
        1000000000, 100000000, 10000000, 1000000, 100000, 10000, 1000, 100, 10, 1,
    ];
    let lfprecs: [u8; 9] = [0, 2, 3, 4, 5, 6, 7, 8, 9];
    for fsprec in 0..10u8 {
        let nanoseconds: i32 = if fsprec == 0 { 0 } else { 123456789 / scales[fsprec as usize] * scales[fsprec as usize] };
        for &lfprec in lfprecs.iter() {
            let v = IntervalDS::new(1, 2, 3, 4, nanoseconds).and_prec(lfprec, fsprec);
            let text = v.encode();
            let w = IntervalDS::decode(&text).unwrap();
            assert_eq!(w, v);
            assert_eq!(w.encode(), text);

            let v = IntervalDS::new(-999999999, -23, -59, -59, -nanoseconds).and_prec(lfprec, fsprec);
            let text = v.encode();
            let w = IntervalDS::decode(&text).unwrap();
            assert_eq!(w, v);
            assert_eq!(w.encode(), text);
        }
    }
}

#[test]
fn equality_ignores_precision() {
    let a = IntervalDS::new(1, 2, 3, 4, 500000000);
    let b = IntervalDS::new(1, 2, 3, 4, 500000000).and_prec(2, 3);
    assert!(a == b);
    assert!(b == a);
    assert!(a != IntervalDS::new(1, 2, 3, 5, 500000000));
}

#[test]
fn sign_symmetry() {
    let pos = IntervalDS::new(1, 2, 3, 4, 500000000);
    assert_eq!(pos.encode(), "+000000001 02:03:04.500000000");
    let neg = IntervalDS::new(-1, -2, -3, -4, -500000000);
    assert_eq!(neg.encode(), "-000000001 02:03:04.500000000");
}

#[test]
fn precision_controls_rendering() {
    let v = IntervalDS::new(1, 2, 3, 4, 500000000).and_prec(2, 3);
    assert_eq!(v.encode(), "+01 02:03:04.500");
}

#[test]
fn decode_derives_precisions_from_digit_counts() {
    let v = IntervalDS::decode("+1 02:03:04.50").unwrap();
    assert_eq!(v.lfprec(), 1);
    assert_eq!(v.fsprec(), 2);
    assert_eq!(v.nanoseconds(), 500000000);
}

#[test]
fn long_fraction_clamps_to_nine_digits() {
    // ten fractional digits: the tenth is discarded by division, never
    // rounded, and the precision clamps at 9
    let v = IntervalDS::decode("1 02:03:04.1234567891").unwrap();
    assert_eq!(v.fsprec(), 9);
    assert_eq!(v.nanoseconds(), 123456789);
    let v = IntervalDS::decode("1 02:03:04.9999999999").unwrap();
    assert_eq!(v.fsprec(), 9);
    assert_eq!(v.nanoseconds(), 999999999);
    // a fraction run of any length keeps exactly its first nine digits
    let v = IntervalDS::decode("1 02:03:04.00000000000000000001").unwrap();
    assert_eq!(v.fsprec(), 9);
    assert_eq!(v.nanoseconds(), 0);
    let v = IntervalDS::decode("-1 02:03:04.98765432199999999999999999").unwrap();
    assert_eq!(v.fsprec(), 9);
    assert_eq!(v.nanoseconds(), -987654321);
}

#[test]
fn malformed_literals_are_rejected() {
    assert!(IntervalDS::decode("").is_err());
    assert!(IntervalDS::decode("1 02:03").is_err());
    assert!(IntervalDS::decode("1 02:03:04x").is_err());
    assert!(IntervalDS::decode("1 02:03:04.").is_err());
    assert!(IntervalDS::decode("1 02:03:").is_err());
    assert!(IntervalDS::decode(" 1 02:03:04").is_err());
    assert!(IntervalDS::decode("1-02:03:04").is_err());
    assert!(IntervalDS::decode("++1 02:03:04").is_err());
    let e = IntervalDS::decode("").unwrap_err();
    assert_eq!(e.typename(), "IntervalDS");
}

#[test]
fn out_of_range_precisions_render_plainly() {
    // a leading field precision outside 2..=9 leaves the day unpadded,
    // and a fractional second precision outside 1..=9 omits the fraction
    let v = IntervalDS::new(12, 2, 3, 4, 500000000).and_prec(10, 10);
    assert_eq!(v.encode(), "+12 02:03:04");
    let v = IntervalDS::new(12, 2, 3, 4, 500000000).and_prec(1, 0);
    assert_eq!(v.encode(), "+12 02:03:04");
}

#[test]
fn oversized_numeric_fields_are_rejected() {
    // a day, hour, minute or second field beyond i32::MAX cannot be
    // represented in the component type
    assert!(IntervalDS::decode("2147483648 02:03:04").is_err());
    assert!(IntervalDS::decode("2147483647 02:03:04").is_ok());
    assert!(IntervalDS::decode("1 2147483648:03:04").is_err());
    assert!(IntervalDS::decode("1 02:03:9999999999999999999999").is_err());
}

#[test]
fn encode_truncates_hidden_fraction_digits() {
    // rendering at a coarser precision truncates toward zero
    let v = IntervalDS::new(0, 0, 0, 0, 999999999).and_prec(0, 2);
    assert_eq!(v.encode(), "+0 00:00:00.99");
}
