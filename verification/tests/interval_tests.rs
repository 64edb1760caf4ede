use interval_ds::IntervalDS;
use interval_ds::IntervalRecord;
use interval_ds::TypeDescriptor;

#[test]
fn to_string() {
    let mut it = IntervalDS::new(1, 2, 3, 4, 123456789);
    it.lfprec = 0;
    it.fsprec = 0;
    assert_eq!(it.encode(), "+1 02:03:04");
    it.fsprec = 1;
    assert_eq!(it.encode(), "+1 02:03:04.1");
    it.fsprec = 2;
    assert_eq!(it.encode(), "+1 02:03:04.12");
    it.fsprec = 3;
    assert_eq!(it.encode(), "+1 02:03:04.123");
    it.fsprec = 4;
    assert_eq!(it.encode(), "+1 02:03:04.1234");
    it.fsprec = 5;
    assert_eq!(it.encode(), "+1 02:03:04.12345");
    it.fsprec = 6;
    assert_eq!(it.encode(), "+1 02:03:04.123456");
    it.fsprec = 7;
    assert_eq!(it.encode(), "+1 02:03:04.1234567");
    it.fsprec = 8;
    assert_eq!(it.encode(), "+1 02:03:04.12345678");
    it.fsprec = 9;
    assert_eq!(it.encode(), "+1 02:03:04.123456789");

    let mut it = IntervalDS::new(-1, -2, -3, -4, -123456789);
    it.lfprec = 0;
    it.fsprec = 0;
    assert_eq!(it.encode(), "-1 02:03:04");
    it.fsprec = 1;
    assert_eq!(it.encode(), "-1 02:03:04.1");
    it.fsprec = 2;
    assert_eq!(it.encode(), "-1 02:03:04.12");
    it.fsprec = 3;
    assert_eq!(it.encode(), "-1 02:03:04.123");
    it.fsprec = 4;
    assert_eq!(it.encode(), "-1 02:03:04.1234");
    it.fsprec = 5;
    assert_eq!(it.encode(), "-1 02:03:04.12345");
    it.fsprec = 6;
    assert_eq!(it.encode(), "-1 02:03:04.123456");
    it.fsprec = 7;
    assert_eq!(it.encode(), "-1 02:03:04.1234567");
    it.fsprec = 8;
    assert_eq!(it.encode(), "-1 02:03:04.12345678");
    it.fsprec = 9;
    assert_eq!(it.encode(), "-1 02:03:04.123456789");

    it.lfprec = 1;
    assert_eq!(it.encode(), "-1 02:03:04.123456789");
    it.lfprec = 2;
    assert_eq!(it.encode(), "-01 02:03:04.123456789");
    it.lfprec = 3;
    assert_eq!(it.encode(), "-001 02:03:04.123456789");
    it.lfprec = 4;
    assert_eq!(it.encode(), "-0001 02:03:04.123456789");
    it.lfprec = 5;
    assert_eq!(it.encode(), "-00001 02:03:04.123456789");
    it.lfprec = 6;
    assert_eq!(it.encode(), "-000001 02:03:04.123456789");
    it.lfprec = 7;
    assert_eq!(it.encode(), "-0000001 02:03:04.123456789");
    it.lfprec = 8;
    assert_eq!(it.encode(), "-00000001 02:03:04.123456789");
    it.lfprec = 9;
    assert_eq!(it.encode(), "-000000001 02:03:04.123456789");
}

#[test]
fn parse() {
    let mut it = IntervalDS::new(1, 2, 3, 4, 0);
    it.lfprec = 1;
    it.fsprec = 0;
    assert_eq!(IntervalDS::decode("1 02:03:04"), Ok(it));
    assert_eq!(IntervalDS::decode("+1 02:03:04"), Ok(it));
    it.lfprec = 2;
    assert_eq!(IntervalDS::decode("01 02:03:04"), Ok(it));
    it.lfprec = 3;
    assert_eq!(IntervalDS::decode("001 02:03:04"), Ok(it));
    it.lfprec = 4;
    assert_eq!(IntervalDS::decode("0001 02:03:04"), Ok(it));
    it.lfprec = 5;
    assert_eq!(IntervalDS::decode("00001 02:03:04"), Ok(it));
    it.lfprec = 6;
    assert_eq!(IntervalDS::decode("000001 02:03:04"), Ok(it));
    it.lfprec = 7;
    assert_eq!(IntervalDS::decode("0000001 02:03:04"), Ok(it));
    it.lfprec = 8;
    assert_eq!(IntervalDS::decode("00000001 02:03:04"), Ok(it));
    it.lfprec = 9;
    assert_eq!(IntervalDS::decode("000000001 02:03:04"), Ok(it));

    it.fsprec = 1;
    it.nanoseconds = 100000000;
    assert_eq!(IntervalDS::decode("000000001 02:03:04.1"), Ok(it));

    let mut it = IntervalDS::new(-1, -2, -3, -4, 0);
    it.lfprec = 1;
    it.fsprec = 0;
    assert_eq!(IntervalDS::decode("-1 02:03:04"), Ok(it));

    it.fsprec = 1;
    it.nanoseconds = -100000000;
    assert_eq!(IntervalDS::decode("-1 02:03:04.1"), Ok(it));
    it.fsprec = 2;
    it.nanoseconds = -120000000;
    assert_eq!(IntervalDS::decode("-1 02:03:04.12"), Ok(it));
    it.fsprec = 3;
    it.nanoseconds = -123000000;
    assert_eq!(IntervalDS::decode("-1 02:03:04.123"), Ok(it));
    it.fsprec = 4;
    it.nanoseconds = -123400000;
    assert_eq!(IntervalDS::decode("-1 02:03:04.1234"), Ok(it));
    it.fsprec = 5;
    it.nanoseconds = -123450000;
    assert_eq!(IntervalDS::decode("-1 02:03:04.12345"), Ok(it));
    it.fsprec = 6;
    it.nanoseconds = -123456000;
    assert_eq!(IntervalDS::decode("-1 02:03:04.123456"), Ok(it));
    it.fsprec = 7;
    it.nanoseconds = -123456700;
    assert_eq!(IntervalDS::decode("-1 02:03:04.1234567"), Ok(it));
    it.fsprec = 8;
    it.nanoseconds = -123456780;
    assert_eq!(IntervalDS::decode("-1 02:03:04.12345678"), Ok(it));
    it.fsprec = 9;
    it.nanoseconds = -123456789;
    assert_eq!(IntervalDS::decode("-1 02:03:04.123456789"), Ok(it));
}

#[test]
fn accessors_report_components_and_precisions() {
    let it = IntervalDS::new(1, 2, 3, 4, 500000000);
    assert_eq!(it.days(), 1);
    assert_eq!(it.hours(), 2);
    assert_eq!(it.minutes(), 3);
    assert_eq!(it.seconds(), 4);
    assert_eq!(it.nanoseconds(), 500000000);
    assert_eq!(it.lfprec(), 9);
    assert_eq!(it.fsprec(), 9);
    let it = it.and_prec(2, 3);
    assert_eq!(it.lfprec(), 2);
    assert_eq!(it.fsprec(), 3);
    assert_eq!(it.days(), 1);
    assert_eq!(it.nanoseconds(), 500000000);
}

#[test]
fn from_record_takes_precisions_from_descriptor() {
    let rec = IntervalRecord { days: 1, hours: 2, minutes: 3, seconds: 4, fseconds: 500000000 };
    let it = IntervalDS::from_record(&rec, &TypeDescriptor::IntervalDayToSecond(2, 3));
    assert_eq!(it.days(), 1);
    assert_eq!(it.hours(), 2);
    assert_eq!(it.minutes(), 3);
    assert_eq!(it.seconds(), 4);
    assert_eq!(it.nanoseconds(), 500000000);
    assert_eq!(it.lfprec(), 2);
    assert_eq!(it.fsprec(), 3);
    assert_eq!(it.encode(), "+01 02:03:04.500");

    let it = IntervalDS::from_record(&rec, &TypeDescriptor::Other);
    assert_eq!(it.lfprec(), 0);
    assert_eq!(it.fsprec(), 0);
    assert_eq!(it.encode(), "+1 02:03:04");
}
