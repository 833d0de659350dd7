use headr::parse;

#[test]
fn test_parse() {
    let res = parse("3");
    assert!(res.is_ok());
    assert_eq!(res.unwrap(), 3);

    let res = parse("3kB");
    assert!(res.is_ok());
    assert_eq!(res.unwrap(), 3000);

    let res = parse("3G");
    assert!(res.is_ok());
    assert_eq!(res.unwrap(), 3 << 30);

    let res = parse("foo");
    assert!(res.is_err());
    assert_eq!(res.unwrap_err().to_string(), "foo".to_string());
}

#[test]
fn plain_decimals_round_trip() {
    for k in [0i128, 1, 7, 10, 42, 999, 12345, 4096] {
        let res = parse(&k.to_string());
        assert_eq!(res, Ok(k));
    }
    assert_eq!(parse("170141183460469231731687303715884105727"), Ok(i128::MAX));
}

#[test]
fn unit_suffixes() {
    assert_eq!(parse("3kB"), Ok(3000));
    assert_eq!(parse("3k"), Ok(3 * 1024));
    assert_eq!(parse("3G"), Ok(3 * (1i128 << 30)));
    assert_eq!(parse("100b"), Ok(100 * 512));
}

#[test]
fn binary_suffixes() {
    assert_eq!(parse("1K"), Ok(1024));
    assert_eq!(parse("2M"), Ok(2 * (1i128 << 20)));
    assert_eq!(parse("1T"), Ok(1i128 << 40));
    assert_eq!(parse("1P"), Ok(1i128 << 50));
    assert_eq!(parse("1E"), Ok(1i128 << 60));
    assert_eq!(parse("1Z"), Ok(1i128 << 70));
    assert_eq!(parse("1Y"), Ok(1i128 << 80));
}

#[test]
fn decimal_byte_suffixes() {
    assert_eq!(parse("3KB"), Ok(30));
    assert_eq!(parse("2MB"), Ok(200));
    assert_eq!(parse("1GB"), Ok(1000));
    assert_eq!(parse("1YB"), Ok(100000000));
}

#[test]
fn signed_specifications() {
    assert_eq!(parse("-5"), Ok(-5));
    assert_eq!(parse("+7"), Ok(7));
    assert_eq!(parse("-3k"), Ok(-3 * 1024));
    assert_eq!(parse("-2b"), Ok(-1024));
    assert_eq!(parse("0"), Ok(0));
    assert_eq!(parse("-0"), Ok(0));
}

#[test]
fn rejected_literals_echo_verbatim() {
    for bad in ["foo", "", "12x", "B", "kB", "b", "-", "+", "--3", "3.5", " 3", "3 "] {
        let res = parse(bad);
        assert!(res.is_err());
        assert_eq!(res.unwrap_err(), bad.to_string());
    }
}

#[test]
fn out_of_range_values_are_rejected() {
    let res = parse("9999999999999999999999999999999999999999");
    assert_eq!(res, Err("9999999999999999999999999999999999999999".to_string()));
    let res = parse("170141183460469231731687303715884105727K");
    assert_eq!(res, Err("170141183460469231731687303715884105727K".to_string()));
    assert_eq!(parse("170141183460469231731687303715884105728"), Err("170141183460469231731687303715884105728".to_string()));
}
