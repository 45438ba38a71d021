use onebrc::temperature::parse_temp;
use onebrc::temperature::push_temp;

#[test]
fn test_branchless_parse_temp() {
    let temp1 = "-90.1".as_bytes();
    let temp2 = "-9.1".as_bytes();
    let temp3 = "90.1".as_bytes();
    let temp4 = "9.1".as_bytes();

    assert_eq!(parse_temp(temp1), -901);
    assert_eq!(parse_temp(temp2), -91);
    assert_eq!(parse_temp(temp3), 901);
    assert_eq!(parse_temp(temp4), 91);
}

#[test]
fn test_arrayless_parse_temp() {
    let temp1 = "-90.1".as_bytes();
    let temp2 = "-9.1".as_bytes();
    let temp3 = "90.1".as_bytes();
    let temp4 = "9.1".as_bytes();

    assert_eq!(parse_temp2(temp1), parse_temp(temp1));
    assert_eq!(parse_temp2(temp2), parse_temp(temp2));
    assert_eq!(parse_temp2(temp3), parse_temp(temp3));
    assert_eq!(parse_temp2(temp4), parse_temp(temp4));
}

fn parse_temp2(bytes: &[u8]) -> i16 {
    let len = bytes.len();

    let neg_byte = bytes[0];
    let neg = (neg_byte == b'-') as i16;
    let neg_mask = neg.wrapping_neg();

    let dec_byte = bytes[len - 1];
    let one_byte = bytes[len - 3];
    let ten_byte = bytes[neg as usize];

    let dec = (dec_byte - b'0') as i16;
    let one = 10 * (one_byte - b'0') as i16;

    let ten_mask = (((len as i16 - neg) == 4) as u8).wrapping_neg();
    let ten = 100 * ((ten_byte - b'0') & ten_mask) as i16;

    ((ten + one + dec) ^ neg_mask) - neg_mask
}

#[test]
fn test_parse_temp_extremes() {
    assert_eq!(parse_temp(b"-99.9"), -999);
    assert_eq!(parse_temp(b"99.9"), 999);
    assert_eq!(parse_temp(b"0.0"), 0);
    assert_eq!(parse_temp(b"-0.1"), -1);
}

#[test]
fn test_format_temp() {
    let cases: Vec<(i32, &[u8])> = vec![
        (-999, b"-99.9"),
        (999, b"99.9"),
        (0, b"0.0"),
        (-5, b"-0.5"),
        (5, b"0.5"),
        (901, b"90.1"),
        (-91, b"-9.1"),
        (120, b"12.0"),
    ];
    for (v, expected) in cases {
        let mut out: Vec<u8> = Vec::new();
        push_temp(&mut out, v);
        assert_eq!(out.as_slice(), expected);
    }
}

#[test]
fn test_parse_format_round_trip_cases() {
    for s in ["-90.1", "-9.1", "90.1", "9.1", "0.0", "-0.5", "99.9", "-99.9"] {
        let v = parse_temp(s.as_bytes());
        let mut out: Vec<u8> = Vec::new();
        push_temp(&mut out, v as i32);
        assert_eq!(out.as_slice(), s.as_bytes());
    }
}
