use editpad::numbering::{extract_leading_int, sequence_lines, NumBase};

#[test]
fn sequence_lines_formats_all_bases_with_pad_and_step() {
    // decimal with a negative step
    assert_eq!(sequence_lines(3, 5, -2, NumBase::Dec, 0, false), ["5", "3", "1"]);
    // zero padding to a fixed width
    assert_eq!(sequence_lines(3, 1, 1, NumBase::Dec, 3, false), ["001", "002", "003"]);
    // padding covers the digits only; the minus sign stays in front
    assert_eq!(sequence_lines(2, -3, 1, NumBase::Dec, 3, false), ["-003", "-002"]);
    // hexadecimal in both cases
    assert_eq!(sequence_lines(2, 9, 1, NumBase::Hex, 2, false), ["09", "0a"]);
    assert_eq!(sequence_lines(2, 9, 1, NumBase::Hex, 2, true), ["09", "0A"]);
    // binary / octal
    assert_eq!(sequence_lines(3, 0, 2, NumBase::Bin, 4, false), ["0000", "0010", "0100"]);
    assert_eq!(sequence_lines(2, 8, 1, NumBase::Oct, 2, false), ["10", "11"]);
    // saturation at the top of i64
    assert_eq!(
        sequence_lines(2, i64::MAX, 1, NumBase::Dec, 0, false),
        [i64::MAX.to_string(), i64::MAX.to_string()]
    );
    // saturation at the bottom of i64
    assert_eq!(
        sequence_lines(2, i64::MIN, -1, NumBase::Dec, 0, false),
        [i64::MIN.to_string(), i64::MIN.to_string()]
    );
    // the padding width is capped at 32
    assert_eq!(
        sequence_lines(1, 7, 1, NumBase::Dec, 100, false),
        [format!("{:0>32}", "7")]
    );
    // zero lines
    assert!(sequence_lines(0, 1, 1, NumBase::Dec, 0, false).is_empty());
}

#[test]
fn extract_leading_int_handles_signs_overflow_and_words() {
    assert_eq!(extract_leading_int("-12abc"), Some(-12));
    assert_eq!(extract_leading_int("+7"), Some(7));
    assert_eq!(extract_leading_int("abc-3"), Some(-3), "number inside a word");
    assert_eq!(extract_leading_int("--5"), Some(-5), "the second - binds to 5");
    assert_eq!(extract_leading_int("no digits"), None);
    // very long digit runs saturate
    assert_eq!(extract_leading_int(&"9".repeat(60)), Some(i128::MAX));
    assert_eq!(extract_leading_int(&format!("-{}", "9".repeat(60))), Some(i128::MIN));
}

#[test]
fn sequence_lines_hex_upper_and_large_step() {
    assert_eq!(sequence_lines(3, 250, 3, NumBase::Hex, 0, true), ["FA", "FD", "100"]);
    // the exact value start + i * step is clamped, not a wrapped intermediate
    assert_eq!(
        sequence_lines(3, i64::MIN, 1 << 62, NumBase::Dec, 0, false),
        [i64::MIN.to_string(), (-(1i64 << 62)).to_string(), "0".to_string()]
    );
    assert_eq!(sequence_lines(1, i64::MIN, 0, NumBase::Bin, 0, false)[0].len(), 65);
}

#[test]
fn extract_leading_int_edges() {
    assert_eq!(extract_leading_int(""), None);
    assert_eq!(extract_leading_int("x007y8"), Some(7));
    assert_eq!(extract_leading_int("a-"), None);
    assert_eq!(extract_leading_int("170141183460469231731687303715884105727"), Some(i128::MAX));
    assert_eq!(extract_leading_int("-170141183460469231731687303715884105728"), Some(i128::MIN));
    assert_eq!(extract_leading_int("-170141183460469231731687303715884105727"), Some(-i128::MAX));
}
