use puzzles::calibration::{parse_calibration_value, sum_of_calibration_values, tokenize_digits};

#[test]
fn extract_digits_from_line() {
    let examples = [
        ("1", vec!['1']),
        ("234", vec!['2', '3', '4']),
        ("2a3b4c", vec!['2', '3', '4']),
        ("threeafourbfivec", vec!['3', '4', '5']),
        ("one2three4andfive", vec!['1', '2', '3', '4', '5']),
        ("eightwothree", vec!['8', '2', '3']),
    ];

    for (input, expected) in examples.into_iter() {
        let actual = tokenize_digits(input);
        assert_eq!(actual, expected);
    }
}

#[test]
fn all_spelled_digits_are_found() {
    assert_eq!(
        tokenize_digits("onetwothreefourfivesixseveneightnine"),
        vec!['1', '2', '3', '4', '5', '6', '7', '8', '9']
    );
    assert_eq!(tokenize_digits("zero ten"), vec![]);
}

#[test]
fn calibration_value_is_first_and_last_digit() {
    assert_eq!(parse_calibration_value("1abc2"), Some(12));
    assert_eq!(parse_calibration_value("treb7uchet"), Some(77));
    assert_eq!(parse_calibration_value("xtwone3four"), Some(24));
    assert_eq!(parse_calibration_value("zoneight"), Some(18));
    assert_eq!(parse_calibration_value("abc"), None);
}

#[test]
fn sample_calibration_sum() {
    let sample = "two1nine\neightwothree\nabcone2threexyz\nxtwone3four\n4nineeightseven2\nzoneight234\n7pqrstsixteen\n";
    assert_eq!(sum_of_calibration_values(sample), Some(281));
    assert_eq!(sum_of_calibration_values("1abc2\npqr3stu8vwx\na1b2c3d4e5f\ntreb7uchet"), Some(142));
}

#[test]
fn line_without_digits_fails_the_sum() {
    assert_eq!(sum_of_calibration_values("12\nabc\n34\n"), None);
    assert_eq!(sum_of_calibration_values(""), Some(0));
}
