use copager::error::{dec_string, Diagnostics};

#[test]
fn a_report_shows_the_lines_and_the_column() {
    let d = Diagnostics { src: "1 + 2\n3 * 4\n5 - x\n".to_string(), range: (16, 17) };
    assert_eq!(d.position(), (3, 5));
    assert_eq!(
        d.report(),
        "-----\n 1: 1 + 2\n 2: 3 * 4\n 3: 5 - x\n        ^ here\nFound at line 3, column 5.\n-----\n"
    );
}

#[test]
fn a_report_on_the_first_line() {
    let d = Diagnostics { src: "abc".to_string(), range: (0, 1) };
    assert_eq!(d.report(), "-----\n 1: abc\n    ^ here\nFound at line 1, column 1.\n-----\n");
}

#[test]
fn numbers_are_written_in_decimal() {
    assert_eq!(dec_string(0), "0");
    assert_eq!(dec_string(7), "7");
    assert_eq!(dec_string(1234), "1234");
    assert_eq!(dec_string(10), "10");
}
