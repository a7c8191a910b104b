use wav2pwl::number::{is_float_text, parse_index};
use wav2pwl::pwl::{is_header, parse_line, parse_pwl, resolve_column, ErrorKind, PwlError};
use wav2pwl::text::{split_on, split_words, trimmed};

fn b(s: &str) -> Vec<u8> {
    s.as_bytes().to_vec()
}

fn lines(text: &str) -> Vec<Vec<u8>> {
    text.lines().map(|l| b(l)).collect()
}

#[test]
fn header_detection_words_and_numbers() {
    assert!(is_header(b"time out"));
    assert!(!is_header(b"0.0 0.0"));
    assert!(!is_header(b"time 1e-3"));
    assert!(!is_header(b"0.0,0.0"));
    assert!(!is_header(b""));
    assert!(is_header(b"  t   v(out) "));
}

#[test]
fn header_columns_resolve_by_default_name_and_index() {
    let header = Some(vec![b("time"), b("mid"), b("out")]);
    assert_eq!(resolve_column(&header, &None).ok(), Some(2));
    assert_eq!(resolve_column(&header, &Some(b("mid"))).ok(), Some(1));
    assert_eq!(resolve_column(&header, &Some(b("0"))).ok(), Some(0));
}

#[test]
fn header_without_out_falls_back_to_first_column() {
    let header = Some(vec![b("time"), b("mid")]);
    assert_eq!(resolve_column(&header, &None).ok(), Some(0));
}

#[test]
fn header_unknown_name_lists_columns() {
    let header = Some(vec![b("time"), b("mid")]);
    match resolve_column(&header, &Some(b("vdd"))) {
        Err(e) => {
            assert_eq!(e.kind(), ErrorKind::Configuration);
            match e {
                PwlError::ColumnNotFound { name, available } => {
                    assert_eq!(name, b("vdd"));
                    assert_eq!(available, vec![b("time"), b("mid")]);
                }
                _ => panic!("wrong error"),
            }
        }
        Ok(_) => panic!("expected an error"),
    }
}

#[test]
fn header_index_past_last_column_is_rejected() {
    let header = Some(vec![b("time"), b("out")]);
    match resolve_column(&header, &Some(b("5"))) {
        Err(PwlError::ColumnOutOfRange { index, count }) => {
            assert_eq!(index, 5);
            assert_eq!(count, 2);
        }
        _ => panic!("expected out of range"),
    }
}

#[test]
fn headerless_column_defaults_and_rejects_names() {
    assert_eq!(resolve_column(&None, &None).ok(), Some(1));
    assert_eq!(resolve_column(&None, &Some(b("3"))).ok(), Some(3));
    match resolve_column(&None, &Some(b("abc"))) {
        Err(e) => {
            assert_eq!(e.kind(), ErrorKind::Configuration);
            match e {
                PwlError::NotAnIndex { selector } => assert_eq!(selector, b("abc")),
                _ => panic!("wrong error"),
            }
        }
        Ok(_) => panic!("expected an error"),
    }
}

#[test]
fn round_trip_text_parses_three_points() {
    let d = parse_pwl(&lines("0.0,0.0\n0.5,1.0\n1.0,0.0"), &None).ok().unwrap();
    assert!(d.header.is_none());
    assert_eq!(d.column, 1);
    assert_eq!(
        d.points,
        vec![(b("0.0"), b("0.0")), (b("0.5"), b("1.0")), (b("1.0"), b("0.0"))]
    );
}

#[test]
fn header_file_skips_first_line_and_reads_out() {
    let text = "time mid out\n* comment\n0 1 2\n\n; note\n1e-3 4 5.5\n";
    let d = parse_pwl(&lines(text), &None).ok().unwrap();
    assert_eq!(d.column, 2);
    assert_eq!(d.header, Some(vec![b("time"), b("mid"), b("out")]));
    assert_eq!(d.points, vec![(b("0"), b("2")), (b("1e-3"), b("5.5"))]);
}

#[test]
fn empty_file_is_structural_error() {
    match parse_pwl(&Vec::new(), &None) {
        Err(e) => {
            assert_eq!(e.kind(), ErrorKind::Structure);
            assert!(matches!(e, PwlError::EmptyFile));
        }
        Ok(_) => panic!("expected an error"),
    }
}

#[test]
fn file_without_data_rows_is_structural_error() {
    match parse_pwl(&lines("* only a comment\n\n   \n"), &None) {
        Err(e) => {
            assert_eq!(e.kind(), ErrorKind::Structure);
            assert!(matches!(e, PwlError::NoSamples));
        }
        Ok(_) => panic!("expected an error"),
    }
}

#[test]
fn bad_number_is_format_error() {
    match parse_pwl(&lines("0.0,abc"), &None) {
        Err(e) => {
            assert_eq!(e.kind(), ErrorKind::Format);
            match e {
                PwlError::BadNumber { text } => assert_eq!(text, b("abc")),
                _ => panic!("wrong error"),
            }
        }
        Ok(_) => panic!("expected an error"),
    }
}

#[test]
fn short_row_names_its_field_count() {
    match parse_line(b"0.5 1.0", 4) {
        Err(e) => {
            assert_eq!(e.kind(), ErrorKind::Format);
            match e {
                PwlError::MissingField { column, count } => {
                    assert_eq!(column, 4);
                    assert_eq!(count, 2);
                }
                _ => panic!("wrong error"),
            }
        }
        Ok(_) => panic!("expected an error"),
    }
}

#[test]
fn comma_row_checks_time_before_field_count() {
    match parse_line(b"x, 1.0", 4) {
        Err(PwlError::BadNumber { text }) => assert_eq!(text, b("x")),
        _ => panic!("expected a bad number"),
    }
    match parse_line(b"x 1.0", 4) {
        Err(PwlError::MissingField { column, count }) => {
            assert_eq!(column, 4);
            assert_eq!(count, 2);
        }
        _ => panic!("expected a missing field"),
    }
}

#[test]
fn rows_are_trimmed_and_comments_skipped() {
    assert_eq!(parse_line(b"  * 1 2", 1).ok(), Some(None));
    assert_eq!(parse_line(b";x", 1).ok(), Some(None));
    assert_eq!(parse_line(b"\t ", 1).ok(), Some(None));
    assert_eq!(
        parse_line(b" 1.0 ,  -2.5e3 , 7", 1).ok(),
        Some(Some((b("1.0"), b("-2.5e3"))))
    );
    assert_eq!(parse_line(b"1\t2\t3", 2).ok(), Some(Some((b("1"), b("3")))));
}

#[test]
fn float_texts_follow_the_literal_grammar() {
    for t in ["0", "1.5", ".5", "5.", "-1e10", "+2.5E-3", "inf", "-Infinity", "NaN", "1e+7"] {
        assert!(is_float_text(t.as_bytes()), "{}", t);
    }
    for t in ["", ".", "e5", "1e", "1e+", "+-1", "1.2.3", "abc", "time", "1,0", " 1", "infinit"] {
        assert!(!is_float_text(t.as_bytes()), "{}", t);
    }
}

#[test]
fn index_texts_follow_unsigned_parsing() {
    assert_eq!(parse_index(b"0"), Some(0));
    assert_eq!(parse_index(b"+7"), Some(7));
    assert_eq!(parse_index(b"0042"), Some(42));
    assert_eq!(parse_index(b"18446744073709551615"), Some(18446744073709551615));
    assert_eq!(parse_index(b"18446744073709551616"), None);
    assert_eq!(parse_index(b"-1"), None);
    assert_eq!(parse_index(b"+"), None);
    assert_eq!(parse_index(b""), None);
    assert_eq!(parse_index(b"1a"), None);
}

#[test]
fn splitting_and_trimming_bytes() {
    assert_eq!(trimmed(b" \t a b \r\n"), b("a b"));
    assert_eq!(trimmed(b"   "), b(""));
    assert_eq!(split_words(b"  a  bc d "), vec![b("a"), b("bc"), b("d")]);
    assert_eq!(split_words(b"   "), Vec::<Vec<u8>>::new());
    assert_eq!(split_on(b"a,,b", b','), vec![b("a"), b(""), b("b")]);
    assert_eq!(split_on(b"", b','), vec![b("")]);
}
