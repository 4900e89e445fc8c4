use topk_eval::dispatch::{
    format_output, format_top_n_docs, parse_limit, parse_line, split_fields, LineError,
    ParsedCommand,
};

#[test]
fn count_line_parses() {
    let line = b"COUNT\thello world".to_vec();
    match parse_line(&line) {
        Ok(ParsedCommand::Count { query }) => assert_eq!(query, b"hello world".to_vec()),
        other => panic!("unexpected parse: {:?}", other.is_ok()),
    }
}

#[test]
fn malformed_count_is_a_per_line_error_and_session_continues() {
    // a session sees a malformed line, reports it, and keeps going
    let lines: Vec<Vec<u8>> = vec![b"COUNT".to_vec(), b"COUNT\tq".to_vec()];
    let mut outcomes: Vec<Result<bool, LineError>> = Vec::new();
    for line in &lines {
        outcomes.push(parse_line(line).map(|_| true));
    }
    assert_eq!(outcomes.len(), 2);
    assert_eq!(outcomes[0], Err(LineError::WrongFieldCount));
    assert_eq!(outcomes[1], Ok(true));
}

#[test]
fn extra_field_is_a_per_line_error() {
    let line = b"TOP_10\tq\textra".to_vec();
    assert!(matches!(parse_line(&line), Err(LineError::WrongFieldCount)));
}

#[test]
fn top_n_docs_parses_its_limit() {
    let line = b"TOP_N_DOCS\tbody query\t25".to_vec();
    match parse_line(&line) {
        Ok(ParsedCommand::TopNDocs { query, n }) => {
            assert_eq!(query, b"body query".to_vec());
            assert_eq!(n, 25);
        }
        _ => panic!("expected a top-n command"),
    }
}

#[test]
fn top_n_docs_needs_three_fields() {
    let line = b"TOP_N_DOCS\tquery".to_vec();
    assert!(matches!(parse_line(&line), Err(LineError::WrongFieldCount)));
}

#[test]
fn top_n_docs_rejects_a_bad_limit() {
    let line = b"TOP_N_DOCS\tquery\tten".to_vec();
    assert!(matches!(parse_line(&line), Err(LineError::BadLimit)));
    let huge = b"TOP_N_DOCS\tquery\t99999999999999999999999".to_vec();
    assert!(matches!(parse_line(&huge), Err(LineError::BadLimit)));
}

#[test]
fn unknown_commands_are_unsupported_not_errors() {
    let line = b"EXPLAIN\tquery".to_vec();
    assert!(matches!(parse_line(&line), Ok(ParsedCommand::Unsupported)));
}

#[test]
fn recognized_commands_dispatch_by_name() {
    assert!(matches!(
        parse_line(&b"TOP_10\tq".to_vec()),
        Ok(ParsedCommand::TopTen { .. })
    ));
    assert!(matches!(
        parse_line(&b"TOP_100\tq".to_vec()),
        Ok(ParsedCommand::TopHundred { .. })
    ));
    assert!(matches!(
        parse_line(&b"TOP_10_COUNT\tq".to_vec()),
        Ok(ParsedCommand::TopTenCount { .. })
    ));
    assert!(matches!(
        parse_line(&b"DEBUG_TOP_10\tq".to_vec()),
        Ok(ParsedCommand::DebugTopTen { .. })
    ));
}

#[test]
fn fields_split_on_tabs() {
    let fields = split_fields(&b"a\tbb\t\tc".to_vec());
    let views: Vec<Vec<u8>> = fields;
    assert_eq!(
        views,
        vec![b"a".to_vec(), b"bb".to_vec(), b"".to_vec(), b"c".to_vec()]
    );
    assert_eq!(split_fields(&b"".to_vec()), vec![b"".to_vec()]);
}

#[test]
fn limits_parse_exactly() {
    assert_eq!(parse_limit(&b"0".to_vec()), Some(0));
    assert_eq!(parse_limit(&b"120".to_vec()), Some(120));
    assert_eq!(parse_limit(&b"".to_vec()), None);
    assert_eq!(parse_limit(&b"1x2".to_vec()), None);
    assert_eq!(parse_limit(&b"18446744073709551615".to_vec()), Some(usize::MAX));
    assert_eq!(parse_limit(&b"18446744073709551616".to_vec()), None);
}

#[test]
fn output_lines_carry_nanoseconds_then_result() {
    let out = format_output(12345, &b"42".to_vec());
    assert_eq!(out, b"12345 42".to_vec());
    let zero = format_output(0, &b"UNSUPPORTED".to_vec());
    assert_eq!(zero, b"0 UNSUPPORTED".to_vec());
}

#[test]
fn top_n_docs_reply_counts_then_lists() {
    let reply = format_top_n_docs(&vec![3, 1, 2, 10, 40]);
    assert_eq!(reply, b"5 3 1 2 10 40".to_vec());
}

#[test]
fn top_n_docs_reply_for_zero_matches() {
    // count zero, one space, empty id list
    let reply = format_top_n_docs(&Vec::new());
    assert_eq!(reply, b"0 ".to_vec());
}
