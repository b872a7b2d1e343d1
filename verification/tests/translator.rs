use bfc::ir::{Op, ParseError, ParseErrorKind, IR};

#[test]
fn test_unclosed_loop() {
    let err = IR::from_str("[").unwrap_err();
    assert_eq!(err, ParseError::new(0, ParseErrorKind::UnclosedLoop));
}

#[test]
fn test_unexpected_loop_end() {
    let err = IR::from_str("]").unwrap_err();
    assert_eq!(err, ParseError::new(0, ParseErrorKind::UnexpectedLoopEnd));
}

#[test]
fn test_unclosed_loop_reports_innermost() {
    // Two loops left open: the innermost, most recently opened one at
    // position 1 is reported.
    let err = IR::from_str("[[").unwrap_err();
    assert_eq!(err, ParseError::new(1, ParseErrorKind::UnclosedLoop));
    // The inner loop is closed, so the opener left unmatched is the outer one.
    let err = IR::from_str("[[]").unwrap_err();
    assert_eq!(err, ParseError::new(0, ParseErrorKind::UnclosedLoop));
}

#[test]
fn test_error_positions_count_comments() {
    // Positions index the source's characters, comments included.
    let err = IR::from_str("ab]").unwrap_err();
    assert_eq!(err, ParseError::new(2, ParseErrorKind::UnexpectedLoopEnd));
    let err = IR::from_str("..x[y").unwrap_err();
    assert_eq!(err, ParseError::new(3, ParseErrorKind::UnclosedLoop));
}

#[test]
fn test_tokens_round_trip_comment_free() {
    // A balanced, comment-free source maps back to itself, in order.
    let source = "+[->.,<]";
    let ir = IR::from_str(source).unwrap();
    let chars: Vec<char> = ir.tokens.iter().map(|op| op.into_char()).collect();
    let expected: Vec<char> = source.chars().collect();
    assert_eq!(chars, expected);
}

#[test]
fn test_comments_are_skipped() {
    let ir = IR::from_str("a+b.c").unwrap();
    assert_eq!(ir.tokens, vec![Op::IncByte, Op::OutByte]);
}

#[test]
fn test_empty_source() {
    let ir = IR::from_str("").unwrap();
    assert!(ir.tokens.is_empty());
    assert!(ir.jump_table.is_empty());
}

#[test]
fn test_jump_table_pairs_loops() {
    // For each loop-start at i with jump_table[i] = j, the instruction at j
    // is the matching loop-end and jump_table[j] = i.
    let ir = IR::from_str("[]").unwrap();
    assert_eq!(ir.jump_table, vec![1, 0]);

    let ir = IR::from_str("[[]]").unwrap();
    assert_eq!(ir.jump_table, vec![3, 2, 1, 0]);

    let ir = IR::from_str("[][]").unwrap();
    assert_eq!(ir.jump_table, vec![1, 0, 3, 2]);
}

#[test]
fn test_jump_table_covers_all_instructions() {
    // The table is sized to the instruction sequence's length; entries at
    // non-loop indices are unused zeroes.
    let ir = IR::from_str("+").unwrap();
    assert_eq!(ir.tokens.len(), 1);
    assert_eq!(ir.jump_table, vec![0]);

    let ir = IR::from_str("[]+").unwrap();
    assert_eq!(ir.jump_table, vec![1, 0, 0]);

    let ir = IR::from_str("+[]").unwrap();
    assert_eq!(ir.jump_table, vec![0, 2, 1]);

    let ir = IR::from_str("><+-.,").unwrap();
    assert_eq!(ir.jump_table, vec![0, 0, 0, 0, 0, 0]);
}

#[test]
fn test_jump_table_ignores_comment_positions() {
    // Jump-table entries are instruction indices, not source positions.
    let ir = IR::from_str("x[y]z").unwrap();
    assert_eq!(ir.tokens, vec![Op::LoopStart, Op::LoopEnd]);
    assert_eq!(ir.jump_table, vec![1, 0]);
}

#[test]
fn test_op_from_char() {
    assert_eq!(Op::from_char('>'), Some(Op::IncPtr));
    assert_eq!(Op::from_char('<'), Some(Op::DecPtr));
    assert_eq!(Op::from_char('+'), Some(Op::IncByte));
    assert_eq!(Op::from_char('-'), Some(Op::DecByte));
    assert_eq!(Op::from_char('.'), Some(Op::OutByte));
    assert_eq!(Op::from_char(','), Some(Op::InByte));
    assert_eq!(Op::from_char('['), Some(Op::LoopStart));
    assert_eq!(Op::from_char(']'), Some(Op::LoopEnd));
    assert_eq!(Op::from_char('x'), None);
    assert_eq!(Op::from_char(' '), None);
}

#[test]
fn test_op_into_char() {
    assert_eq!(Op::IncPtr.into_char(), '>');
    assert_eq!(Op::DecPtr.into_char(), '<');
    assert_eq!(Op::IncByte.into_char(), '+');
    assert_eq!(Op::DecByte.into_char(), '-');
    assert_eq!(Op::OutByte.into_char(), '.');
    assert_eq!(Op::InByte.into_char(), ',');
    assert_eq!(Op::LoopStart.into_char(), '[');
    assert_eq!(Op::LoopEnd.into_char(), ']');
}

#[test]
fn test_parse_error_new() {
    let err = ParseError::new(7, ParseErrorKind::UnclosedLoop);
    assert_eq!(err.token_pos, 7);
    assert_eq!(err.kind, ParseErrorKind::UnclosedLoop);
}
