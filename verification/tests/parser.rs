use bf_interpreter::parser::{BfParser, BfParserError};
use bf_interpreter::token::BfToken;

#[test]
fn all_commands_parse() {
    let tokens = BfParser::parse("a+-[],.<>").unwrap();

    assert_eq!(
        &tokens,
        &[
            BfToken::NotCommand('a'),
            BfToken::Increment(1),
            BfToken::Decrement(1),
            BfToken::LoopStart(4),
            BfToken::LoopEnd(3),
            BfToken::InputChar,
            BfToken::PrintChar,
            BfToken::CursorLeft(1),
            BfToken::CursorRight(1),
        ]
    );
}

#[test]
fn parse_compress() {
    let tokens = BfParser::parse_compress("+++++--->>>><<").unwrap();
    assert_eq!(&tokens, &[BfToken::Increment(2), BfToken::CursorRight(2),]);

    let tokens = BfParser::parse_compress("++++++++++[>+++++++>++++++++++>+++>+<<<<-]>++.>+.+++++++..+++.>++.<<+++++++++++++++.>.+++.------.--------.>+.>.",).unwrap();
    assert_eq!(
        &tokens,
        &[
            BfToken::Increment(10),
            BfToken::LoopStart(12),
            BfToken::CursorRight(1),
            BfToken::Increment(7),
            BfToken::CursorRight(1),
            BfToken::Increment(10),
            BfToken::CursorRight(1),
            BfToken::Increment(3),
            BfToken::CursorRight(1),
            BfToken::Increment(1),
            BfToken::CursorLeft(4),
            BfToken::Decrement(1),
            BfToken::LoopEnd(1),
            BfToken::CursorRight(1),
            BfToken::Increment(2),
            BfToken::PrintChar,
            BfToken::CursorRight(1),
            BfToken::Increment(1),
            BfToken::PrintChar,
            BfToken::Increment(7),
            BfToken::PrintChar,
            BfToken::PrintChar,
            BfToken::Increment(3),
            BfToken::PrintChar,
            BfToken::CursorRight(1),
            BfToken::Increment(2),
            BfToken::PrintChar,
            BfToken::CursorLeft(2),
            BfToken::Increment(15),
            BfToken::PrintChar,
            BfToken::CursorRight(1),
            BfToken::PrintChar,
            BfToken::Increment(3),
            BfToken::PrintChar,
            BfToken::Decrement(6),
            BfToken::PrintChar,
            BfToken::Decrement(8),
            BfToken::PrintChar,
            BfToken::CursorRight(1),
            BfToken::Increment(1),
            BfToken::PrintChar,
            BfToken::CursorRight(1),
            BfToken::PrintChar
        ]
    );
}

#[test]
fn unclosed_loop() {
    let tokens = BfParser::parse("[]]").unwrap_err();
    assert_eq!(tokens, BfParserError::LoopNotClosed(2));
    let tokens = BfParser::parse("[[]").unwrap_err();
    assert_eq!(tokens, BfParserError::LoopNotClosed(0));
    let tokens = BfParser::parse("[[[]").unwrap_err();
    assert_eq!(tokens, BfParserError::LoopNotClosed(1));
}

#[test]
fn balanced_source_targets_match() {
    // Nested and sequential loops: each bracket token carries the index of
    // its syntactic partner.
    let tokens = BfParser::parse("[[]][]").unwrap();
    assert_eq!(tokens[0], BfToken::LoopStart(3));
    assert_eq!(tokens[1], BfToken::LoopStart(2));
    assert_eq!(tokens[2], BfToken::LoopEnd(1));
    assert_eq!(tokens[3], BfToken::LoopEnd(0));
    assert_eq!(tokens[4], BfToken::LoopStart(5));
    assert_eq!(tokens[5], BfToken::LoopEnd(4));
}

#[test]
fn close_without_open_reported_at_close() {
    // With no unmatched start before it, the stray close itself is reported.
    assert_eq!(BfParser::parse("]").unwrap_err(), BfParserError::LoopNotClosed(0));
    assert_eq!(BfParser::parse("+]").unwrap_err(), BfParserError::LoopNotClosed(1));
    assert_eq!(BfParser::parse_compress("[]]").unwrap_err(), BfParserError::LoopNotClosed(2));
}

#[test]
fn compress_error_positions_match_plain_parse() {
    // The compressing parser rejects the same sources at the same indices.
    for src in ["[]]", "[[]", "[[[]", "]", "++]"] {
        assert_eq!(BfParser::parse(src).unwrap_err(), BfParser::parse_compress(src).unwrap_err());
    }
}

#[test]
fn compress_flushes_at_class_boundaries() {
    // A token of another class flushes the pending run: the two increments
    // around the comment character stay separate.
    let tokens = BfParser::parse_compress("+x+").unwrap();
    assert_eq!(
        &tokens,
        &[BfToken::Increment(1), BfToken::NotCommand('x'), BfToken::Increment(1)]
    );
    // A zero net run disappears entirely.
    let tokens = BfParser::parse_compress("+-").unwrap();
    assert_eq!(&tokens, &[] as &[BfToken]);
    // The pending increment is flushed before the pending move only when
    // both exist; they never merge across one another.
    let tokens = BfParser::parse_compress("++>>.").unwrap();
    assert_eq!(
        &tokens,
        &[
            BfToken::Increment(2),
            BfToken::CursorRight(2),
            BfToken::PrintChar,
        ]
    );
}

#[test]
fn compress_wraps_counts_past_256() {
    // 257 pluses merge to a single increment of 1: counts carry modulo 256,
    // which is faithful because cell arithmetic wraps.
    let src = "+".repeat(257);
    let tokens = BfParser::parse_compress(&src).unwrap();
    assert_eq!(&tokens, &[BfToken::Increment(1)]);
    // A multiple of 256 leaves a zero-count increment, a harmless no-op.
    let src = "+".repeat(256);
    let tokens = BfParser::parse_compress(&src).unwrap();
    assert_eq!(&tokens, &[BfToken::Increment(0)]);
}
