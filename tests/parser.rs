use tapelang::parser::{Parser, ParserError};
use tapelang::program::{Statement, StatementConversionError};

fn parse(source: &[u8]) -> Result<String, ParserError> {
    Parser::new(source).parse().map(|p| format!("{:?}", p.statements()))
}

#[test]
fn plain_statements_in_order() {
    let listing = parse(b"><+-.,").unwrap();
    assert_eq!(
        listing,
        "[IncrementPointer, DecrementPointer, IncrementValue, DecrementValue, PutChar, GetChar]"
    );
}

#[test]
fn insignificant_bytes_are_skipped() {
    assert_eq!(parse(b"a + b\n+ c").unwrap(), "[IncrementValue, IncrementValue]");
    assert_eq!(parse(b"no code here").unwrap(), "[]");
    assert_eq!(parse(b"").unwrap(), "[]");
}

#[test]
fn nested_loops() {
    assert_eq!(
        parse(b"+[>[-]<-]").unwrap(),
        "[IncrementValue, Loop([IncrementPointer, Loop([DecrementValue]), DecrementPointer, DecrementValue])]"
    );
    assert_eq!(parse(b"[]").unwrap(), "[Loop([])]");
}

#[test]
fn unmatched_closing_bracket_is_unexpected() {
    assert_eq!(parse(b"]"), Err(ParserError::UnexpectedChar(b']')));
    assert_eq!(parse(b"[]]"), Err(ParserError::UnexpectedChar(b']')));
    assert_eq!(parse(b"+] [+"), Err(ParserError::UnexpectedChar(b']')));
}

#[test]
fn unclosed_loop_is_reported() {
    assert_eq!(parse(b"["), Err(ParserError::LoopNotClosed));
    assert_eq!(parse(b"[[]"), Err(ParserError::LoopNotClosed));
    assert_eq!(parse(b"+[-"), Err(ParserError::LoopNotClosed));
}

#[test]
fn statement_reports_end_and_closing() {
    let source = b"  ]";
    let mut parser = Parser::new(source);
    assert_eq!(parser.statement().map(|_| ()), Err(ParserError::ClosingLoop));
    assert_eq!(parser.current(), b']');
    let empty = b"  ";
    let mut parser = Parser::new(empty);
    assert_eq!(parser.statement().map(|_| ()), Err(ParserError::EndOfSource));
    assert!(parser.is_at_end());
    assert_eq!(parser.current(), 0);
}

#[test]
fn loop_reads_to_matching_bracket() {
    let source = b"[+[-]]>";
    let mut parser = Parser::new(source);
    let statement = parser.loop_().unwrap();
    assert_eq!(format!("{:?}", statement), "Loop([IncrementValue, Loop([DecrementValue])])");
    assert_eq!(parser.current(), b'>');
}

#[test]
fn block_stops_at_closing_bracket() {
    let source = b"+-]+";
    let mut parser = Parser::new(source);
    let block = parser.block().unwrap();
    assert_eq!(format!("{:?}", block), "[IncrementValue, DecrementValue]");
    assert_eq!(parser.current(), b']');
    parser.advance();
    assert_eq!(parser.current(), b'+');
}

#[test]
fn bytes_convert_to_statements() {
    assert!(matches!(Statement::try_from(b'>'), Ok(Statement::IncrementPointer)));
    assert!(matches!(Statement::try_from(b'<'), Ok(Statement::DecrementPointer)));
    assert!(matches!(Statement::try_from(b'+'), Ok(Statement::IncrementValue)));
    assert!(matches!(Statement::try_from(b'-'), Ok(Statement::DecrementValue)));
    assert!(matches!(Statement::try_from(b'.'), Ok(Statement::PutChar)));
    assert!(matches!(Statement::try_from(b','), Ok(Statement::GetChar)));
    assert!(matches!(Statement::try_from(b'['), Err(StatementConversionError::OpeningLoop)));
    assert!(matches!(Statement::try_from(b']'), Err(StatementConversionError::ClosingLoop)));
    assert!(matches!(Statement::try_from(b'x'), Err(StatementConversionError::InsignificantChar)));
    assert!(matches!(Statement::try_from(0), Err(StatementConversionError::InsignificantChar)));
}

#[test]
fn statement_reads_plain_byte_before_unclosed_loop() {
    let source = b" +[";
    let mut parser = Parser::new(source);
    assert!(matches!(parser.statement(), Ok(Statement::IncrementValue)));
    assert_eq!(parser.current(), b'[');
    assert_eq!(parser.statement().map(|_| ()), Err(ParserError::LoopNotClosed));
}

#[test]
fn loop_closes_before_later_unclosed_loop() {
    let source = b"[]x[";
    let mut parser = Parser::new(source);
    assert_eq!(format!("{:?}", parser.loop_().unwrap()), "Loop([])");
    assert_eq!(parser.current(), b'x');
}
