use algorithms::clox::op::{instruction_offsets, instruction_width, next_offset, OpCode};
use algorithms::clox::parser::Parser;
use algorithms::clox::precedence::{get_rule, ParseFn, Precedence};
use algorithms::clox::scanner::{to_keyword, Scanner};
use algorithms::clox::token::TokenType;
use algorithms::clox::upvalue::UpValue;

#[test]
fn every_byte_decodes_and_encodes_back() {
    for b in 0..=255u8 {
        let op = OpCode::from(b);
        assert_eq!(b, u8::from(op));
    }
    assert!(matches!(OpCode::from(3), OpCode::Add));
    assert!(matches!(OpCode::from(23), OpCode::Unknown(23)));
    assert_eq!(22, u8::from(OpCode::Jump));
}

#[test]
fn precedence_climbs_to_primary() {
    let mut p = Precedence::Lowest;
    let mut steps = 0;
    while p != Precedence::Primary {
        let q = p.heigher();
        assert!(q > p);
        p = q;
        steps += 1;
    }
    assert_eq!(10, steps);
    assert_eq!(Precedence::Primary, Precedence::Primary.heigher());
    assert_eq!(Precedence::Term, Precedence::Comparison.heigher());
}

#[test]
fn parse_rules_of_some_tokens() {
    let r = get_rule(TokenType::Minus);
    assert_eq!(ParseFn::Unary, r.prefix);
    assert_eq!(ParseFn::Binary, r.infix);
    assert_eq!(Precedence::Term, r.precedence);
    let r = get_rule(TokenType::Or);
    assert_eq!(ParseFn::Or, r.infix);
    assert_eq!(Precedence::Or, r.precedence);
    let r = get_rule(TokenType::Semicolon);
    assert_eq!(ParseFn::Nothing, r.prefix);
    assert_eq!(ParseFn::Nothing, r.infix);
    assert_eq!(Precedence::Lowest, r.precedence);
}

#[test]
fn scanner_reads_a_slash_after_whitespace_and_comments() {
    let mut s = Scanner::new("  \t/x\0");
    let t = s.scan_token();
    assert_eq!(TokenType::Slash, t.ty);
    assert_eq!("/", t.str.as_str());
    assert_eq!(1, t.line);
    let t = s.scan_token();
    assert_eq!(TokenType::Identifier, t.ty);
    assert_eq!("x", t.str.as_str());
    assert_eq!(TokenType::Eof, s.scan_token().ty);

    let mut s = Scanner::new("\n// note\n\r / 1\0");
    let t = s.scan_token();
    assert_eq!(TokenType::Slash, t.ty);
    assert_eq!(3, t.line);
    let t = s.scan_token();
    assert_eq!(TokenType::Number, t.ty);
    assert_eq!("1", t.str.as_str());
}

#[test]
fn scanner_reads_a_two_character_operator() {
    let mut s = Scanner::new("!=\0");
    let t = s.scan_token();
    assert_eq!(TokenType::BangEqual, t.ty);
    assert_eq!("!=", t.str.as_str());
    assert_eq!(1, t.line);
    assert_eq!(TokenType::Eof, s.scan_token().ty);
    assert_eq!(TokenType::Eof, s.scan_token().ty);
}

#[test]
fn scanner_reads_keywords_identifiers_and_numbers() {
    let mut s = Scanner::new("// hi\nwhile whiles 1.5\0");
    let expected = [
        (TokenType::While, "while"),
        (TokenType::Identifier, "whiles"),
        (TokenType::Number, "1.5"),
    ];
    for (ty, text) in expected.iter() {
        let t = s.scan_token();
        assert_eq!(*ty, t.ty);
        assert_eq!(*text, t.str.as_str());
        assert_eq!(2, t.line);
    }
    assert_eq!(TokenType::Eof, s.scan_token().ty);
}

#[test]
fn scanner_reads_strings_and_reports_errors() {
    let mut s = Scanner::new("\"a\nb\" 1. @\0");
    let t = s.scan_token();
    assert_eq!(TokenType::String, t.ty);
    assert_eq!("\"a\nb\"", t.str.as_str());
    assert_eq!(2, t.line);
    let t = s.scan_token();
    assert_eq!(TokenType::Number, t.ty);
    assert_eq!("1", t.str.as_str());
    assert_eq!(TokenType::Dot, s.scan_token().ty);
    let t = s.scan_token();
    assert_eq!(TokenType::Error, t.ty);
    assert_eq!("Unexpected character.", t.str.as_str());
    assert_eq!(TokenType::Eof, s.scan_token().ty);

    let mut s = Scanner::new("\"open\0");
    let t = s.scan_token();
    assert_eq!(TokenType::Error, t.ty);
    assert_eq!("Unterminated string.", t.str.as_str());
    assert_eq!(TokenType::Eof, s.scan_token().ty);
}

#[test]
fn keywords_and_identifiers() {
    assert_eq!(TokenType::While, to_keyword("while"));
    assert_eq!(TokenType::Ture, to_keyword("true"));
    assert_eq!(TokenType::Fn, to_keyword("fn"));
    assert_eq!(TokenType::Identifier, to_keyword("whilst"));
    assert_eq!(TokenType::Identifier, to_keyword(""));
}

#[test]
fn upvalue_moves_to_a_new_slot() {
    let mut u = UpValue::new(3);
    assert_eq!(3, u.location());
    assert!(u.set_location(9).is_ok());
    assert_eq!(9, u.location());
}

#[test]
fn parser_reports_the_first_error_only() {
    let mut p = Parser { error: false, panic: false, previous: None, current: None };
    assert!(p.error_at_current());
    assert!(p.error && p.panic);
    assert!(!p.error_at_current());
    assert!(p.error && p.panic);
}

#[test]
fn instruction_widths() {
    let code: Vec<u8> = vec![1, 5, 21, 0, 3, 2, 99, 19, 1, 22, 0, 0];
    assert_eq!(2, instruction_width(&code, 0));
    assert_eq!(5, instruction_width(&code, 2));
    assert_eq!(6, instruction_width(&code, 5));
    assert_eq!(7, instruction_width(&code, 6));
    assert_eq!(9, instruction_width(&code, 7));
    assert_eq!(12, instruction_width(&code, 9));
}

#[test]
fn disassembly_offsets() {
    let empty: Vec<u8> = Vec::new();
    assert_eq!(0, next_offset(&empty, 0));
    assert_eq!(0, next_offset(&empty, 7));
    assert!(instruction_offsets(&empty).is_empty());
    let code: Vec<u8> = vec![1, 5, 21, 0, 3, 2, 99, 19, 1, 22, 0, 0];
    assert_eq!(2, next_offset(&code, 0));
    assert_eq!(vec![0, 2, 5, 6, 7, 9], instruction_offsets(&code));
    let cut: Vec<u8> = vec![0, 22];
    assert_eq!(vec![0, 1], instruction_offsets(&cut));
}
