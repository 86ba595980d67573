use lexer::chars::{is_continuing_alpha, is_digit};
use lexer::{tokenise, KeyWord, Lexer, Token, TokenKind};

fn kinds(input: &str) -> Vec<TokenKind> {
    tokenise(input).iter().map(|t| t.token_kind).collect()
}

fn texts(input: &str) -> Vec<String> {
    tokenise(input).iter().map(|t| t.chars.to_string()).collect()
}

fn float_value(token: &Token) -> f64 {
    token.chars.replace('_', "").parse::<f64>().unwrap()
}

#[test]
fn empty_input_has_no_tokens() {
    assert!(tokenise("").is_empty());
}

#[test]
fn only_trivia_has_no_tokens() {
    assert!(tokenise("  \t\n // just a comment").is_empty());
}

#[test]
fn comment_at_end_without_newline_terminates() {
    assert_eq!(kinds("1 // trailing"), vec![TokenKind::Integer(1)]);
}

#[test]
fn next_token_reports_end_of_input_and_stays() {
    let mut lexer = Lexer::new("x");
    assert_eq!(lexer.next_token().token_kind, TokenKind::Ident);
    let end = lexer.next_token();
    assert_eq!(end.token_kind, TokenKind::EOF);
    assert_eq!(end.chars, "");
    assert_eq!(lexer.next_token().token_kind, TokenKind::EOF);
}

#[test]
fn spans_and_trivia_rebuild_the_input() {
    let input = "let x = 1_0 + y2;  // sum\n  fn f() { return 1.5e3..=z; } ~";
    let tokens = tokenise(input);
    let mut rebuilt = String::new();
    let mut rest = input;
    for token in &tokens {
        let at = rest.find(token.chars).unwrap();
        let gap = &rest[..at];
        assert!(gap.trim().is_empty() || gap.trim_start().starts_with("//"));
        rebuilt.push_str(gap);
        rebuilt.push_str(token.chars);
        rest = &rest[at + token.chars.len()..];
    }
    rebuilt.push_str(rest);
    assert_eq!(rebuilt, input);
    assert!(tokens.iter().all(|t| !t.chars.is_empty()));
}

#[test]
fn dot_alone_is_dereference() {
    assert_eq!(kinds("."), vec![TokenKind::Dereference]);
}

#[test]
fn two_dots_are_exclusive_range() {
    assert_eq!(kinds(".."), vec![TokenKind::RangeUntil]);
}

#[test]
fn two_dots_and_equals_are_inclusive_range() {
    assert_eq!(kinds("..="), vec![TokenKind::RangeEqual]);
    assert_eq!(texts("..="), vec!["..="]);
}

#[test]
fn three_dots_and_equals_match_greedily() {
    assert_eq!(
        kinds("...="),
        vec![TokenKind::RangeUntil, TokenKind::Dereference, TokenKind::Assign]
    );
    assert_eq!(texts("...="), vec!["..", ".", "="]);
}

#[test]
fn integer_literal() {
    assert_eq!(kinds("123"), vec![TokenKind::Integer(123)]);
}

#[test]
fn float_literal() {
    let tokens = tokenise("12.5");
    assert_eq!(tokens.len(), 1);
    assert_eq!(tokens[0].token_kind, TokenKind::Float);
    assert_eq!(float_value(&tokens[0]), 12.5);
}

#[test]
fn trailing_dot_is_not_part_of_number() {
    assert_eq!(kinds("1."), vec![TokenKind::Integer(1), TokenKind::Dereference]);
}

#[test]
fn dangling_exponent_is_invalid() {
    assert_eq!(kinds("1.2e"), vec![TokenKind::Invalid]);
    assert_eq!(texts("1.2e"), vec!["1.2e"]);
}

#[test]
fn exponent_with_digits_is_float() {
    let tokens = tokenise("1.2e10");
    assert_eq!(tokens.len(), 1);
    assert_eq!(tokens[0].token_kind, TokenKind::Float);
    assert_eq!(float_value(&tokens[0]), 1.2e10);
}

#[test]
fn signed_exponent_is_float() {
    let tokens = tokenise("1.2e+3");
    assert_eq!(tokens.len(), 1);
    assert_eq!(tokens[0].token_kind, TokenKind::Float);
    assert_eq!(float_value(&tokens[0]), 1.2e3);
    let negative = tokenise("2.5E-1");
    assert_eq!(negative[0].token_kind, TokenKind::Float);
    assert_eq!(float_value(&negative[0]), 0.25);
}

#[test]
fn sign_without_exponent_digits_is_invalid() {
    assert_eq!(kinds("1.2e+"), vec![TokenKind::Invalid]);
    assert_eq!(kinds("1.2e_5"), vec![TokenKind::Invalid]);
    assert_eq!(texts("1.2e_5"), vec!["1.2e_5"]);
}

#[test]
fn underscore_after_decimal_point_is_invalid() {
    assert_eq!(kinds("1._5"), vec![TokenKind::Invalid, TokenKind::Integer(5)]);
    assert_eq!(texts("1._5"), vec!["1._", "5"]);
}

#[test]
fn dot_then_letters_is_not_a_float() {
    assert_eq!(
        kinds("1.foo"),
        vec![TokenKind::Integer(1), TokenKind::Dereference, TokenKind::Ident]
    );
}

#[test]
fn underscores_group_digits() {
    assert_eq!(kinds("1_000"), vec![TokenKind::Integer(1000)]);
    assert_eq!(kinds("1__2_"), vec![TokenKind::Integer(12)]);
    assert_eq!(texts("1__2_"), vec!["1__2_"]);
}

#[test]
fn largest_integer_fits() {
    assert_eq!(
        kinds("18446744073709551615"),
        vec![TokenKind::Integer(u64::MAX)]
    );
}

#[test]
fn integer_past_64_bits_is_invalid() {
    assert_eq!(kinds("18446744073709551616"), vec![TokenKind::Invalid]);
    assert_eq!(texts("18446744073709551616"), vec!["18446744073709551616"]);
}

#[test]
fn fn_is_a_keyword() {
    assert_eq!(kinds("fn"), vec![TokenKind::Keyword(KeyWord::Function)]);
}

#[test]
fn longer_word_is_an_identifier() {
    assert_eq!(kinds("fnx"), vec![TokenKind::Ident]);
}

#[test]
fn leading_underscore_is_an_identifier() {
    assert_eq!(kinds("_let"), vec![TokenKind::Ident]);
}

#[test]
fn every_keyword() {
    assert_eq!(
        kinds("let if enum return fn struct Let"),
        vec![
            TokenKind::Keyword(KeyWord::Let),
            TokenKind::Keyword(KeyWord::If),
            TokenKind::Keyword(KeyWord::Enum),
            TokenKind::Keyword(KeyWord::Return),
            TokenKind::Keyword(KeyWord::Function),
            TokenKind::Keyword(KeyWord::Struct),
            TokenKind::Ident,
        ]
    );
}

#[test]
fn comment_and_newline_are_skipped() {
    assert_eq!(
        kinds("1 // comment\n2"),
        vec![TokenKind::Integer(1), TokenKind::Integer(2)]
    );
}

#[test]
fn invalid_character_is_skipped_over() {
    assert_eq!(
        kinds("1 @ 2"),
        vec![TokenKind::Integer(1), TokenKind::Invalid, TokenKind::Integer(2)]
    );
    assert_eq!(texts("1 @ 2"), vec!["1", "@", "2"]);
}

#[test]
fn two_lexings_agree() {
    let input = "struct S { a = 1.5; b = ..= 7 } // end\n@";
    let first = tokenise(input);
    let second = tokenise(input);
    assert_eq!(first.len(), second.len());
    for (a, b) in first.iter().zip(second.iter()) {
        assert_eq!(a.token_kind, b.token_kind);
        assert_eq!(a.chars, b.chars);
    }
}

#[test]
fn single_character_tokens() {
    assert_eq!(
        kinds("+-/*=;(){}"),
        vec![
            TokenKind::Plus,
            TokenKind::Minus,
            TokenKind::Divide,
            TokenKind::Multiply,
            TokenKind::Assign,
            TokenKind::Semi,
            TokenKind::LParen,
            TokenKind::RParen,
            TokenKind::LCurly,
            TokenKind::RCurly,
        ]
    );
}

#[test]
fn single_slash_is_divide() {
    assert_eq!(
        kinds("a / b"),
        vec![TokenKind::Ident, TokenKind::Divide, TokenKind::Ident]
    );
}

#[test]
fn non_ascii_identifier_keeps_its_text() {
    assert_eq!(texts("caf\u{e9} x"), vec!["caf\u{e9}", "x"]);
    assert_eq!(kinds("\u{e9}"), vec![TokenKind::Invalid]);
}

#[test]
fn unicode_whitespace_is_skipped() {
    assert_eq!(
        kinds("1\u{a0}\u{2003}2"),
        vec![TokenKind::Integer(1), TokenKind::Integer(2)]
    );
}

#[test]
fn nul_character_ends_the_stream() {
    assert_eq!(kinds("1\u{0}2"), vec![TokenKind::Integer(1)]);
}

#[test]
fn lexer_position_moves_past_trivia() {
    let mut lexer = Lexer::new("  // c\n  x");
    assert_eq!(lexer.get_pos(), 0);
    lexer.eat_whitespace_and_comments();
    assert_eq!(lexer.get_pos(), 9);
    lexer.advance();
    assert_eq!(lexer.get_pos(), 10);
}

#[test]
fn eat_while_stops_at_first_rejected_character() {
    let mut lexer = Lexer::new("12a");
    lexer.eat_while(is_digit);
    assert_eq!(lexer.get_pos(), 1);
}

#[test]
fn character_classes() {
    assert!(is_digit('7'));
    assert!(is_digit('_'));
    assert!(!is_digit('a'));
    assert!(is_continuing_alpha('\u{e9}'));
    assert!(is_continuing_alpha('_'));
    assert!(!is_continuing_alpha('-'));
}

#[test]
fn advance_moves_past_the_end_of_input() {
    let mut lexer = Lexer::new("a");
    lexer.advance();
    assert_eq!(lexer.get_pos(), 1);
    lexer.advance();
    lexer.advance();
    assert_eq!(lexer.get_pos(), 3);
    assert_eq!(lexer.next_token().token_kind, TokenKind::EOF);
    assert_eq!(lexer.get_pos(), 3);
}

#[test]
fn whitespace_classes() {
    assert_eq!(
        kinds("1\u{b}\u{c}\r\u{85}\u{1680}\u{200a}\u{2028}\u{2029}\u{202f}\u{205f}\u{3000}2"),
        vec![TokenKind::Integer(1), TokenKind::Integer(2)]
    );
    assert_eq!(kinds("\u{200b}"), vec![TokenKind::Invalid]);
}
