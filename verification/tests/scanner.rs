use monkey::{
    is_valid_letter, is_valid_number, token_from_identifier, Lexer, Token, TokenBuilder,
    TokenKind, TokenType,
};

fn scan_all(input: &str) -> Vec<Token> {
    let mut lexer = Lexer::new(input.to_string());
    let mut tokens = Vec::new();
    loop {
        let token = lexer.nextToken();
        let done = token.tokentype == TokenType::EOF;
        tokens.push(token);
        if done {
            break;
        }
    }
    tokens
}

fn kinds(input: &str) -> Vec<TokenType> {
    scan_all(input).into_iter().map(|t| t.tokentype).collect()
}

#[test]
fn symbols_scan_in_source_order() {
    assert_eq!(
        kinds("=+(){},;==!="),
        vec![
            TokenType::ASSIGN,
            TokenType::PLUS,
            TokenType::LPAREN,
            TokenType::RPAREN,
            TokenType::LBRACE,
            TokenType::RBRACE,
            TokenType::COMMA,
            TokenType::SEMICOLON,
            TokenType::EQUAL,
            TokenType::NOTEQUAL,
            TokenType::EOF,
        ]
    );
}

#[test]
fn assign_before_assign_merges_into_equal() {
    assert_eq!(kinds("= ="), vec![TokenType::ASSIGN, TokenType::ASSIGN, TokenType::EOF]);
    assert_eq!(kinds("=="), vec![TokenType::EQUAL, TokenType::EOF]);
    assert_eq!(kinds("==="), vec![TokenType::EQUAL, TokenType::ASSIGN, TokenType::EOF]);
    assert_eq!(kinds("!=="), vec![TokenType::NOTEQUAL, TokenType::ASSIGN, TokenType::EOF]);
    assert_eq!(kinds("!!"), vec![TokenType::BANG, TokenType::BANG, TokenType::EOF]);
}

#[test]
fn keywords_scan_in_both_cases() {
    let cases = vec![
        ("fn", TokenType::FUNCTION),
        ("FN", TokenType::FUNCTION),
        ("let", TokenType::LET),
        ("LET", TokenType::LET),
        ("if", TokenType::IF),
        ("IF", TokenType::IF),
        ("else", TokenType::ELSE),
        ("ELSE", TokenType::ELSE),
        ("return", TokenType::RETURN),
        ("RETURN", TokenType::RETURN),
        ("true", TokenType::TRUE),
        ("TRUE", TokenType::TRUE),
        ("false", TokenType::FALSE),
        ("FALSE", TokenType::FALSE),
    ];
    for (text, expected) in cases {
        assert_eq!(kinds(text), vec![expected.clone(), TokenType::EOF]);
        assert_eq!(token_from_identifier(text.to_string()), expected);
    }
}

#[test]
fn other_words_scan_to_identifiers_with_their_text() {
    for text in ["Let", "lets", "fN", "x", "foo_bar", "_", "If", "True", "RETURNs", "e"] {
        let tokens = scan_all(text);
        assert_eq!(tokens.len(), 2);
        assert_eq!(tokens[0].tokentype, TokenType::IDENT(text.to_string()));
        assert_eq!(tokens[0].literal, text);
        assert_eq!(token_from_identifier(text.to_string()), TokenType::IDENT(text.to_string()));
    }
}

#[test]
fn digit_runs_scan_to_their_decimal_value() {
    let cases: Vec<(&str, usize)> =
        vec![("0", 0), ("5", 5), ("10", 10), ("995", 995), ("007", 7), ("4294967295", 4294967295)];
    for (text, value) in cases {
        let tokens = scan_all(text);
        assert_eq!(tokens.len(), 2);
        assert_eq!(tokens[0].tokentype, TokenType::INT(value));
        assert_eq!(tokens[0].literal, text);
    }
}

#[test]
fn digits_then_letters_are_two_tokens() {
    assert_eq!(
        kinds("12ab 3"),
        vec![
            TokenType::INT(12),
            TokenType::IDENT("ab".to_string()),
            TokenType::INT(3),
            TokenType::EOF
        ]
    );
    assert_eq!(
        kinds("ab12"),
        vec![TokenType::IDENT("ab".to_string()), TokenType::INT(12), TokenType::EOF]
    );
}

#[test]
fn literals_are_the_source_slices() {
    let tokens = scan_all("  let  x == 10 != !y;");
    let literals: Vec<&str> = tokens.iter().map(|t| t.literal.as_str()).collect();
    assert_eq!(literals, vec!["let", "x", "==", "10", "!=", "!", "y", ";", ""]);
}

#[test]
fn only_the_space_character_is_skipped() {
    assert_eq!(kinds("   "), vec![TokenType::EOF]);
    assert_eq!(kinds(""), vec![TokenType::EOF]);
    let tokens = scan_all("\ta\nb\r");
    let observed: Vec<(TokenType, &str)> =
        tokens.iter().map(|t| (t.tokentype.clone(), t.literal.as_str())).collect();
    assert_eq!(
        observed,
        vec![
            (TokenType::ILLEGAL, "\t"),
            (TokenType::IDENT("a".to_string()), "a"),
            (TokenType::ILLEGAL, "\n"),
            (TokenType::IDENT("b".to_string()), "b"),
            (TokenType::ILLEGAL, "\r"),
            (TokenType::EOF, ""),
        ]
    );
}

#[test]
fn unknown_bytes_scan_to_illegal_tokens_of_one_byte() {
    let tokens = scan_all("a@#b");
    assert_eq!(tokens[1].tokentype, TokenType::ILLEGAL);
    assert_eq!(tokens[1].literal, "@");
    assert_eq!(tokens[2].tokentype, TokenType::ILLEGAL);
    assert_eq!(tokens[2].literal, "#");
    assert_eq!(tokens[3].tokentype, TokenType::IDENT("b".to_string()));

    // A character outside ASCII is two bytes, and so two illegal tokens.
    let tokens = scan_all("é");
    assert_eq!(tokens.len(), 3);
    assert_eq!(tokens[0].tokentype, TokenType::ILLEGAL);
    assert_eq!(tokens[0].literal.chars().count(), 1);
    assert_eq!(tokens[0].literal.chars().next(), Some('\u{c3}'));
    assert_eq!(tokens[1].tokentype, TokenType::ILLEGAL);
    assert_eq!(tokens[1].literal.chars().next(), Some('\u{a9}'));
}

#[test]
fn end_marker_repeats_at_the_end() {
    let mut lexer = Lexer::new("x".to_string());
    assert_eq!(lexer.nextToken().tokentype, TokenType::IDENT("x".to_string()));
    for _ in 0..5 {
        let token = lexer.nextToken();
        assert_eq!(token.tokentype, TokenType::EOF);
        assert_eq!(token.literal, "");
    }
}

#[test]
fn zero_byte_is_an_end_marker_and_the_scan_goes_on_behind_it() {
    let mut lexer = Lexer::new("a\0b".to_string());
    assert_eq!(lexer.nextToken().tokentype, TokenType::IDENT("a".to_string()));
    let marker = lexer.nextToken();
    assert_eq!(marker.tokentype, TokenType::EOF);
    assert_eq!(marker.literal, "\0");
    assert_eq!(lexer.nextToken().tokentype, TokenType::IDENT("b".to_string()));
    assert_eq!(lexer.nextToken().tokentype, TokenType::EOF);
}

#[test]
fn scanning_twice_gives_the_same_tokens() {
    let input = "let add = fn(x, y) { x + y }; add(1, 2) != 3";
    assert_eq!(scan_all(input), scan_all(input));
}

#[test]
fn accepts_tells_whether_every_number_fits() {
    assert!(Lexer::accepts(&"".to_string()));
    assert!(Lexer::accepts(&"let x = 5; y 10 995".to_string()));
    assert!(Lexer::accepts(&format!("{}", usize::MAX)));
    assert!(Lexer::accepts(&format!("a {} b", usize::MAX)));
    assert!(!Lexer::accepts(&format!("{}0", usize::MAX)));
    assert!(!Lexer::accepts(&"x = 99999999999999999999999999;".to_string()));
    assert!(!Lexer::accepts(&"1 2 340282366920938463463374607431768211456".to_string()));
    assert!(Lexer::accepts(&format!("000000000000000000000000000000{}", usize::MAX)));
    let largest = format!("{}", usize::MAX);
    let mut digits: Vec<u8> = largest.into_bytes();
    let last = digits.len() - 1;
    if digits[last] < b'9' {
        digits[last] += 1;
        assert!(!Lexer::accepts(&String::from_utf8(digits).unwrap()));
    }
}

#[test]
fn largest_number_scans_to_its_value() {
    let tokens = scan_all(&format!("{}", usize::MAX));
    assert_eq!(tokens[0].tokentype, TokenType::INT(usize::MAX));
}

#[test]
fn read_char_and_peek_char_walk_the_source() {
    let mut lexer = Lexer::new("ab".to_string());
    assert_eq!(lexer.peek_char(), b'b');
    lexer.read_char();
    assert_eq!(lexer.peek_char(), 0);
    assert_eq!(lexer.read_identifier(), "b");
    lexer.read_char();
    lexer.read_char();
    assert_eq!(lexer.peek_char(), 0);
    assert_eq!(lexer.nextToken().tokentype, TokenType::EOF);
}

#[test]
fn runs_are_read_from_the_cursor() {
    let mut lexer = Lexer::new("   abc123 x".to_string());
    lexer.skip_whitespace();
    assert_eq!(lexer.read_identifier(), "abc");
    assert_eq!(lexer.read_identifier(), "");
    assert_eq!(lexer.read_number(), "123");
    assert_eq!(lexer.read_number(), "");
    lexer.skip_whitespace();
    assert_eq!(lexer.nextToken().tokentype, TokenType::IDENT("x".to_string()));
}

#[test]
fn letters_and_digits_are_told_apart() {
    for b in 0..=255u8 {
        let letter = b.is_ascii_alphabetic() || b == b'_';
        assert_eq!(is_valid_letter(b), letter);
        assert_eq!(is_valid_number(b), b.is_ascii_digit());
    }
}

#[test]
fn token_builder_knows_let_and_fn() {
    let cases = vec![
        ("LET", TokenType::LET),
        ("let", TokenType::LET),
        ("FN", TokenType::FUNCTION),
        ("fn", TokenType::FUNCTION),
    ];
    for (word, expected) in cases {
        let token = TokenBuilder::default().get_token_from_identifier(&word.to_string());
        assert_eq!(token, Token::new(expected, word.to_string()));
    }
    for word in ["Let", "if", "x", ""] {
        let token = TokenBuilder::default().get_token_from_identifier(&word.to_string());
        assert_eq!(token, Token::new(TokenType::ILLEGAL, "".to_string()));
    }
}

#[test]
fn token_kinds_have_names_and_slots() {
    assert_eq!(TokenType::IDENT("x".to_string()).kind(), TokenKind::Ident);
    assert_eq!(TokenType::IDENT("x".to_string()).kind(), TokenType::IDENT("y".to_string()).kind());
    assert_eq!(TokenType::INT(1).kind(), TokenType::INT(2).kind());
    assert_eq!(TokenType::NOTEQUAL.kind().name(), "NOTEQUAL");
    assert_eq!(TokenKind::Illegal.index(), 0);
    assert_eq!(TokenKind::NotEqual.index(), 26);
    assert_eq!(TokenType::of_kind(TokenKind::Ident), TokenType::IDENT(String::new()));
    assert_eq!(TokenType::of_kind(TokenKind::Int), TokenType::INT(0));
    assert_eq!(TokenType::of_kind(TokenKind::LBrace), TokenType::LBRACE);
    let token = Token::new(TokenType::INT(42), "42".to_string());
    assert_eq!(token.describe(), "INT(42)");
    assert_eq!(token.clone(), token);
    assert_eq!(Token::new(TokenType::EOF, String::new()).describe(), "EOF()");
}
