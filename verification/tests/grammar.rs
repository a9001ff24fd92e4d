use monkey::{
    parse_boolean, parse_identifier, parse_integer, Expr, Ident, Infix, Parameters, Parser,
    Precedence, PrefixParser, Stmt, Token, TokenKind, TokenType,
};

fn parse(input: &str) -> (Vec<Stmt>, Parser) {
    let mut parser = Parser::new(input.to_string());
    let program = parser.parseprogramm();
    (program, parser)
}

fn texts(input: &str) -> Vec<String> {
    parse(input).0.iter().map(|s| s.to_string()).collect()
}

fn ident(name: &str) -> Expr {
    Expr::IDENTIFIER(Ident(name.to_string()))
}

#[test]
fn let_statement_binds_a_name_to_a_literal() {
    let (program, parser) = parse("let x = 5;");
    assert_eq!(program, vec![Stmt::LET(Ident("x".to_string()), Expr::INTEGER(5))]);
    assert_eq!(program[0].to_string(), "LET x = 5;");
    assert!(!parser.has_errors());
    assert!(!parser.halted());
}

#[test]
fn return_statements_wrap_their_literals() {
    let (program, parser) = parse("return 5; return 10; return 995;");
    assert_eq!(
        program,
        vec![
            Stmt::RETURN(Expr::INTEGER(5)),
            Stmt::RETURN(Expr::INTEGER(10)),
            Stmt::RETURN(Expr::INTEGER(995)),
        ]
    );
    assert!(!parser.has_errors());
}

#[test]
fn function_literal_has_its_parameters_in_order() {
    let (program, _) = parse("fn(x, y) { x + y }");
    let sum = Expr::INFIX(Box::new(ident("x")), Infix::PLUS, Box::new(ident("y")));
    assert_eq!(
        program,
        vec![Stmt::EXPRESSION(Expr::FUNC(
            Parameters(vec![ident("x"), ident("y")]),
            monkey::BlockStatement(vec![Stmt::EXPRESSION(sum)]),
        ))]
    );
}

#[test]
fn call_has_its_callee_and_arguments() {
    let (program, _) = parse("add(1, 2 * 5, 4 + 5)");
    assert_eq!(program.len(), 1);
    match &program[0] {
        Stmt::EXPRESSION(Expr::CALL(callee, Parameters(arguments))) => {
            assert_eq!(callee.to_string(), "add");
            let arguments: Vec<String> = arguments.iter().map(|a| a.to_string()).collect();
            assert_eq!(arguments, vec!["1", "(2 * 5)", "(4 + 5)"]);
        }
        other => panic!("no call: {:?}", other),
    }
}

#[test]
fn tighter_operators_bind_first_and_equal_ones_to_the_left() {
    let cases = vec![
        ("a + b * c", "(a + (b * c))"),
        ("a * b + c", "((a * b) + c)"),
        ("a + b * c + d / e - f", "(((a + (b * c)) + (d / e)) - f)"),
        ("a < b == c > d", "((a < b) == (c > d))"),
        ("a == b != c", "((a == b) != c)"),
        ("5 > 4 == 3 < 4", "((5 > 4) == (3 < 4))"),
        ("3 + 4 * 5 == 3 * 1 + 4 * 5", "((3 + (4 * 5)) == ((3 * 1) + (4 * 5)))"),
        ("!true == false", "((!true) == false)"),
        ("a - -b", "(a - (-b))"),
        ("-(a + b)", "(-(a + b))"),
        ("(a + b) * c", "((a + b) * c)"),
        ("a + add(b * c) + d", "((a + add((b * c))) + d)"),
        ("-a(b)", "(-a(b))"),
        ("add(a)(b)", "add(a)(b)"),
        ("(a + b)(c)", "(a + b)(c)"),
        ("add(a, b, 1, 2 * 3, 4 + 5, add(6, 7 * 8))", "add(a,b,1,(2 * 3),(4 + 5),add(6,(7 * 8)))"),
        ("a / b / c", "((a / b) / c)"),
        ("a - b - c", "((a - b) - c)"),
        ("a < b < c", "((a < b) < c)"),
    ];
    for (input, expected) in cases {
        assert_eq!(texts(input), vec![expected.to_string()], "for {}", input);
    }
}

#[test]
fn reconstructed_text_is_a_fixed_point() {
    let inputs = vec![
        "x",
        "5",
        "true",
        "false",
        "!x",
        "-5",
        "!-a",
        "a + b",
        "a + b * c",
        "(a + b) * c",
        "a < b == c > d",
        "add(1, 2 * 5, 4 + 5)",
        "add()",
        "add(a)(b)",
        "-a(b)",
        "(a + b)(c, !d)",
        "fn(x, y) { x + y }",
        "fn() { 1 }",
        "fn(x) { fn(y) { x + y } }",
        "fn(x) { let y = x * 2; return y + 1; }",
        "fn(x) { x }(5)",
        "if (x < y) { x }",
        "if (x < y) { let z = x; z }",
    ];
    for input in inputs {
        let first = texts(input);
        assert_eq!(first.len(), 1, "for {}", input);
        let second = texts(&first[0]);
        assert_eq!(second, first, "for {}", input);
    }
}

#[test]
fn statements_run_together_when_reconstructed_in_a_block() {
    let first = texts("fn(x) { a; (b + c) }");
    assert_eq!(first, vec!["fn (x){ a(b + c) }"]);
    let second = texts(&first[0]);
    assert_eq!(second, vec!["fn (x){ a((b + c)) }"]);
}

#[test]
fn conditional_takes_its_block_for_both_branches() {
    let (program, parser) = parse("if (x < y) { x } else { y }");
    assert_eq!(program.len(), 2);
    match &program[0] {
        Stmt::EXPRESSION(Expr::IF(condition, consequence, alternative)) => {
            assert_eq!(condition.to_string(), "(x < y)");
            assert_eq!(consequence.to_string(), "x");
            assert_eq!(consequence, alternative);
        }
        other => panic!("no conditional: {:?}", other),
    }
    assert_eq!(program[0].to_string(), "if (x < y) { x }");
    assert_eq!(program[1], Stmt::EXPRESSION(ident("y")));
    assert!(!parser.has_errors());
}

#[test]
fn conditional_over_a_bare_name_does_not_reparse() {
    let first = texts("if (x) { y }");
    assert_eq!(first, vec!["if x { y }"]);
    let (program, parser) = parse(&first[0]);
    assert_eq!(
        program.iter().map(|s| s.to_string()).collect::<Vec<_>>(),
        vec!["x".to_string(), "y".to_string()]
    );
    assert_eq!(
        parser.get_errors(),
        vec!["Expected token LPAREN was not found - Found IDENT(x) instead".to_string()]
    );
}

#[test]
fn let_without_assign_fails_and_the_parse_goes_on() {
    let (program, parser) = parse("let x 5; let y = 2;");
    assert_eq!(
        program,
        vec![
            Stmt::EXPRESSION(Expr::INTEGER(5)),
            Stmt::LET(Ident("y".to_string()), Expr::INTEGER(2)),
        ]
    );
    assert!(parser.has_errors());
    assert!(!parser.halted());
    assert_eq!(
        parser.get_errors(),
        vec!["Expected token ASSIGN was not found - Found INT(5) instead".to_string()]
    );
}

#[test]
fn let_without_name_fails_and_the_parse_goes_on() {
    let (program, parser) = parse("let = 5; x");
    assert_eq!(program, vec![Stmt::EXPRESSION(Expr::INTEGER(5)), Stmt::EXPRESSION(ident("x"))]);
    assert_eq!(
        parser.get_errors(),
        vec!["Expected token IDENT was not found - Found ASSIGN(=) instead".to_string()]
    );
}

#[test]
fn failing_list_element_is_fatal() {
    let (program, mut parser) = parse("a; add(1, ); x; y");
    assert_eq!(program, vec![Stmt::EXPRESSION(ident("a"))]);
    assert!(parser.halted());
    assert_eq!(
        parser.get_errors(),
        vec!["Could not parse arg in function / RPAREN())".to_string()]
    );

    // A halted parser reads nothing and records nothing.
    assert!(parser.cur_token_is(&TokenType::RPAREN));
    parser.next_token();
    assert!(parser.cur_token_is(&TokenType::RPAREN));
    assert!(!parser.expect_next_token(&TokenType::SEMICOLON));
    assert_eq!(parser.parse_statement(), None);
    assert_eq!(parser.parse_expression(Precedence::LOWEST), None);
    assert_eq!(parser.parse_function_params(), Parameters(vec![]));
    assert_eq!(parser.parseprogramm(), vec![]);
    assert_eq!(parser.get_errors().len(), 1);
}

#[test]
fn failing_first_list_element_is_fatal() {
    let (program, parser) = parse("x; add(, 1); y");
    assert_eq!(program, vec![Stmt::EXPRESSION(ident("x"))]);
    assert!(parser.halted());
    assert_eq!(
        parser.get_errors(),
        vec!["Could not parse arg in function / COMMA(,)".to_string()]
    );
}

#[test]
fn failing_parameter_inside_a_block_is_fatal_too() {
    let (program, parser) = parse("let f = fn(x) { g(1, +) }; y");
    assert_eq!(program, vec![]);
    assert!(parser.halted());
    assert_eq!(parser.get_errors().len(), 1);
}

#[test]
fn unclosed_list_is_recorded_and_comes_back_empty() {
    let (program, parser) = parse("add(1, 2");
    assert_eq!(
        program,
        vec![Stmt::EXPRESSION(Expr::CALL(Box::new(ident("add")), Parameters(vec![])))]
    );
    assert!(!parser.halted());
    assert_eq!(
        parser.get_errors(),
        vec!["Expected token RPAREN was not found - Found EOF() instead".to_string()]
    );
}

#[test]
fn unclosed_group_is_recorded() {
    let (program, parser) = parse("(1 + 2; 7");
    assert_eq!(program, vec![Stmt::EXPRESSION(Expr::INTEGER(7))]);
    assert_eq!(
        parser.get_errors(),
        vec!["Expected token RPAREN was not found - Found SEMICOLON(;) instead".to_string()]
    );
}

#[test]
fn empty_block_is_no_block() {
    let (program, parser) = parse("fn() {}");
    assert_eq!(program, vec![]);
    assert!(!parser.has_errors());
    let (program, parser) = parse("if (x) {}; 3");
    assert_eq!(program, vec![Stmt::EXPRESSION(Expr::INTEGER(3))]);
    assert!(!parser.has_errors());
}

#[test]
fn block_ends_at_the_end_marker_too() {
    assert_eq!(texts("fn() { x"), vec!["fn (){ x }"]);
}

#[test]
fn failed_statements_in_a_block_are_left_out() {
    assert_eq!(texts("fn() { let 1; x; @ y }"), vec!["fn (){ 1xy }"]);
}

#[test]
fn missing_operand_fails_the_statement_silently() {
    let (program, parser) = parse("a + ; b");
    assert_eq!(program, vec![Stmt::EXPRESSION(ident("b"))]);
    assert!(!parser.has_errors());
    let (program, parser) = parse("@; 1");
    assert_eq!(program, vec![Stmt::EXPRESSION(Expr::INTEGER(1))]);
    assert!(!parser.has_errors());
    let (program, _) = parse("return; 2");
    assert_eq!(program, vec![Stmt::EXPRESSION(Expr::INTEGER(2))]);
    let (program, _) = parse("!; -; 3");
    assert_eq!(program, vec![Stmt::EXPRESSION(Expr::INTEGER(3))]);
}

#[test]
fn semicolons_are_optional() {
    assert_eq!(texts("5"), vec!["5"]);
    assert_eq!(texts("let x = 5"), vec!["LET x = 5;"]);
    assert_eq!(texts("return x"), vec!["RETURN x;"]);
    assert_eq!(texts("a; b;"), vec!["a", "b"]);
    assert_eq!(texts("a b"), vec!["a", "b"]);
    assert_eq!(texts("1 + 2; 3 * 4"), vec!["(1 + 2)", "(3 * 4)"]);
    assert_eq!(texts(""), Vec::<String>::new());
    assert_eq!(texts(";;"), Vec::<String>::new());
}

#[test]
fn keywords_parse_in_upper_case() {
    assert_eq!(texts("LET x = TRUE; RETURN FALSE;"), vec!["LET x = true;", "RETURN false;"]);
    assert_eq!(texts("FN(a) { IF (a < 1) { a } }"), vec!["fn (a){ if (a < 1) { a } }"]);
}

#[test]
fn bindings_of_functions_parse() {
    assert_eq!(
        texts("let add = fn(a, b) { return a + b; }; add(1, 2);"),
        vec!["LET add = fn (a,b){ RETURN (a + b); };", "add(1,2)"]
    );
}

#[test]
fn new_parser_has_the_first_two_tokens() {
    let mut parser = Parser::new("a + b".to_string());
    assert!(parser.cur_token_is(&TokenType::IDENT("zzz".to_string())));
    assert!(!parser.cur_token_is(&TokenType::INT(0)));
    assert!(parser.peek_token_is(&TokenType::PLUS));
    assert_eq!(parser.cur_precedence(), Precedence::LOWEST);
    assert_eq!(parser.peek_precedence(), Precedence::SUM);
    assert!(!parser.has_errors());
    assert!(!parser.halted());
    parser.next_token();
    assert!(parser.cur_token_is(&TokenType::PLUS));
    assert!(parser.peek_token_is(&TokenType::IDENT(String::new())));
    parser.next_token();
    parser.next_token();
    assert!(parser.cur_token_is(&TokenType::EOF));
    assert!(parser.peek_token_is(&TokenType::EOF));
}

#[test]
fn each_operator_has_its_precedence() {
    let cases = vec![
        ("==", Precedence::EQUALS),
        ("!=", Precedence::EQUALS),
        ("<", Precedence::LESSGREATER),
        (">", Precedence::LESSGREATER),
        ("+", Precedence::SUM),
        ("-", Precedence::SUM),
        ("*", Precedence::PRODUCT),
        ("/", Precedence::PRODUCT),
        ("(", Precedence::CALL),
        (")", Precedence::LOWEST),
        ("!", Precedence::LOWEST),
        ("x", Precedence::LOWEST),
        ("1", Precedence::LOWEST),
        (";", Precedence::LOWEST),
        ("", Precedence::LOWEST),
    ];
    for (text, expected) in cases {
        let mut parser = Parser::new(format!("{} {}", text, text));
        assert_eq!(parser.cur_precedence(), expected, "for {}", text);
        assert_eq!(parser.peek_precedence(), expected, "for {}", text);
    }
}

#[test]
fn expectation_moves_on_or_records() {
    let mut parser = Parser::new("a b".to_string());
    assert!(parser.expect_next_token(&TokenType::IDENT("other".to_string())));
    assert!(parser.cur_token_is(&TokenType::IDENT(String::new())));
    assert!(parser.peek_token_is(&TokenType::EOF));
    assert!(!parser.has_errors());
    assert!(!parser.expect_next_token(&TokenType::SEMICOLON));
    assert!(parser.peek_token_is(&TokenType::EOF));
    assert!(!parser.expect_next_token(&TokenType::IDENT("x".to_string())));
    assert_eq!(
        parser.get_errors(),
        vec![
            "Expected token SEMICOLON was not found - Found EOF() instead".to_string(),
            "Expected token IDENT was not found - Found EOF() instead".to_string(),
        ]
    );
}

#[test]
fn diagnostics_are_kept_in_order() {
    let mut parser = Parser::new("x".to_string());
    assert!(!parser.has_errors());
    assert_eq!(parser.get_errors(), Vec::<String>::new());
    parser.add_error("first".to_string());
    parser.add_error("second".to_string());
    assert!(parser.has_errors());
    assert_eq!(parser.get_errors(), vec!["first".to_string(), "second".to_string()]);
    let (_, parser) = parse("let 1; let 2; (3");
    assert_eq!(
        parser.get_errors(),
        vec![
            "Expected token IDENT was not found - Found INT(1) instead".to_string(),
            "Expected token IDENT was not found - Found INT(2) instead".to_string(),
            "Expected token RPAREN was not found - Found EOF() instead".to_string(),
        ]
    );
}

#[test]
fn prefix_functions_can_be_registered() {
    let mut parser = Parser::new("else; 5".to_string());
    assert_eq!(parser.parseprogramm(), vec![Stmt::EXPRESSION(Expr::INTEGER(5))]);

    let mut parser = Parser::new("else; 5".to_string());
    parser.add_prefix_parser(TokenKind::Else, PrefixParser::Identifier);
    parser.add_prefix_parser(TokenKind::Int, PrefixParser::Boolean);
    parser.add_prefix_parser(TokenKind::Int, PrefixParser::Identifier);
    assert_eq!(
        parser.parseprogramm(),
        vec![Stmt::EXPRESSION(ident("else")), Stmt::EXPRESSION(ident("5"))]
    );

    let mut parser = Parser::new("x true 7".to_string());
    parser.add_prefix_parser(TokenKind::Ident, PrefixParser::Integer);
    parser.add_prefix_parser(TokenKind::True, PrefixParser::Integer);
    assert_eq!(parser.parseprogramm(), vec![Stmt::EXPRESSION(Expr::INTEGER(7))]);
}

#[test]
fn prefix_functions_turn_tokens_into_operands() {
    let name = Token::new(TokenType::IDENT("x".to_string()), "x".to_string());
    let number = Token::new(TokenType::INT(42), "42".to_string());
    let yes = Token::new(TokenType::TRUE, "true".to_string());
    let no = Token::new(TokenType::FALSE, "FALSE".to_string());
    assert_eq!(parse_identifier(name.clone()), Some(ident("x")));
    assert_eq!(parse_identifier(number.clone()), Some(ident("42")));
    assert_eq!(parse_integer(number.clone()), Some(Expr::INTEGER(42)));
    assert_eq!(parse_integer(name.clone()), None);
    assert_eq!(parse_boolean(yes.clone()), Some(Expr::BOOLEAN(true)));
    assert_eq!(parse_boolean(no.clone()), Some(Expr::BOOLEAN(false)));
    assert_eq!(parse_boolean(name.clone()), None);
    assert_eq!(PrefixParser::Identifier.apply(yes.clone()), Some(ident("true")));
    assert_eq!(PrefixParser::Integer.apply(number), Some(Expr::INTEGER(42)));
    assert_eq!(PrefixParser::Boolean.apply(no), Some(Expr::BOOLEAN(false)));
}

#[test]
fn infixable_tokens_are_the_operators_and_the_opening_parenthesis() {
    let parser = Parser::new("".to_string());
    for token in [
        TokenType::EQUAL,
        TokenType::NOTEQUAL,
        TokenType::GT,
        TokenType::LT,
        TokenType::PLUS,
        TokenType::MINUS,
        TokenType::SLASH,
        TokenType::ASTERISK,
        TokenType::LPAREN,
    ] {
        assert!(parser.is_infixable(&token));
    }
    for token in [
        TokenType::BANG,
        TokenType::ASSIGN,
        TokenType::RPAREN,
        TokenType::SEMICOLON,
        TokenType::EOF,
        TokenType::IDENT("x".to_string()),
        TokenType::INT(1),
        TokenType::COMMA,
    ] {
        assert!(!parser.is_infixable(&token));
    }
}

#[test]
fn productions_can_be_called_one_by_one() {
    let mut parser = Parser::new("! 5 + 1".to_string());
    assert_eq!(parser.parse_prefix_expression(TokenType::PLUS), None);
    let mut parser = Parser::new("! 5 + 1".to_string());
    assert_eq!(
        parser.parse_prefix_expression(TokenType::BANG),
        Some(Expr::BANG(Box::new(Expr::INTEGER(5))))
    );
    assert!(parser.peek_token_is(&TokenType::PLUS));

    let mut parser = Parser::new("(1 + 2) * 3".to_string());
    let group = parser.parse_grouped_expression().unwrap();
    assert_eq!(group.to_string(), "(1 + 2)");
    assert!(parser.cur_token_is(&TokenType::RPAREN));

    let mut parser = Parser::new("+ 2 * 3 - 4".to_string());
    let operator = Token::new(TokenType::PLUS, "+".to_string());
    let sum = parser.parse_infix_expression(operator, Expr::INTEGER(1)).unwrap();
    assert_eq!(sum.to_string(), "(1 + (2 * 3))");
    assert!(parser.peek_token_is(&TokenType::MINUS));

    let mut parser = Parser::new("(1, x)".to_string());
    let call = parser.parse_call_expression(ident("f")).unwrap();
    assert_eq!(call.to_string(), "f(1,x)");

    let mut parser = Parser::new("(a, b) c".to_string());
    assert_eq!(parser.parse_function_params(), Parameters(vec![ident("a"), ident("b")]));
    assert!(parser.cur_token_is(&TokenType::RPAREN));

    let mut parser = Parser::new("{ a; b }".to_string());
    assert_eq!(parser.parse_block_statement().unwrap().to_string(), "ab");
    assert!(parser.cur_token_is(&TokenType::RBRACE));

    let mut parser = Parser::new("if (a) { b }".to_string());
    assert_eq!(parser.parse_if_expression().unwrap().to_string(), "if a { b }");

    let mut parser = Parser::new("fn (a) { b }".to_string());
    assert_eq!(parser.parse_function_literal().unwrap().to_string(), "fn (a){ b }");

    let mut parser = Parser::new("let a = 1; return 2; 3;".to_string());
    assert_eq!(parser.parse_let_statement().unwrap().to_string(), "LET a = 1;");
    parser.next_token();
    assert_eq!(parser.parse_return_statement().unwrap().to_string(), "RETURN 2;");
    parser.next_token();
    assert_eq!(parser.parse_expression_statement().unwrap().to_string(), "3");
    assert!(parser.cur_token_is(&TokenType::SEMICOLON));
}

#[test]
fn expression_stops_where_the_next_token_binds_no_tighter() {
    let mut parser = Parser::new("1 + 2 * 3 + 4".to_string());
    let product = parser.parse_expression(Precedence::SUM).unwrap();
    assert_eq!(product.to_string(), "1");
    let mut parser = Parser::new("2 * 3 + 4".to_string());
    let product = parser.parse_expression(Precedence::SUM).unwrap();
    assert_eq!(product.to_string(), "(2 * 3)");
    assert!(parser.peek_token_is(&TokenType::PLUS));
    let mut parser = Parser::new("2 * 3 + 4".to_string());
    let product = parser.parse_expression(Precedence::PRODUCT).unwrap();
    assert_eq!(product.to_string(), "2");
}

fn no_illegal_operator(e: &Expr) -> bool {
    match e {
        Expr::IDENTIFIER(_) | Expr::INTEGER(_) | Expr::BOOLEAN(_) => true,
        Expr::BANG(x) | Expr::MINUS(x) => no_illegal_operator(x),
        Expr::INFIX(l, op, r) => {
            *op != Infix::ILLEGAL && no_illegal_operator(l) && no_illegal_operator(r)
        }
        Expr::IF(c, a, b) => {
            no_illegal_operator(c)
                && a == b
                && !a.0.is_empty()
                && a.0.iter().all(statement_is_proper)
        }
        Expr::FUNC(Parameters(ps), body) => {
            ps.iter().all(no_illegal_operator)
                && !body.0.is_empty()
                && body.0.iter().all(statement_is_proper)
        }
        Expr::CALL(f, Parameters(args)) => {
            no_illegal_operator(f) && args.iter().all(no_illegal_operator)
        }
    }
}

fn statement_is_proper(s: &Stmt) -> bool {
    match s {
        Stmt::LET(_, e) | Stmt::RETURN(e) | Stmt::EXPRESSION(e) => no_illegal_operator(e),
    }
}

#[test]
fn parsed_trees_have_proper_shape() {
    let inputs = vec![
        "let f = fn(a, b) { if (a < b) { return a * -b; } a + b } ; f(1, 2)(3) == !true",
        "if (a) { fn() { x } } else { 3 }",
        "a + b * (c - d) / e != f > g",
        "fn(x) { } (y) { z } if () { } (a + ) b",
    ];
    for input in inputs {
        let (program, _) = parse(input);
        assert!(program.iter().all(statement_is_proper), "for {}", input);
    }
}
