use monkey::{BlockStatement, Expr, Ident, Infix, Parameters, Precedence, Stmt, TokenType};

fn ident(name: &str) -> Expr {
    Expr::IDENTIFIER(Ident(name.to_string()))
}

#[test]
fn atoms_reconstruct_to_their_text() {
    assert_eq!(ident("foobar").to_string(), "foobar");
    assert_eq!(Expr::BOOLEAN(true).to_string(), "true");
    assert_eq!(Expr::BOOLEAN(false).to_string(), "false");
    assert_eq!(Ident("x".to_string()).to_string(), "x");
}

#[test]
fn integers_reconstruct_to_decimal_numerals() {
    let cases: Vec<(usize, &str)> = vec![
        (0, "0"),
        (5, "5"),
        (9, "9"),
        (10, "10"),
        (995, "995"),
        (1000, "1000"),
        (4294967295, "4294967295"),
    ];
    for (value, text) in cases {
        assert_eq!(Expr::INTEGER(value).to_string(), text);
    }
    assert_eq!(Expr::INTEGER(usize::MAX).to_string(), format!("{}", usize::MAX));
}

#[test]
fn operators_reconstruct_in_parentheses() {
    assert_eq!(Expr::BANG(Box::new(ident("a"))).to_string(), "(!a)");
    assert_eq!(Expr::MINUS(Box::new(Expr::INTEGER(18))).to_string(), "(-18)");
    let sum = Expr::INFIX(Box::new(ident("a")), Infix::PLUS, Box::new(ident("b")));
    assert_eq!(sum.to_string(), "(a + b)");
    let nested = Expr::INFIX(Box::new(sum), Infix::NOTEQUAL, Box::new(Expr::INTEGER(3)));
    assert_eq!(nested.to_string(), "((a + b) != 3)");
}

#[test]
fn each_operator_has_its_symbol() {
    let cases = vec![
        (Infix::PLUS, "+"),
        (Infix::MINUS, "-"),
        (Infix::MULTIPLY, "*"),
        (Infix::DIVIDE, "/"),
        (Infix::GT, ">"),
        (Infix::LT, "<"),
        (Infix::EQUAL, "=="),
        (Infix::NOTEQUAL, "!="),
        (Infix::ILLEGAL, "$$ILLEGALCARACT$$"),
    ];
    for (operator, symbol) in cases {
        assert_eq!(operator.to_string(), symbol);
        assert_eq!(operator.symbol(), symbol);
    }
}

#[test]
fn tokens_convert_to_operators() {
    let cases = vec![
        (TokenType::ASTERISK, Infix::MULTIPLY),
        (TokenType::MINUS, Infix::MINUS),
        (TokenType::PLUS, Infix::PLUS),
        (TokenType::SLASH, Infix::DIVIDE),
        (TokenType::GT, Infix::GT),
        (TokenType::LT, Infix::LT),
        (TokenType::EQUAL, Infix::EQUAL),
        (TokenType::NOTEQUAL, Infix::NOTEQUAL),
        (TokenType::BANG, Infix::ILLEGAL),
        (TokenType::LPAREN, Infix::ILLEGAL),
        (TokenType::IDENT("x".to_string()), Infix::ILLEGAL),
        (TokenType::INT(1), Infix::ILLEGAL),
        (TokenType::EOF, Infix::ILLEGAL),
    ];
    for (token, operator) in cases {
        assert_eq!(Infix::from(token), operator);
    }
}

#[test]
fn statements_reconstruct_with_upper_case_keywords() {
    let binding = Stmt::LET(Ident("x".to_string()), Expr::INTEGER(5));
    assert_eq!(binding.to_string(), "LET x = 5;");
    assert_eq!(Stmt::RETURN(Expr::INTEGER(995)).to_string(), "RETURN 995;");
    assert_eq!(Stmt::EXPRESSION(ident("x")).to_string(), "x");
}

#[test]
fn lists_and_blocks_reconstruct() {
    assert_eq!(Parameters(vec![]).to_string(), "");
    assert_eq!(Parameters(vec![ident("x")]).to_string(), "x");
    assert_eq!(Parameters(vec![ident("x"), ident("y"), Expr::INTEGER(3)]).to_string(), "x,y,3");
    assert_eq!(BlockStatement(vec![]).to_string(), "");
    let block = BlockStatement(vec![
        Stmt::LET(Ident("x".to_string()), Expr::INTEGER(1)),
        Stmt::EXPRESSION(ident("x")),
        Stmt::RETURN(ident("y")),
    ]);
    assert_eq!(block.to_string(), "LET x = 1;xRETURN y;");
}

#[test]
fn conditionals_print_the_alternative_only_where_it_is_empty() {
    let condition = Expr::INFIX(Box::new(ident("x")), Infix::LT, Box::new(ident("y")));
    let body = BlockStatement(vec![Stmt::EXPRESSION(ident("x"))]);
    let other = BlockStatement(vec![Stmt::EXPRESSION(ident("y"))]);
    let both = Expr::IF(Box::new(condition.clone()), body.clone(), other);
    assert_eq!(both.to_string(), "if (x < y) { x }");
    let alone = Expr::IF(Box::new(condition), body, BlockStatement(vec![]));
    assert_eq!(alone.to_string(), "if (x < y) { x }else{  }");
}

#[test]
fn functions_and_calls_reconstruct() {
    let sum = Expr::INFIX(Box::new(ident("x")), Infix::PLUS, Box::new(ident("y")));
    let function = Expr::FUNC(
        Parameters(vec![ident("x"), ident("y")]),
        BlockStatement(vec![Stmt::EXPRESSION(sum.clone())]),
    );
    assert_eq!(function.to_string(), "fn (x,y){ (x + y) }");
    let call = Expr::CALL(Box::new(ident("add")), Parameters(vec![Expr::INTEGER(1), sum]));
    assert_eq!(call.to_string(), "add(1,(x + y))");
    let applied = Expr::CALL(Box::new(function), Parameters(vec![]));
    assert_eq!(applied.to_string(), "fn (x,y){ (x + y) }()");
}

#[test]
fn clones_are_equal_to_what_they_copy() {
    let sum = Expr::INFIX(Box::new(ident("x")), Infix::PLUS, Box::new(Expr::INTEGER(2)));
    let function = Expr::FUNC(
        Parameters(vec![ident("x")]),
        BlockStatement(vec![Stmt::RETURN(sum.clone()), Stmt::EXPRESSION(Expr::BOOLEAN(true))]),
    );
    let tree = Stmt::LET(
        Ident("f".to_string()),
        Expr::IF(
            Box::new(Expr::BANG(Box::new(Expr::MINUS(Box::new(ident("c")))))),
            BlockStatement(vec![Stmt::EXPRESSION(Expr::CALL(
                Box::new(function),
                Parameters(vec![sum, ident("z")]),
            ))]),
            BlockStatement(vec![]),
        ),
    );
    assert_eq!(tree.clone(), tree);
    assert_eq!(tree.clone().to_string(), tree.to_string());
}

#[test]
fn precedences_are_strictly_ordered() {
    let order = [
        Precedence::LOWEST,
        Precedence::EQUALS,
        Precedence::LESSGREATER,
        Precedence::SUM,
        Precedence::PRODUCT,
        Precedence::PREFIX,
        Precedence::CALL,
    ];
    for i in 0..order.len() {
        assert_eq!(order[i].rank() as usize, i);
        for j in 0..order.len() {
            assert_eq!(order[i].below(order[j]), i < j);
            assert_eq!(order[i] < order[j], i < j);
        }
    }
}
