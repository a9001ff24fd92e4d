//! Reparsing: the tokens that spell an expression parse back to that
//! expression.
use vstd::prelude::*;
use crate::ast::{ExprView, Infix, Precedence, StmtView};
use crate::grammar::{
    binding, block, call_expression, expression, expression_statement, extension,
    function_literal, grouped_expression, if_expression, infix_expression, is_operator,
    lemma_advance, let_statement, list, list_rest, prefix_expression, return_statement,
    statement, statements, ParserView, PrefixParser,
};
use crate::scanning::symbol_bytes;
use crate::text::{bytes_text, decimal_text};
use crate::token::{TokenKind, TokenTypeView, TokenView};

verus! {

/// The kind of the token that spells the operator `operator`.
pub open spec fn operator_kind(operator: Infix) -> TokenKind {
    match operator {
        Infix::PLUS => TokenKind::Plus,
        Infix::MINUS => TokenKind::Minus,
        Infix::MULTIPLY => TokenKind::Asterisk,
        Infix::DIVIDE => TokenKind::Slash,
        Infix::GT => TokenKind::Gt,
        Infix::LT => TokenKind::Lt,
        Infix::EQUAL => TokenKind::Equal,
        Infix::NOTEQUAL => TokenKind::NotEqual,
        Infix::ILLEGAL => TokenKind::Illegal,
    }
}

/// The token that the scanner makes of the symbol of kind `kind`.
pub open spec fn symbol_token(kind: TokenKind) -> TokenView {
    TokenView { tokentype: TokenTypeView::plain(kind), literal: bytes_text(symbol_bytes(kind)) }
}

/// The token that the scanner makes of the keyword of kind `kind` written as `text`.
pub open spec fn keyword_token(kind: TokenKind, text: Seq<char>) -> TokenView {
    TokenView { tokentype: TokenTypeView::plain(kind), literal: text }
}

/// Whether `e` stands between parentheses when it is reconstructed: the
/// application of a prefix or of a binary operator.
pub open spec fn is_grouped(e: ExprView) -> bool {
    e is Not || e is Negate || e is Infix
}

/// Whether `e` is plain: made of names, literals, prefix and binary
/// operators, calls, function literals and conditionals, where no operator
/// is the illegal one, every block is plain, and a conditional has a
/// condition between parentheses and twice the same block.
pub open spec fn is_plain(e: ExprView) -> bool
    decreases e,
{
    match e {
        ExprView::Identifier(_) => true,
        ExprView::Integer(_) => true,
        ExprView::Boolean(_) => true,
        ExprView::Not(operand) => is_plain(*operand),
        ExprView::Negate(operand) => is_plain(*operand),
        ExprView::Infix(left, operator, right) => operator != Infix::ILLEGAL && is_plain(*left)
            && is_plain(*right),
        ExprView::Call(callee, arguments) => is_plain(*callee) && forall|i: int|
            0 <= i < arguments.len() ==> is_plain(#[trigger] arguments[i]),
        ExprView::If(condition, consequence, alternative) => is_grouped(*condition) && is_plain(
            *condition,
        ) && is_plain_block(consequence) && alternative == consequence,
        ExprView::Function(parameters, body) => is_plain_block(body) && forall|i: int|
            0 <= i < parameters.len() ==> is_plain(#[trigger] parameters[i]),
    }
}

/// Whether `statement` holds a plain expression.
pub open spec fn is_plain_statement(statement: StmtView) -> bool
    decreases statement,
{
    match statement {
        StmtView::Let(_, value) => is_plain(value),
        StmtView::Return(value) => is_plain(value),
        StmtView::Expression(value) => is_plain(value),
    }
}

/// Whether `block` is plain: it holds a statement, its statements are plain,
/// and each but the last ends with a semicolon, being a binding or a return.
pub open spec fn is_plain_block(block: Seq<StmtView>) -> bool
    decreases block,
{
    block.len() > 0 && forall|i: int|
        0 <= i < block.len() ==> is_plain_statement(#[trigger] block[i]) && (i + 1 < block.len()
            ==> !(block[i] is Expression))
}

/// The tokens that spell the plain expression `e`, every operator
/// application between parentheses.
pub open spec fn expr_tokens(e: ExprView) -> Seq<TokenView>
    decreases e,
{
    match e {
        ExprView::Identifier(name) => seq![
            TokenView { tokentype: TokenTypeView::identifier(name), literal: name },
        ],
        ExprView::Integer(value) => seq![
            TokenView {
                tokentype: TokenTypeView::integer(value),
                literal: decimal_text(value as nat),
            },
        ],
        ExprView::Boolean(value) => seq![
            if value {
                TokenView { tokentype: TokenTypeView::plain(TokenKind::True), literal: "true"@ }
            } else {
                TokenView { tokentype: TokenTypeView::plain(TokenKind::False), literal: "false"@ }
            },
        ],
        ExprView::Not(operand) => seq![
            symbol_token(TokenKind::LParen),
            symbol_token(TokenKind::Bang),
        ] + expr_tokens(*operand) + seq![symbol_token(TokenKind::RParen)],
        ExprView::Negate(operand) => seq![
            symbol_token(TokenKind::LParen),
            symbol_token(TokenKind::Minus),
        ] + expr_tokens(*operand) + seq![symbol_token(TokenKind::RParen)],
        ExprView::Infix(left, operator, right) => seq![symbol_token(TokenKind::LParen)]
            + expr_tokens(*left) + seq![symbol_token(operator_kind(operator))] + expr_tokens(
            *right,
        ) + seq![symbol_token(TokenKind::RParen)],
        ExprView::Call(callee, arguments) => expr_tokens(*callee) + seq![
            symbol_token(TokenKind::LParen),
        ] + list_tokens(arguments, 0),
        ExprView::If(condition, consequence, _) => seq![keyword_token(TokenKind::If, "if"@)]
            + expr_tokens(*condition) + seq![symbol_token(TokenKind::LBrace)] + block_tokens(
            consequence,
            0,
        ),
        ExprView::Function(parameters, body) => seq![
            keyword_token(TokenKind::Function, "fn"@),
            symbol_token(TokenKind::LParen),
        ] + list_tokens(parameters, 0) + seq![symbol_token(TokenKind::LBrace)] + block_tokens(
            body,
            0,
        ),
    }
}

/// The tokens that spell the plain statement `statement`.
pub open spec fn stmt_tokens(statement: StmtView) -> Seq<TokenView>
    decreases statement,
{
    match statement {
        StmtView::Let(name, value) => seq![
            keyword_token(TokenKind::Let, "LET"@),
            TokenView { tokentype: TokenTypeView::identifier(name), literal: name },
            symbol_token(TokenKind::Assign),
        ] + expr_tokens(value) + seq![symbol_token(TokenKind::Semicolon)],
        StmtView::Return(value) => seq![keyword_token(TokenKind::Return, "RETURN"@)]
            + expr_tokens(value) + seq![symbol_token(TokenKind::Semicolon)],
        StmtView::Expression(value) => expr_tokens(value),
    }
}

/// The tokens that spell the statements of `block` from the index `from` on,
/// and the closing brace behind them.
pub open spec fn block_tokens(block: Seq<StmtView>, from: int) -> Seq<TokenView>
    decreases block, block.len() - from,
{
    if from < 0 || from >= block.len() {
        seq![symbol_token(TokenKind::RBrace)]
    } else {
        stmt_tokens(block[from]) + block_tokens(block, from + 1)
    }
}

/// The tokens that spell the elements of `list` from the index `from` on,
/// with commas between them, and the closing parenthesis behind them.
pub open spec fn list_tokens(list: Seq<ExprView>, from: int) -> Seq<TokenView>
    decreases list, list.len() - from,
{
    if from < 0 || from >= list.len() {
        seq![symbol_token(TokenKind::RParen)]
    } else {
        expr_tokens(list[from]) + list_tail(list, from)
    }
}

/// The tokens behind the element of `list` at the index `at`: a comma and the
/// elements that follow, or the closing parenthesis.
pub open spec fn list_tail(list: Seq<ExprView>, at: int) -> Seq<TokenView>
    decreases list, list.len() - at, 0int,
{
    if at < 0 || at + 1 >= list.len() {
        seq![symbol_token(TokenKind::RParen)]
    } else {
        seq![symbol_token(TokenKind::Comma)] + list_tokens(list, at + 1)
    }
}

/// The state after the window has moved on by `steps` tokens.
pub open spec fn after(s: ParserView, steps: nat) -> ParserView
    decreases steps,
{
    if steps == 0 {
        s
    } else {
        after(s.advance(), (steps - 1) as nat)
    }
}

/// Whether the window of `s` stands on the token of `stream` at the index
/// `at` and every later token of `stream` comes under it in its turn.
pub open spec fn on(s: ParserView, stream: Seq<TokenView>, at: int) -> bool
    decreases stream.len() - at,
{
    at < 0 || at >= stream.len() || (s.cur == stream[at] && on(s.advance(), stream, at + 1))
}

/// Whether `stream` holds the tokens `part` from the index `at` on.
pub open spec fn spells(stream: Seq<TokenView>, at: int, part: Seq<TokenView>) -> bool {
    0 <= at && at + part.len() <= stream.len() && stream.subrange(at, at + part.len()) == part
}

/// Whether the table of prefix functions treats names, integers and truth
/// values as a new parser does.
pub open spec fn knows_atoms(prefix: Map<TokenKind, PrefixParser>) -> bool {
    &&& prefix.dom().contains(TokenKind::Ident) && prefix[TokenKind::Ident]
        == PrefixParser::Identifier
    &&& prefix.dom().contains(TokenKind::Int) && prefix[TokenKind::Int] == PrefixParser::Integer
    &&& prefix.dom().contains(TokenKind::True) && prefix[TokenKind::True]
        == PrefixParser::Boolean
    &&& prefix.dom().contains(TokenKind::False) && prefix[TokenKind::False]
        == PrefixParser::Boolean
}

/// Whether `s` is a parse that goes on, with a window on `stream` at `at`.
pub open spec fn reading(s: ParserView, stream: Seq<TokenView>, at: int) -> bool {
    !s.halted && knows_atoms(s.prefix) && 0 <= at && on(s, stream, at)
}

/// Moving the window changes nothing but the window, and leaves no more
/// input than there was.
pub proof fn lemma_after(s: ParserView, steps: nat)
    ensures
        after(s, steps).halted == s.halted,
        after(s, steps).errors == s.errors,
        after(s, steps).prefix == s.prefix,
        after(s, steps).source == s.source,
        after(s, steps).remaining() <= s.remaining(),
        after(s, steps + 1) == after(s, steps).advance(),
    decreases steps,
{
    lemma_advance(s);
    assert(after(s, steps + 1) == after(s.advance(), steps));
    if steps > 0 {
        lemma_after(s.advance(), (steps - 1) as nat);
        assert(after(s, steps) == after(s.advance(), (steps - 1) as nat));
    } else {
        assert(after(s.advance(), 0) == s.advance());
    }
}

/// Moving on by some tokens and then by some more is moving on by all of them.
pub proof fn lemma_after_sum(s: ParserView, first: nat, second: nat)
    ensures
        after(after(s, first), second) == after(s, first + second),
    decreases first,
{
    if first > 0 {
        lemma_after_sum(s.advance(), (first - 1) as nat, second);
    }
}

/// A window on a stream stays on it as it moves.
pub proof fn lemma_reading_moves(s: ParserView, stream: Seq<TokenView>, at: int, steps: nat)
    requires
        reading(s, stream, at),
    ensures
        reading(after(s, steps), stream, at + steps),
        at + steps < stream.len() ==> after(s, steps).cur == stream[at + steps],
        at + steps + 1 < stream.len() ==> after(s, steps).peek == stream[at + steps + 1],
    decreases steps,
{
    lemma_advance(s);
    if steps > 0 {
        lemma_reading_moves(s.advance(), stream, at + 1, (steps - 1) as nat);
    } else {
        if at + 1 < stream.len() {
            assert(on(s.advance(), stream, at + 1));
        }
    }
}

/// An expression does not grow where the next token is a semicolon, binds no
/// tighter than asked, or is neither an operator nor an opening parenthesis.
pub proof fn lemma_extension_stops(s: ParserView, left: ExprView, precedence: Precedence)
    requires
        !s.halted,
        s.peek.kind() == TokenKind::Semicolon || precedence.level() >= binding(
            s.peek.kind(),
        ).level() || !(s.peek.kind() == TokenKind::LParen || is_operator(s.peek.kind())),
    ensures
        extension(s, left, precedence) == (Some(left), s),
{
    reveal(extension);
}


/// A stream that holds some tokens holds each part of them.
pub proof fn lemma_spells_part(
    stream: Seq<TokenView>,
    at: int,
    whole: Seq<TokenView>,
    offset: int,
    part: Seq<TokenView>,
)
    requires
        spells(stream, at, whole),
        0 <= offset,
        offset + part.len() <= whole.len(),
        whole.subrange(offset, offset + part.len()) == part,
    ensures
        spells(stream, at + offset, part),
        forall|k: int| 0 <= k < whole.len() ==> stream[at + k] == #[trigger] whole[k],
{
    assert forall|k: int| 0 <= k < whole.len() implies stream[at + k] == #[trigger] whole[k] by {
        assert(stream.subrange(at, at + whole.len())[k] == stream[at + k]);
    }
    assert(stream.subrange(at + offset, at + offset + part.len()) =~= part) by {
        assert forall|k: int| 0 <= k < part.len() implies stream[at + offset + k] == part[k] by {
            assert(whole.subrange(offset, offset + part.len())[k] == whole[offset + k]);
        }
    }
}

/// A stream that holds some tokens holds each of them.
pub proof fn lemma_spells_each(stream: Seq<TokenView>, at: int, whole: Seq<TokenView>)
    requires
        spells(stream, at, whole),
    ensures
        forall|k: int| 0 <= k < whole.len() ==> stream[at + k] == #[trigger] whole[k],
{
    assert(whole.subrange(0, whole.len() as int) =~= whole);
    lemma_spells_part(stream, at, whole, 0, whole);
}

/// A name, an integer or a truth value under the window is an operand as it
/// stands.
proof fn lemma_atom(
    s: ParserView,
    stream: Seq<TokenView>,
    at: int,
    e: ExprView,
    precedence: Precedence,
)
    requires
        reading(s, stream, at),
        spells(stream, at, expr_tokens(e)),
        e is Identifier || e is Integer || e is Boolean,
    ensures
        expr_tokens(e).len() == 1,
        expression(s, precedence) == extension(s, e, precedence),
{
    reveal(expression);
    reveal(extension);
    let token = expr_tokens(e)[0];
    lemma_spells_each(stream, at, expr_tokens(e));
    assert(stream[at + 0] == token);
    assert(s.cur == token);
    assert(s.registered_operand() == Some(e));
}

/// An expression between parentheses is an operand: where the tokens behind
/// the opening parenthesis parse to `e` and the closing one follows, the
/// group parses to `e`.
proof fn lemma_group(s: ParserView, inner: ParserView, e: ExprView, precedence: Precedence)
    requires
        !s.halted,
        s.cur.kind() == TokenKind::LParen,
        expression(s.advance(), Precedence::LOWEST) == (Some(e), inner),
        !inner.halted,
        inner.peek.kind() == TokenKind::RParen,
        inner.remaining() <= s.remaining(),
    ensures
        expression(s, precedence) == extension(inner.advance(), e, precedence),
{
    reveal(expression);
    reveal(extension);
    reveal(grouped_expression);
    lemma_advance(inner);
    assert(grouped_expression(s) == (Some(e), inner.advance()));
}

/// The tokens that spell a plain expression parse to it as an operand: the
/// expression that they begin is the one that this operand grows into.
pub proof fn lemma_operand(
    s: ParserView,
    stream: Seq<TokenView>,
    at: int,
    e: ExprView,
    precedence: Precedence,
)
    requires
        reading(s, stream, at),
        spells(stream, at, expr_tokens(e)),
        is_plain(e),
        precedence.level() < Precedence::CALL.level(),
    ensures
        expr_tokens(e).len() > 0,
        expression(s, precedence) == extension(
            after(s, (expr_tokens(e).len() - 1) as nat),
            e,
            precedence,
        ),
    decreases e, 2int,
{
    match e {
        ExprView::Identifier(_) => {
            lemma_atom(s, stream, at, e, precedence);
        },
        ExprView::Integer(_) => {
            lemma_atom(s, stream, at, e, precedence);
        },
        ExprView::Boolean(_) => {
            lemma_atom(s, stream, at, e, precedence);
        },
        ExprView::Call(callee, arguments) => {
            lemma_call(s, stream, at, *callee, arguments, precedence);
        },
        ExprView::If(condition, consequence, _) => {
            lemma_conditional(s, stream, at, *condition, consequence, precedence);
        },
        ExprView::Function(parameters, body) => {
            lemma_function(s, stream, at, parameters, body, precedence);
        },
        _ => {
            lemma_inside(s, stream, at, e);
            let n = expr_tokens(e).len() as int;
            let inner = after(s, (n - 2) as nat);
            lemma_spells_each(stream, at, expr_tokens(e));
            lemma_reading_moves(s, stream, at, 0);
            lemma_after(s, (n - 2) as nat);
            assert(after(s, 0) == s);
            assert(s.cur == expr_tokens(e)[0]);
            lemma_group(s, inner, e, precedence);
        },
    }
}

/// The tokens between the parentheses of an operator application parse to
/// it, and leave the window before the closing parenthesis.
proof fn lemma_inside(s: ParserView, stream: Seq<TokenView>, at: int, e: ExprView)
    requires
        reading(s, stream, at),
        spells(stream, at, expr_tokens(e)),
        is_plain(e),
        is_grouped(e),
    ensures
        expr_tokens(e).len() >= 3,
        expr_tokens(e)[0] == symbol_token(TokenKind::LParen),
        expr_tokens(e).last() == symbol_token(TokenKind::RParen),
        expression(s.advance(), Precedence::LOWEST) == (
            Some(e),
            after(s, (expr_tokens(e).len() - 2) as nat),
        ),
        after(s, (expr_tokens(e).len() - 2) as nat).peek.kind() == TokenKind::RParen,
    decreases e, 1int,
{
    match e {
        ExprView::Not(operand) => {
            lemma_prefixed(s, stream, at, e, *operand, TokenKind::Bang);
        },
        ExprView::Negate(operand) => {
            lemma_prefixed(s, stream, at, e, *operand, TokenKind::Minus);
        },
        ExprView::Infix(left, operator, right) => {
            lemma_binary(s, stream, at, *left, operator, *right);
        },
        _ => {},
    }
}

/// The tokens that spell the application of a prefix operator parse to it.
proof fn lemma_prefixed(
    s: ParserView,
    stream: Seq<TokenView>,
    at: int,
    e: ExprView,
    operand: ExprView,
    operator: TokenKind,
)
    requires
        reading(s, stream, at),
        spells(stream, at, expr_tokens(e)),
        is_plain(operand),
        (operator == TokenKind::Bang && e == ExprView::Not(Box::new(operand))) || (operator
            == TokenKind::Minus && e == ExprView::Negate(Box::new(operand))),
    ensures
        expr_tokens(e).len() >= 3,
        expr_tokens(e)[0] == symbol_token(TokenKind::LParen),
        expr_tokens(e).last() == symbol_token(TokenKind::RParen),
        expression(s.advance(), Precedence::LOWEST) == (
            Some(e),
            after(s, (expr_tokens(e).len() - 2) as nat),
        ),
        after(s, (expr_tokens(e).len() - 2) as nat).peek.kind() == TokenKind::RParen,
    decreases e, 0int,
{
    let whole = expr_tokens(e);
    let part = expr_tokens(operand);
    let n = part.len() as int;
    assert(whole == seq![symbol_token(TokenKind::LParen), symbol_token(operator)] + part
        + seq![symbol_token(TokenKind::RParen)]);
    assert(whole.subrange(2, 2 + n) =~= part);
    lemma_spells_part(stream, at, whole, 2, part);
    assert(stream[at + 0] == whole[0] && stream[at + 1] == whole[1] && stream[at + 2 + n]
        == whole[2 + n]);
    let s1 = s.advance();
    let s2 = s1.advance();
    lemma_reading_moves(s, stream, at, 0);
    lemma_reading_moves(s, stream, at, 1);
    lemma_reading_moves(s, stream, at, 2);
    lemma_after(s, 0);
    lemma_after(s, 1);
    lemma_after(s, 2);
    assert(after(s, 0) == s);
    assert(after(s, 1) == s1);
    assert(after(s, 2) == s2);
    lemma_operand(s2, stream, at + 2, operand, Precedence::PREFIX);
    let s3 = after(s2, (n - 1) as nat);
    lemma_after_sum(s, 2, (n - 1) as nat);
    lemma_reading_moves(s, stream, at, (n + 1) as nat);
    lemma_after(s, (n + 1) as nat);
    assert(s3 == after(s, (n + 1) as nat));
    assert(s3.peek == symbol_token(TokenKind::RParen));
    lemma_extension_stops(s3, operand, Precedence::PREFIX);
    lemma_extension_stops(s3, e, Precedence::LOWEST);
    assert(expression(s2, Precedence::PREFIX) == (Some(operand), s3));
    assert(prefix_expression(s1, operator) == (Some(e), s3)) by {
        reveal(prefix_expression);
        reveal(expression);
    }
    assert(expression(s1, Precedence::LOWEST) == (Some(e), s3)) by {
        reveal(expression);
        reveal(prefix_expression);
        reveal(extension);
        lemma_after(s1, n as nat);
        lemma_after_sum(s, 1, n as nat);
        assert(s1.cur == symbol_token(operator));
    }
}

/// The tokens that spell the application of a binary operator parse to it.
proof fn lemma_binary(
    s: ParserView,
    stream: Seq<TokenView>,
    at: int,
    left: ExprView,
    operator: Infix,
    right: ExprView,
)
    requires
        reading(s, stream, at),
        spells(
            stream,
            at,
            expr_tokens(ExprView::Infix(Box::new(left), operator, Box::new(right))),
        ),
        is_plain(left),
        is_plain(right),
        operator != Infix::ILLEGAL,
    ensures
        ({
            let e = ExprView::Infix(Box::new(left), operator, Box::new(right));
            &&& expr_tokens(e).len() >= 3
            &&& expr_tokens(e)[0] == symbol_token(TokenKind::LParen)
            &&& expr_tokens(e).last() == symbol_token(TokenKind::RParen)
            &&& expression(s.advance(), Precedence::LOWEST) == (
                Some(e),
                after(s, (expr_tokens(e).len() - 2) as nat),
            )
            &&& after(s, (expr_tokens(e).len() - 2) as nat).peek.kind() == TokenKind::RParen
        }),
    decreases ExprView::Infix(Box::new(left), operator, Box::new(right)), 0int,
{
    let e = ExprView::Infix(Box::new(left), operator, Box::new(right));
    let whole = expr_tokens(e);
    let first = expr_tokens(left);
    let second = expr_tokens(right);
    let sign = symbol_token(operator_kind(operator));
    let nl = first.len() as int;
    let nr = second.len() as int;
    assert(whole == seq![symbol_token(TokenKind::LParen)] + first + seq![sign] + second + seq![
        symbol_token(TokenKind::RParen),
    ]);
    assert(whole.subrange(1, 1 + nl) =~= first);
    assert(whole.subrange(2 + nl, 2 + nl + nr) =~= second);
    lemma_spells_part(stream, at, whole, 1, first);
    lemma_spells_part(stream, at, whole, 2 + nl, second);
    assert(stream[at + 0] == whole[0] && stream[at + 1 + nl] == whole[1 + nl] && stream[at + 2
        + nl + nr] == whole[2 + nl + nr]);
    let operator_binding = binding(operator_kind(operator));
    // The left operand.
    let s1 = s.advance();
    lemma_reading_moves(s, stream, at, 0);
    lemma_reading_moves(s, stream, at, 1);
    lemma_after(s, 0);
    assert(after(s, 1) == s1);
    lemma_operand(s1, stream, at + 1, left, Precedence::LOWEST);
    let s2 = after(s1, (nl - 1) as nat);
    lemma_after_sum(s, 1, (nl - 1) as nat);
    assert(s2 == after(s, nl as nat));
    lemma_reading_moves(s, stream, at, nl as nat);
    lemma_after(s, nl as nat);
    assert(s2.peek == sign);
    // The operator and the right operand.
    let s3 = s2.advance();
    let s4 = s3.advance();
    lemma_after(s, (nl + 1) as nat);
    assert(s3 == after(s, (nl + 1) as nat));
    assert(s4 == after(s, (nl + 2) as nat));
    lemma_reading_moves(s, stream, at, (nl + 1) as nat);
    lemma_reading_moves(s, stream, at, (nl + 2) as nat);
    assert(s3.cur == sign);
    lemma_operand(s4, stream, at + nl + 2, right, operator_binding);
    let s5 = after(s4, (nr - 1) as nat);
    lemma_after_sum(s, (nl + 2) as nat, (nr - 1) as nat);
    assert(s5 == after(s, (nl + nr + 1) as nat));
    lemma_reading_moves(s, stream, at, (nl + nr + 1) as nat);
    lemma_after(s, (nl + nr + 1) as nat);
    lemma_after(s, (nl + 2) as nat);
    assert(s5.peek == symbol_token(TokenKind::RParen));
    lemma_extension_stops(s5, right, operator_binding);
    lemma_extension_stops(s5, e, Precedence::LOWEST);
    assert(expression(s4, operator_binding) == (Some(right), s5));
    assert(infix_expression(s3, operator_kind(operator), left) == (Some(e), s5)) by {
        reveal(infix_expression);
        reveal(expression);
    }
    lemma_advance(s2);
    lemma_after(s3, nr as nat);
    lemma_after_sum(s, (nl + 1) as nat, nr as nat);
    assert(extension(s2, left, Precedence::LOWEST) == (Some(e), s5)) by {
        reveal(extension);
        reveal(infix_expression);
        reveal(call_expression);
    }
    assert(expression(s1, Precedence::LOWEST) == (Some(e), s5));
}

/// The tokens that spell a call parse to it.
proof fn lemma_call(
    s: ParserView,
    stream: Seq<TokenView>,
    at: int,
    callee: ExprView,
    arguments: Seq<ExprView>,
    precedence: Precedence,
)
    requires
        reading(s, stream, at),
        spells(stream, at, expr_tokens(ExprView::Call(Box::new(callee), arguments))),
        is_plain(ExprView::Call(Box::new(callee), arguments)),
        precedence.level() < Precedence::CALL.level(),
    ensures
        expr_tokens(ExprView::Call(Box::new(callee), arguments)).len() > 0,
        expression(s, precedence) == extension(
            after(
                s,
                (expr_tokens(ExprView::Call(Box::new(callee), arguments)).len() - 1) as nat,
            ),
            ExprView::Call(Box::new(callee), arguments),
            precedence,
        ),
    decreases ExprView::Call(Box::new(callee), arguments), 0int,
{
    let e = ExprView::Call(Box::new(callee), arguments);
    let whole = expr_tokens(e);
    let first = expr_tokens(callee);
    let elements = list_tokens(arguments, 0);
    let nf = first.len() as int;
    let na = elements.len() as int;
    assert(whole == first + seq![symbol_token(TokenKind::LParen)] + elements);
    assert(whole.subrange(0, 0 + nf) =~= first);
    assert(whole.subrange(nf + 1, nf + 1 + na) =~= elements);
    lemma_spells_part(stream, at, whole, 0, first);
    lemma_spells_part(stream, at, whole, nf + 1, elements);
    assert(stream[at + nf] == whole[nf]);
    lemma_operand(s, stream, at, callee, precedence);
    let s1 = after(s, (nf - 1) as nat);
    lemma_reading_moves(s, stream, at, (nf - 1) as nat);
    lemma_after(s, (nf - 1) as nat);
    assert(s1.peek == symbol_token(TokenKind::LParen));
    let s2 = s1.advance();
    lemma_reading_moves(s, stream, at, nf as nat);
    lemma_after(s, nf as nat);
    assert(s2 == after(s, nf as nat));
    lemma_list(s2, stream, at + nf, arguments);
    let s3 = after(s2, na as nat);
    lemma_after_sum(s, nf as nat, na as nat);
    lemma_after(s2, na as nat);
    lemma_advance(s1);
    assert(call_expression(s2, callee) == (Some(e), s3)) by {
        reveal(call_expression);
        reveal(list);
    }
    assert(extension(s1, callee, precedence) == extension(s3, e, precedence)) by {
        reveal(extension);
        reveal(call_expression);
        reveal(infix_expression);
    }
}

/// The tokens that spell a list behind its opening parenthesis parse to its
/// elements, and leave the window on the closing parenthesis.
proof fn lemma_list(s: ParserView, stream: Seq<TokenView>, at: int, elements: Seq<ExprView>)
    requires
        reading(s, stream, at),
        s.cur.kind() == TokenKind::LParen,
        spells(stream, at + 1, list_tokens(elements, 0)),
        forall|i: int| 0 <= i < elements.len() ==> is_plain(#[trigger] elements[i]),
    ensures
        list(s) == (elements, after(s, list_tokens(elements, 0).len())),
    decreases elements, elements.len() + 1,
{
    let whole = list_tokens(elements, 0);
    lemma_reading_moves(s, stream, at, 0);
    lemma_reading_moves(s, stream, at, 1);
    lemma_after(s, 0);
    let s1 = s.advance();
    assert(after(s, 1) == s1);
    lemma_spells_each(stream, at + 1, whole);
    if elements.len() == 0 {
        assert(stream[at + 1 + 0] == whole[0]);
        assert(s.peek.kind() == TokenKind::RParen);
        assert(list(s) == (elements, s1)) by {
            reveal(list);
            assert(elements =~= Seq::<ExprView>::empty());
        }
    } else {
        let first = expr_tokens(elements[0]);
        let tail = list_tail(elements, 0);
        let nf = first.len() as int;
        assert(whole == first + tail);
        assert(whole.subrange(0, 0 + nf) =~= first);
        assert(whole.subrange(nf, nf + tail.len()) =~= tail);
        lemma_spells_part(stream, at + 1, whole, 0, first);
        lemma_spells_part(stream, at + 1, whole, nf, tail);
        lemma_first_token(elements[0]);
        assert(stream[at + 1 + 0] == whole[0]);
        assert(s.peek.kind() != TokenKind::RParen);
        lemma_operand(s1, stream, at + 1, elements[0], Precedence::LOWEST);
        let s2 = after(s1, (nf - 1) as nat);
        lemma_after_sum(s, 1, (nf - 1) as nat);
        lemma_reading_moves(s, stream, at, nf as nat);
        lemma_after(s, nf as nat);
        assert(s2 == after(s, nf as nat));
        assert(stream[at + 1 + nf] == tail[0]);
        assert(s2.peek == tail[0]);
        lemma_extension_stops(s2, elements[0], Precedence::LOWEST);
        assert(expression(s1, Precedence::LOWEST) == (Some(elements[0]), s2));
        lemma_list_rest(s2, stream, at + nf, elements, 0);
        lemma_after_sum(s, nf as nat, tail.len());
        assert(elements.take(1) =~= seq![elements[0]]);
        assert(list(s) == list_rest(s2, seq![elements[0]])) by {
            reveal(list);
            reveal(expression);
            reveal(list_rest);
        }
    }
}

/// The tokens behind an element of a list parse to the elements that follow
/// it, and leave the window on the closing parenthesis.
proof fn lemma_list_rest(
    s: ParserView,
    stream: Seq<TokenView>,
    at: int,
    elements: Seq<ExprView>,
    index: int,
)
    requires
        reading(s, stream, at),
        0 <= index < elements.len(),
        spells(stream, at + 1, list_tail(elements, index)),
        forall|i: int| 0 <= i < elements.len() ==> is_plain(#[trigger] elements[i]),
    ensures
        list_rest(s, elements.take(index + 1)) == (
            elements,
            after(s, list_tail(elements, index).len()),
        ),
    decreases elements, elements.len() - index,
{
    let tail = list_tail(elements, index);
    lemma_reading_moves(s, stream, at, 0);
    lemma_reading_moves(s, stream, at, 1);
    lemma_reading_moves(s, stream, at, 2);
    lemma_after(s, 0);
    lemma_after(s, 1);
    let s1 = s.advance();
    assert(after(s, 1) == s1);
    lemma_spells_each(stream, at + 1, tail);
    assert(stream[at + 1 + 0] == tail[0]);
    if index + 1 == elements.len() {
        assert(s.peek.kind() == TokenKind::RParen);
        assert(elements.take(index + 1) =~= elements);
        assert(list_rest(s, elements) == (elements, s1)) by {
            reveal(list_rest);
        }
    } else {
        let next = elements[index + 1];
        let first = expr_tokens(next);
        let further = list_tail(elements, index + 1);
        let nf = first.len() as int;
        assert(tail == seq![symbol_token(TokenKind::Comma)] + (first + further));
        assert(tail.subrange(1, 1 + nf) =~= first);
        assert(tail.subrange(1 + nf, 1 + nf + further.len()) =~= further);
        lemma_spells_part(stream, at + 1, tail, 1, first);
        lemma_spells_part(stream, at + 1, tail, 1 + nf, further);
        assert(s.peek.kind() == TokenKind::Comma);
        let s2 = s1.advance();
        lemma_after(s, 2);
        assert(after(s, 2) == s2);
        lemma_operand(s2, stream, at + 2, next, Precedence::LOWEST);
        let s3 = after(s2, (nf - 1) as nat);
        lemma_after_sum(s, 2, (nf - 1) as nat);
        lemma_reading_moves(s, stream, at, (nf + 1) as nat);
        lemma_after(s, (nf + 1) as nat);
        assert(s3 == after(s, (nf + 1) as nat));
        assert(stream[at + 1 + (1 + nf)] == further[0]) by {
            lemma_spells_each(stream, at + 1 + 1 + nf, further);
        }
        assert(s3.peek == further[0]);
        lemma_extension_stops(s3, next, Precedence::LOWEST);
        assert(expression(s2, Precedence::LOWEST) == (Some(next), s3));
        lemma_list_rest(s3, stream, at + nf + 1, elements, index + 1);
        lemma_after_sum(s, (nf + 1) as nat, further.len());
        assert(elements.take(index + 1).push(next) =~= elements.take(index + 2));
        lemma_advance(s);
        lemma_advance(s1);
        lemma_after(s1, nf as nat);
        lemma_after_sum(s, 1, nf as nat);
        assert(list_rest(s, elements.take(index + 1)) == list_rest(
            s3,
            elements.take(index + 2),
        )) by {
            reveal(list_rest);
            reveal(expression);
        }
    }
}

/// Whether a plain expression can begin with a token of kind `kind`.
pub open spec fn begins_operand(kind: TokenKind) -> bool {
    kind == TokenKind::Ident || kind == TokenKind::Int || kind == TokenKind::True || kind
        == TokenKind::False || kind == TokenKind::LParen || kind == TokenKind::If || kind
        == TokenKind::Function
}

/// The tokens that spell a plain expression begin with a name, a literal,
/// an opening parenthesis, `if` or `fn`.
pub proof fn lemma_first_token(e: ExprView)
    requires
        is_plain(e),
    ensures
        expr_tokens(e).len() > 0,
        begins_operand(expr_tokens(e)[0].kind()),
    decreases e,
{
    match e {
        ExprView::Call(callee, arguments) => {
            lemma_first_token(*callee);
        },
        _ => {},
    }
}

/// The tokens that spell a function literal parse to it.
proof fn lemma_function(
    s: ParserView,
    stream: Seq<TokenView>,
    at: int,
    parameters: Seq<ExprView>,
    body: Seq<StmtView>,
    precedence: Precedence,
)
    requires
        reading(s, stream, at),
        spells(stream, at, expr_tokens(ExprView::Function(parameters, body))),
        is_plain(ExprView::Function(parameters, body)),
    ensures
        expr_tokens(ExprView::Function(parameters, body)).len() > 0,
        expression(s, precedence) == extension(
            after(s, (expr_tokens(ExprView::Function(parameters, body)).len() - 1) as nat),
            ExprView::Function(parameters, body),
            precedence,
        ),
    decreases ExprView::Function(parameters, body), 0int,
{
    let e = ExprView::Function(parameters, body);
    let whole = expr_tokens(e);
    let elements = list_tokens(parameters, 0);
    let inside = block_tokens(body, 0);
    let nl = elements.len() as int;
    let nb = inside.len() as int;
    assert(whole == seq![
        keyword_token(TokenKind::Function, "fn"@),
        symbol_token(TokenKind::LParen),
    ] + elements + seq![symbol_token(TokenKind::LBrace)] + inside);
    assert(whole.subrange(2, 2 + nl) =~= elements);
    assert(whole.subrange(3 + nl, 3 + nl + nb) =~= inside);
    lemma_spells_part(stream, at, whole, 2, elements);
    lemma_spells_part(stream, at, whole, 3 + nl, inside);
    assert(stream[at + 0] == whole[0] && stream[at + 1] == whole[1] && stream[at + 2 + nl]
        == whole[2 + nl]);
    lemma_reading_moves(s, stream, at, 0);
    lemma_reading_moves(s, stream, at, 1);
    lemma_after(s, 0);
    lemma_after(s, 1);
    lemma_advance(s);
    assert(after(s, 0) == s);
    let s1 = s.advance();
    assert(after(s, 1) == s1);
    lemma_list(s1, stream, at + 1, parameters);
    let s2 = after(s1, nl as nat);
    lemma_after_sum(s, 1, nl as nat);
    lemma_reading_moves(s, stream, at, (nl + 1) as nat);
    lemma_after(s, (nl + 1) as nat);
    assert(s2 == after(s, (nl + 1) as nat));
    assert(s2.peek == symbol_token(TokenKind::LBrace));
    let s3 = s2.advance();
    lemma_reading_moves(s, stream, at, (nl + 2) as nat);
    lemma_after(s, (nl + 2) as nat);
    lemma_after(s1, nl as nat);
    lemma_after(s1, (nl + 1) as nat);
    lemma_after_sum(s, 1, (nl + 1) as nat);
    assert(s3 == after(s, (nl + 2) as nat));
    lemma_block(s3, stream, at + nl + 2, body);
    let s4 = after(s3, nb as nat);
    lemma_after_sum(s, (nl + 2) as nat, nb as nat);
    lemma_after(s, (nl + nb + 2) as nat);
    assert(function_literal(s) == (Some(e), s4)) by {
        reveal(function_literal);
        reveal(list);
        reveal(block);
    }
    assert(expression(s, precedence) == extension(s4, e, precedence)) by {
        reveal(expression);
        reveal(function_literal);
        reveal(extension);
    }
}

/// The tokens that spell a conditional parse to it.
proof fn lemma_conditional(
    s: ParserView,
    stream: Seq<TokenView>,
    at: int,
    condition: ExprView,
    consequence: Seq<StmtView>,
    precedence: Precedence,
)
    requires
        reading(s, stream, at),
        spells(
            stream,
            at,
            expr_tokens(ExprView::If(Box::new(condition), consequence, consequence)),
        ),
        is_plain(ExprView::If(Box::new(condition), consequence, consequence)),
    ensures
        expr_tokens(ExprView::If(Box::new(condition), consequence, consequence)).len() > 0,
        expression(s, precedence) == extension(
            after(
                s,
                (expr_tokens(ExprView::If(Box::new(condition), consequence, consequence)).len()
                    - 1) as nat,
            ),
            ExprView::If(Box::new(condition), consequence, consequence),
            precedence,
        ),
    decreases ExprView::If(Box::new(condition), consequence, consequence), 0int,
{
    let e = ExprView::If(Box::new(condition), consequence, consequence);
    let whole = expr_tokens(e);
    let test = expr_tokens(condition);
    let inside = block_tokens(consequence, 0);
    let nc = test.len() as int;
    let nb = inside.len() as int;
    assert(whole == seq![keyword_token(TokenKind::If, "if"@)] + test + seq![
        symbol_token(TokenKind::LBrace),
    ] + inside);
    assert(whole.subrange(1, 1 + nc) =~= test);
    assert(whole.subrange(2 + nc, 2 + nc + nb) =~= inside);
    lemma_spells_part(stream, at, whole, 1, test);
    lemma_spells_part(stream, at, whole, 2 + nc, inside);
    lemma_reading_moves(s, stream, at, 0);
    lemma_reading_moves(s, stream, at, 1);
    lemma_after(s, 0);
    lemma_after(s, 1);
    lemma_advance(s);
    assert(after(s, 0) == s);
    let s1 = s.advance();
    assert(after(s, 1) == s1);
    lemma_inside(s1, stream, at + 1, condition);
    assert(stream[at + 0] == whole[0] && stream[at + 1] == whole[1] && stream[at + 1 + nc]
        == whole[1 + nc]);
    assert(whole[1] == test[0]);
    let s3 = after(s1, (nc - 2) as nat);
    lemma_after_sum(s, 1, (nc - 2) as nat);
    lemma_after(s, (nc - 1) as nat);
    lemma_reading_moves(s, stream, at, (nc - 1) as nat);
    let s4 = s3.advance();
    lemma_after(s, nc as nat);
    lemma_reading_moves(s, stream, at, nc as nat);
    assert(s4 == after(s, nc as nat));
    assert(s4.peek == symbol_token(TokenKind::LBrace));
    let s5 = s4.advance();
    lemma_after(s, (nc + 1) as nat);
    lemma_reading_moves(s, stream, at, (nc + 1) as nat);
    assert(s5 == after(s, (nc + 1) as nat));
    lemma_after(s1, nc as nat);
    lemma_after_sum(s, 1, nc as nat);
    lemma_block(s5, stream, at + nc + 1, consequence);
    let s6 = after(s5, nb as nat);
    lemma_after_sum(s, (nc + 1) as nat, nb as nat);
    lemma_after(s, (nc + nb + 1) as nat);
    assert(if_expression(s) == (Some(e), s6)) by {
        reveal(if_expression);
        reveal(expression);
        reveal(block);
    }
    assert(expression(s, precedence) == extension(s6, e, precedence)) by {
        reveal(expression);
        reveal(if_expression);
        reveal(extension);
    }
}

/// The tokens that spell a plain block behind its opening brace parse to
/// it, and leave the window on the closing brace.
proof fn lemma_block(s: ParserView, stream: Seq<TokenView>, at: int, body: Seq<StmtView>)
    requires
        reading(s, stream, at),
        s.cur.kind() == TokenKind::LBrace,
        spells(stream, at + 1, block_tokens(body, 0)),
        is_plain_block(body),
    ensures
        block(s) == (Some(body), after(s, block_tokens(body, 0).len())),
    decreases body, body.len() + 1,
{
    let nb = block_tokens(body, 0).len() as int;
    lemma_reading_moves(s, stream, at, 0);
    lemma_reading_moves(s, stream, at, 1);
    lemma_after(s, 0);
    let s1 = s.advance();
    assert(after(s, 1) == s1);
    lemma_statements_spelled(s1, stream, at + 1, body, 0);
    lemma_after_sum(s, 1, (nb - 1) as nat);
    lemma_after(s, nb as nat);
    assert(body.skip(0) =~= body);
    assert(block(s) == (Some(body), after(s, nb as nat))) by {
        reveal(block);
        reveal(statements);
    }
}

/// The tokens that spell the statements of a plain block from one of them
/// on parse to these statements, and leave the window on the closing brace.
proof fn lemma_statements_spelled(
    s: ParserView,
    stream: Seq<TokenView>,
    at: int,
    body: Seq<StmtView>,
    from: int,
)
    requires
        reading(s, stream, at),
        0 <= from <= body.len(),
        spells(stream, at, block_tokens(body, from)),
        is_plain_block(body),
    ensures
        block_tokens(body, from).len() > 0,
        statements(s, true) == (
            body.skip(from),
            after(s, (block_tokens(body, from).len() - 1) as nat),
        ),
    decreases body, body.len() - from,
{
    let whole = block_tokens(body, from);
    lemma_spells_each(stream, at, whole);
    lemma_reading_moves(s, stream, at, 0);
    lemma_after(s, 0);
    assert(after(s, 0) == s);
    if from == body.len() {
        assert(stream[at + 0] == whole[0]);
        assert(body.skip(from) =~= Seq::<StmtView>::empty());
        assert(statements(s, true) == (Seq::<StmtView>::empty(), s)) by {
            reveal(statements);
        }
    } else {
        let first = body[from];
        let spelled = stmt_tokens(first);
        let rest = block_tokens(body, from + 1);
        let nt = spelled.len() as int;
        let nr = rest.len() as int;
        assert(is_plain_statement(first));
        assert(whole == spelled + rest);
        if from + 1 < body.len() {
            lemma_first_statement_token(body[from + 1]);
            assert(rest[0] == stmt_tokens(body[from + 1])[0]);
        }
        lemma_first_statement_token(first);
        assert(whole.subrange(0, nt) =~= spelled);
        assert(whole.subrange(nt, nt + nr) =~= rest);
        lemma_spells_part(stream, at, whole, 0, spelled);
        lemma_spells_part(stream, at, whole, nt, rest);
        assert(stream[at + 0] == whole[0]);
        assert(stream[at + nt] == whole[nt]);
        assert(whole[nt] == rest[0]);
        assert(whole[0] == spelled[0]);
        lemma_statement_spelled(s, stream, at, first);
        let s1 = after(s, (nt - 1) as nat);
        let s2 = s1.advance();
        lemma_after(s, (nt - 1) as nat);
        lemma_reading_moves(s, stream, at, nt as nat);
        assert(s2 == after(s, nt as nat));
        lemma_statements_spelled(s2, stream, at + nt, body, from + 1);
        lemma_after_sum(s, nt as nat, (nr - 1) as nat);
        lemma_advance(s);
        lemma_after(s.advance(), (nt - 1) as nat);
        lemma_after_sum(s, 1, (nt - 1) as nat);
        assert(seq![first] + body.skip(from + 1) =~= body.skip(from));
        assert(statements(s, true) == (body.skip(from), after(s, (nt + nr - 1) as nat))) by {
            reveal(statements);
            reveal(statement);
        }
    }
}

/// The tokens that spell a plain statement begin with `let`, `return` or a
/// token that begins an expression.
proof fn lemma_first_statement_token(statement: StmtView)
    requires
        is_plain_statement(statement),
    ensures
        stmt_tokens(statement).len() > 0,
        stmt_tokens(statement)[0].kind() == TokenKind::Let || stmt_tokens(statement)[0].kind()
            == TokenKind::Return || begins_operand(stmt_tokens(statement)[0].kind()),
        statement is Expression ==> begins_operand(stmt_tokens(statement)[0].kind()),
{
    match statement {
        StmtView::Expression(value) => {
            lemma_first_token(value);
        },
        _ => {},
    }
}

/// The tokens that spell a plain statement parse to it, where a closing
/// brace follows a statement that is an expression.
proof fn lemma_statement_spelled(
    s: ParserView,
    stream: Seq<TokenView>,
    at: int,
    spelled: StmtView,
)
    requires
        reading(s, stream, at),
        spells(stream, at, stmt_tokens(spelled)),
        is_plain_statement(spelled),
        at + stmt_tokens(spelled).len() < stream.len(),
        spelled is Expression ==> stream[at + stmt_tokens(spelled).len()].kind()
            == TokenKind::RBrace,
    ensures
        stmt_tokens(spelled).len() > 0,
        statement(s) == (Some(spelled), after(s, (stmt_tokens(spelled).len() - 1) as nat)),
    decreases spelled, 0int,
{
    let whole = stmt_tokens(spelled);
    lemma_spells_each(stream, at, whole);
    lemma_reading_moves(s, stream, at, 0);
    lemma_reading_moves(s, stream, at, 1);
    lemma_reading_moves(s, stream, at, 2);
    lemma_after(s, 0);
    lemma_after(s, 1);
    lemma_after(s, 2);
    assert(after(s, 0) == s);
    let s1 = s.advance();
    assert(after(s, 1) == s1);
    match spelled {
        StmtView::Let(name, value) => {
            let part = expr_tokens(value);
            let nv = part.len() as int;
            assert(whole.subrange(3, 3 + nv) =~= part);
            lemma_spells_part(stream, at, whole, 3, part);
            assert(stream[at + 0] == whole[0] && stream[at + 1] == whole[1] && stream[at + 2]
                == whole[2] && stream[at + 3 + nv] == whole[3 + nv]);
            let s2 = s1.advance();
            let s3 = s2.advance();
            assert(after(s, 2) == s2);
            assert(after(s, 3) == s3);
            lemma_reading_moves(s, stream, at, 3);
            lemma_operand(s3, stream, at + 3, value, Precedence::LOWEST);
            let s4 = after(s3, (nv - 1) as nat);
            lemma_after_sum(s, 3, (nv - 1) as nat);
            lemma_reading_moves(s, stream, at, (nv + 2) as nat);
            lemma_after(s, (nv + 2) as nat);
            assert(s4.peek == symbol_token(TokenKind::Semicolon));
            lemma_extension_stops(s4, value, Precedence::LOWEST);
            assert(expression(s3, Precedence::LOWEST) == (Some(value), s4));
            assert(let_statement(s) == (Some(spelled), s4.advance())) by {
                reveal(let_statement);
                reveal(expression);
            }
            assert(statement(s) == let_statement(s)) by {
                reveal(statement);
                reveal(let_statement);
            }
        },
        StmtView::Return(value) => {
            let part = expr_tokens(value);
            let nv = part.len() as int;
            assert(whole.subrange(1, 1 + nv) =~= part);
            lemma_spells_part(stream, at, whole, 1, part);
            assert(stream[at + 0] == whole[0] && stream[at + 1 + nv] == whole[1 + nv]);
            lemma_operand(s1, stream, at + 1, value, Precedence::LOWEST);
            let s2 = after(s1, (nv - 1) as nat);
            lemma_after_sum(s, 1, (nv - 1) as nat);
            lemma_reading_moves(s, stream, at, nv as nat);
            lemma_after(s, nv as nat);
            assert(s2.peek == symbol_token(TokenKind::Semicolon));
            lemma_extension_stops(s2, value, Precedence::LOWEST);
            assert(expression(s1, Precedence::LOWEST) == (Some(value), s2));
            assert(return_statement(s) == (Some(spelled), s2.advance())) by {
                reveal(return_statement);
                reveal(expression);
            }
            assert(statement(s) == return_statement(s)) by {
                reveal(statement);
                reveal(return_statement);
            }
        },
        StmtView::Expression(value) => {
            let nv = whole.len() as int;
            lemma_first_token(value);
            assert(stream[at + 0] == whole[0]);
            lemma_operand(s, stream, at, value, Precedence::LOWEST);
            let s2 = after(s, (nv - 1) as nat);
            lemma_reading_moves(s, stream, at, (nv - 1) as nat);
            lemma_after(s, (nv - 1) as nat);
            assert(s2.peek == stream[at + nv]);
            lemma_extension_stops(s2, value, Precedence::LOWEST);
            assert(expression(s, Precedence::LOWEST) == (Some(value), s2));
            assert(expression_statement(s) == (Some(spelled), s2)) by {
                reveal(expression_statement);
                reveal(expression);
            }
            assert(statement(s) == expression_statement(s)) by {
                reveal(statement);
                reveal(expression_statement);
            }
        },
    }
}

} // verus!
