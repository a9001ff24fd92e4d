//! The shape of what the parser builds: no node holds the operator that is
//! none, no block is empty, and a conditional holds the same block twice.
use vstd::prelude::*;
use crate::ast::{ExprView, Infix, Precedence, StmtView};
use crate::grammar::{
    binding, block, call_expression, expression, expression_statement, extension,
    function_literal, grouped_expression, if_expression, infix_expression, is_operator,
    let_statement, list, list_rest, prefix_expression, program, return_statement, statement,
    statements, ParserView,
};
use crate::token::TokenKind;

verus! {

/// Whether `e` has the shape of a parsed expression: every binary operator in
/// it is one of the eight, every block in it holds a statement, and every
/// conditional in it has the same block for both branches.
pub open spec fn is_proper(e: ExprView) -> bool
    decreases e,
{
    match e {
        ExprView::Identifier(_) => true,
        ExprView::Integer(_) => true,
        ExprView::Boolean(_) => true,
        ExprView::Not(operand) => is_proper(*operand),
        ExprView::Negate(operand) => is_proper(*operand),
        ExprView::Infix(left, operator, right) => operator != Infix::ILLEGAL && is_proper(*left)
            && is_proper(*right),
        ExprView::If(condition, consequence, alternative) => is_proper(*condition)
            && alternative == consequence && consequence.len() > 0 && all_proper_statements(
            consequence,
        ),
        ExprView::Function(parameters, body) => all_proper(parameters) && body.len() > 0
            && all_proper_statements(body),
        ExprView::Call(callee, arguments) => is_proper(*callee) && all_proper(arguments),
    }
}

/// Whether every expression of `list` has the shape of a parsed expression.
pub open spec fn all_proper(list: Seq<ExprView>) -> bool
    decreases list,
{
    forall|i: int| 0 <= i < list.len() ==> is_proper(#[trigger] list[i])
}

/// Whether `statement` holds an expression of the shape of a parsed one.
pub open spec fn is_proper_statement(statement: StmtView) -> bool
    decreases statement,
{
    match statement {
        StmtView::Let(_, value) => is_proper(value),
        StmtView::Return(value) => is_proper(value),
        StmtView::Expression(value) => is_proper(value),
    }
}

/// Whether every statement of `block` has the shape of a parsed statement.
pub open spec fn all_proper_statements(block: Seq<StmtView>) -> bool
    decreases block,
{
    forall|i: int| 0 <= i < block.len() ==> is_proper_statement(#[trigger] block[i])
}

/// Whether the expression `e`, if there is one, has the shape of a parsed one.
pub open spec fn proper(e: Option<ExprView>) -> bool {
    e matches Some(e) ==> is_proper(e)
}

/// Whether the statement `statement`, if there is one, has the shape of a
/// parsed one.
pub open spec fn proper_statement(statement: Option<StmtView>) -> bool {
    statement matches Some(s) ==> is_proper_statement(s)
}

/// Every statement of a parsed program has the shape of a parsed statement.
pub proof fn lemma_program_is_proper(s: ParserView)
    ensures
        all_proper_statements(program(s).0),
{
    lemma_statements_are_proper(s, false);
}

/// Every statement that the parser reads from a program or a block has the
/// shape of a parsed statement.
pub proof fn lemma_statements_are_proper(s: ParserView, in_block: bool)
    ensures
        all_proper_statements(statements(s, in_block).0),
    decreases s.remaining(), 10int,
{
    reveal(statements);
    reveal(statement);
    if !(s.halted || s.cur.kind() == TokenKind::Eof || (in_block && s.cur.kind()
        == TokenKind::RBrace)) {
        lemma_statement_is_proper(s);
        let (first, s1) = statement(s);
        let s2 = s1.advance();
        if s2.remaining() < s.remaining() {
            lemma_statements_are_proper(s2, in_block);
        }
    }
}

/// A parsed statement has the shape of one.
pub proof fn lemma_statement_is_proper(s: ParserView)
    ensures
        proper_statement(statement(s).0),
    decreases s.remaining(), 9int,
{
    reveal(statement);
    reveal(let_statement);
    reveal(return_statement);
    reveal(expression_statement);
    reveal(expression);
    crate::grammar::lemma_advance_everywhere();
    if s.cur.kind() == TokenKind::Let {
        let (named, s1) = s.expect(TokenKind::Ident);
        if named {
            let (assigned, s2) = s1.expect(TokenKind::Assign);
            if assigned {
                lemma_expression_is_proper(s2.advance(), Precedence::LOWEST);
            }
        }
    } else if s.cur.kind() == TokenKind::Return {
        lemma_expression_is_proper(s.advance(), Precedence::LOWEST);
    } else {
        lemma_expression_is_proper(s, Precedence::LOWEST);
    }
}

/// A parsed expression has the shape of one.
pub proof fn lemma_expression_is_proper(s: ParserView, precedence: Precedence)
    ensures
        proper(expression(s, precedence).0),
    decreases s.remaining(), 7int,
{
    reveal(expression);
    reveal(extension);
    reveal(prefix_expression);
    reveal(grouped_expression);
    reveal(if_expression);
    reveal(function_literal);
    if !s.halted {
        let (operand, s1) = if s.cur.kind() == TokenKind::Bang || s.cur.kind()
            == TokenKind::Minus {
            lemma_prefix_is_proper(s, s.cur.kind());
            prefix_expression(s, s.cur.kind())
        } else if s.cur.kind() == TokenKind::LParen {
            lemma_group_is_proper(s);
            grouped_expression(s)
        } else if s.cur.kind() == TokenKind::If {
            lemma_conditional_is_proper(s);
            if_expression(s)
        } else if s.cur.kind() == TokenKind::Function {
            lemma_function_is_proper(s);
            function_literal(s)
        } else {
            (s.registered_operand(), s)
        };
        if let Some(left) = operand {
            if s1.remaining() <= s.remaining() {
                lemma_extension_is_proper(s1, left, precedence);
            }
        }
    }
}

/// What an expression of the shape of a parsed one grows into has that shape.
pub proof fn lemma_extension_is_proper(s: ParserView, left: ExprView, precedence: Precedence)
    requires
        is_proper(left),
    ensures
        proper(extension(s, left, precedence).0),
    decreases s.remaining(), 5int,
{
    reveal(extension);
    reveal(call_expression);
    reveal(infix_expression);
    crate::grammar::lemma_advance_everywhere();
    if !s.halted && s.peek.kind() != TokenKind::Semicolon && precedence.level() < binding(
        s.peek.kind(),
    ).level() && (s.peek.kind() == TokenKind::LParen || is_operator(s.peek.kind())) {
        let (grown, s1) = if s.peek.kind() == TokenKind::LParen {
            lemma_call_is_proper(s.advance(), left);
            call_expression(s.advance(), left)
        } else {
            lemma_infix_is_proper(s.advance(), s.peek.kind(), left);
            infix_expression(s.advance(), s.peek.kind(), left)
        };
        if let Some(wider) = grown {
            if s1.remaining() < s.remaining() {
                lemma_extension_is_proper(s1, wider, precedence);
            }
        }
    }
}

/// A parsed prefix expression has the shape of a parsed expression.
pub proof fn lemma_prefix_is_proper(s: ParserView, operator: TokenKind)
    ensures
        proper(prefix_expression(s, operator).0),
    decreases s.remaining(), (if s.stuck() {
        20int
    } else {
        6int
    }),
{
    reveal(prefix_expression);
    reveal(expression);
    crate::grammar::lemma_advance_everywhere();
    lemma_expression_is_proper(s.advance(), Precedence::PREFIX);
}

/// A parsed group has the shape of a parsed expression.
pub proof fn lemma_group_is_proper(s: ParserView)
    ensures
        proper(grouped_expression(s).0),
    decreases s.remaining(), (if s.stuck() {
        20int
    } else {
        6int
    }),
{
    reveal(grouped_expression);
    reveal(expression);
    crate::grammar::lemma_advance_everywhere();
    lemma_expression_is_proper(s.advance(), Precedence::LOWEST);
}

/// A parsed conditional has the shape of a parsed expression.
pub proof fn lemma_conditional_is_proper(s: ParserView)
    ensures
        proper(if_expression(s).0),
    decreases s.remaining(), 6int,
{
    reveal(if_expression);
    reveal(expression);
    reveal(block);
    crate::grammar::lemma_advance_everywhere();
    let (opened, s1) = s.expect(TokenKind::LParen);
    if opened {
        lemma_expression_is_proper(s1.advance(), Precedence::LOWEST);
        let (condition, s2) = expression(s1.advance(), Precedence::LOWEST);
        if condition is Some {
            let (closed, s3) = s2.expect(TokenKind::RParen);
            if closed {
                let (braced, s4) = s3.expect(TokenKind::LBrace);
                if braced && s4.remaining() < s.remaining() {
                    lemma_block_is_proper(s4);
                }
            }
        }
    }
}

/// A parsed function literal has the shape of a parsed expression.
pub proof fn lemma_function_is_proper(s: ParserView)
    ensures
        proper(function_literal(s).0),
    decreases s.remaining(), 6int,
{
    reveal(function_literal);
    reveal(list);
    reveal(block);
    crate::grammar::lemma_advance_everywhere();
    let (opened, s1) = s.expect(TokenKind::LParen);
    if opened {
        lemma_list_is_proper(s1);
        let s2 = list(s1).1;
        let (braced, s3) = s2.expect(TokenKind::LBrace);
        if braced && s3.remaining() < s.remaining() {
            lemma_block_is_proper(s3);
        }
    }
}

/// The elements of a parsed list have the shape of parsed expressions.
pub proof fn lemma_list_is_proper(s: ParserView)
    ensures
        all_proper(list(s).0),
    decreases s.remaining(), 12int,
{
    reveal(list);
    reveal(list_rest);
    reveal(expression);
    crate::grammar::lemma_advance_everywhere();
    if s.peek.kind() != TokenKind::RParen {
        lemma_expression_is_proper(s.advance(), Precedence::LOWEST);
        let (first, s1) = expression(s.advance(), Precedence::LOWEST);
        if let Some(element) = first {
            if s1.remaining() <= s.remaining() {
                lemma_list_rest_is_proper(s1, seq![element]);
            }
        }
    }
}

/// The elements of the rest of a parsed list have the shape of parsed
/// expressions, if those before them have.
pub proof fn lemma_list_rest_is_proper(s: ParserView, elements: Seq<ExprView>)
    requires
        all_proper(elements),
    ensures
        all_proper(list_rest(s, elements).0),
    decreases s.remaining(), 11int,
{
    reveal(list_rest);
    reveal(expression);
    crate::grammar::lemma_advance_everywhere();
    if s.peek.kind() == TokenKind::Comma {
        lemma_expression_is_proper(s.advance().advance(), Precedence::LOWEST);
        let (next, s1) = expression(s.advance().advance(), Precedence::LOWEST);
        if let Some(element) = next {
            if s1.remaining() < s.remaining() {
                lemma_list_rest_is_proper(s1, elements.push(element));
            }
        }
    }
}

/// A parsed call has the shape of a parsed expression, if its callee has.
pub proof fn lemma_call_is_proper(s: ParserView, callee: ExprView)
    requires
        is_proper(callee),
    ensures
        proper(call_expression(s, callee).0),
    decreases s.remaining(), 13int,
{
    reveal(call_expression);
    reveal(list);
    lemma_list_is_proper(s);
}

/// A parsed application of a binary operator has the shape of a parsed
/// expression, if its left operand has.
pub proof fn lemma_infix_is_proper(s: ParserView, operator: TokenKind, left: ExprView)
    requires
        is_proper(left),
        is_operator(operator),
    ensures
        proper(infix_expression(s, operator, left).0),
    decreases s.remaining(), 13int,
{
    reveal(infix_expression);
    reveal(expression);
    crate::grammar::lemma_advance_everywhere();
    lemma_expression_is_proper(s.advance(), binding(s.cur.kind()));
}

/// A parsed block holds a statement, and its statements have the shape of
/// parsed statements.
pub proof fn lemma_block_is_proper(s: ParserView)
    ensures
        block(s).0 matches Some(body) ==> body.len() > 0 && all_proper_statements(body),
    decreases s.remaining(), 11int,
{
    reveal(block);
    reveal(statements);
    crate::grammar::lemma_advance_everywhere();
    lemma_statements_are_proper(s.advance(), true);
}

} // verus!
