//! Laws of the grammar: what holds of every parse.
use vstd::prelude::*;
use crate::ast::{ExprView, Precedence, StmtView};
use crate::grammar::{
    block, call_expression, expectation_message, expression, expression_statement, extension,
    function_literal, grouped_expression, if_expression, infix_expression, lemma_advance,
    lemma_follows_transitive, lemma_steps_follow, let_statement, list, list_rest,
    prefix_expression, program, return_statement, single, statement, statements, ParserView,
};
use crate::token::TokenKind;

verus! {

/// What holds of the outcome `after` of a production that started in
/// `before`: the state follows, and a halted parse has produced nothing.
pub open spec fn settled<T>(before: ParserView, after: (Option<T>, ParserView)) -> bool {
    &&& after.1.follows(before)
    &&& after.1.halted ==> after.0 is None
}

/// The statements of a program or a block leave a state that follows.
pub proof fn lemma_statements(s: ParserView, in_block: bool)
    ensures
        statements(s, in_block).1.follows(s),
    decreases s.remaining(), 10int,
{
    reveal(statements);
    reveal(statement);
    lemma_steps_follow(s, Seq::empty(), TokenKind::Eof);
    if !(s.halted || s.cur.kind() == TokenKind::Eof || (in_block && s.cur.kind()
        == TokenKind::RBrace)) {
        lemma_statement(s);
        let s1 = statement(s).1;
        let s2 = s1.advance();
        lemma_advance(s1);
        lemma_follows_transitive(s, s1, s2);
        if s2.remaining() < s.remaining() {
            lemma_statements(s2, in_block);
            lemma_follows_transitive(s, s2, statements(s2, in_block).1);
        }
    }
}

/// A statement leaves a state that follows, and none comes of a halted parse.
pub proof fn lemma_statement(s: ParserView)
    ensures
        settled(s, statement(s)),
    decreases s.remaining(), 9int,
{
    reveal(statement);
    reveal(let_statement);
    reveal(return_statement);
    reveal(expression_statement);
    if s.cur.kind() == TokenKind::Let {
        lemma_let_statement(s);
    } else if s.cur.kind() == TokenKind::Return {
        lemma_return_statement(s);
    } else {
        lemma_expression_statement(s);
    }
}

/// A binding leaves a state that follows, and none comes of a halted parse.
pub proof fn lemma_let_statement(s: ParserView)
    ensures
        settled(s, let_statement(s)),
    decreases s.remaining(), 8int,
{
    reveal(let_statement);
    reveal(expression);
    lemma_steps_follow(s, Seq::empty(), TokenKind::Ident);
    let (named, s1) = s.expect(TokenKind::Ident);
    if named {
        lemma_steps_follow(s1, Seq::empty(), TokenKind::Assign);
        let (assigned, s2) = s1.expect(TokenKind::Assign);
        lemma_follows_transitive(s, s1, s2);
        if assigned {
            lemma_advance(s2);
            lemma_follows_transitive(s, s2, s2.advance());
            lemma_expression(s2.advance(), Precedence::LOWEST);
            let s3 = expression(s2.advance(), Precedence::LOWEST).1;
            lemma_follows_transitive(s, s2.advance(), s3);
            lemma_steps_follow(s3, Seq::empty(), TokenKind::Eof);
            lemma_advance(s3);
            lemma_follows_transitive(s, s3, s3.close_statement());
        }
    }
}

/// A return leaves a state that follows, and none comes of a halted parse.
pub proof fn lemma_return_statement(s: ParserView)
    ensures
        settled(s, return_statement(s)),
    decreases s.remaining(), 8int,
{
    reveal(return_statement);
    reveal(expression);
    lemma_advance(s);
    lemma_expression(s.advance(), Precedence::LOWEST);
    let s1 = expression(s.advance(), Precedence::LOWEST).1;
    lemma_follows_transitive(s, s.advance(), s1);
    lemma_steps_follow(s1, Seq::empty(), TokenKind::Eof);
    lemma_advance(s1);
    lemma_follows_transitive(s, s1, s1.close_statement());
}

/// An expression statement leaves a state that follows, and none comes of a
/// halted parse.
pub proof fn lemma_expression_statement(s: ParserView)
    ensures
        settled(s, expression_statement(s)),
    decreases s.remaining(), 8int,
{
    reveal(expression_statement);
    reveal(expression);
    lemma_expression(s, Precedence::LOWEST);
    let s1 = expression(s, Precedence::LOWEST).1;
    lemma_steps_follow(s1, Seq::empty(), TokenKind::Eof);
    lemma_advance(s1);
    lemma_follows_transitive(s, s1, s1.close_statement());
}

/// An expression leaves a state that follows, and none comes of a halted parse.
pub proof fn lemma_expression(s: ParserView, precedence: Precedence)
    ensures
        settled(s, expression(s, precedence)),
    decreases s.remaining(), 7int,
{
    reveal(expression);
    reveal(extension);
    reveal(prefix_expression);
    reveal(grouped_expression);
    reveal(if_expression);
    reveal(function_literal);
    lemma_steps_follow(s, Seq::empty(), TokenKind::Eof);
    if !s.halted {
        let (operand, s1) = if s.cur.kind() == TokenKind::Bang || s.cur.kind()
            == TokenKind::Minus {
            lemma_prefix_expression(s, s.cur.kind());
            prefix_expression(s, s.cur.kind())
        } else if s.cur.kind() == TokenKind::LParen {
            lemma_grouped_expression(s);
            grouped_expression(s)
        } else if s.cur.kind() == TokenKind::If {
            lemma_if_expression(s);
            if_expression(s)
        } else if s.cur.kind() == TokenKind::Function {
            lemma_function_literal(s);
            function_literal(s)
        } else {
            (s.registered_operand(), s)
        };
        if let Some(left) = operand {
            lemma_extension(s1, left, precedence);
            lemma_follows_transitive(s, s1, extension(s1, left, precedence).1);
        }
    }
}

/// The growth of an expression to the right leaves a state that follows, and
/// nothing comes of a halted parse.
pub proof fn lemma_extension(s: ParserView, left: ExprView, precedence: Precedence)
    ensures
        settled(s, extension(s, left, precedence)),
    decreases s.remaining(), 5int,
{
    reveal(extension);
    reveal(call_expression);
    reveal(infix_expression);
    lemma_steps_follow(s, Seq::empty(), TokenKind::Eof);
    if !s.halted && s.peek.kind() != TokenKind::Semicolon && precedence.level()
        < crate::grammar::binding(s.peek.kind()).level() && (s.peek.kind() == TokenKind::LParen
        || crate::grammar::is_operator(s.peek.kind())) {
        lemma_advance(s);
        let (grown, s1) = if s.peek.kind() == TokenKind::LParen {
            lemma_call_expression(s.advance(), left);
            call_expression(s.advance(), left)
        } else {
            lemma_infix_expression(s.advance(), s.peek.kind(), left);
            infix_expression(s.advance(), s.peek.kind(), left)
        };
        lemma_follows_transitive(s, s.advance(), s1);
        if let Some(wider) = grown {
            lemma_extension(s1, wider, precedence);
            lemma_follows_transitive(s, s1, extension(s1, wider, precedence).1);
        }
    }
}

/// A prefix expression leaves a state that follows, and none comes of a
/// halted parse.
pub proof fn lemma_prefix_expression(s: ParserView, operator: TokenKind)
    ensures
        settled(s, prefix_expression(s, operator)),
    decreases s.remaining(), (if s.stuck() {
        20int
    } else {
        6int
    }),
{
    reveal(prefix_expression);
    reveal(expression);
    lemma_advance(s);
    lemma_expression(s.advance(), Precedence::PREFIX);
    lemma_follows_transitive(s, s.advance(), expression(s.advance(), Precedence::PREFIX).1);
}

/// A grouped expression leaves a state that follows, and none comes of a
/// halted parse.
pub proof fn lemma_grouped_expression(s: ParserView)
    ensures
        settled(s, grouped_expression(s)),
    decreases s.remaining(), (if s.stuck() {
        20int
    } else {
        6int
    }),
{
    reveal(grouped_expression);
    reveal(expression);
    lemma_advance(s);
    lemma_expression(s.advance(), Precedence::LOWEST);
    let s1 = expression(s.advance(), Precedence::LOWEST).1;
    lemma_follows_transitive(s, s.advance(), s1);
    lemma_steps_follow(s1, Seq::empty(), TokenKind::RParen);
    lemma_follows_transitive(s, s1, s1.expect(TokenKind::RParen).1);
}

/// A conditional leaves a state that follows, and none comes of a halted parse.
pub proof fn lemma_if_expression(s: ParserView)
    ensures
        settled(s, if_expression(s)),
    decreases s.remaining(), 6int,
{
    reveal(if_expression);
    reveal(expression);
    reveal(block);
    lemma_steps_follow(s, Seq::empty(), TokenKind::LParen);
    lemma_advance(s);
    let (opened, s1) = s.expect(TokenKind::LParen);
    if opened {
        lemma_advance(s1);
        lemma_follows_transitive(s, s1, s1.advance());
        lemma_expression(s1.advance(), Precedence::LOWEST);
        let (condition, s2) = expression(s1.advance(), Precedence::LOWEST);
        lemma_follows_transitive(s, s1.advance(), s2);
        if condition is Some {
            lemma_steps_follow(s2, Seq::empty(), TokenKind::RParen);
            let (closed, s3) = s2.expect(TokenKind::RParen);
            lemma_follows_transitive(s, s2, s3);
            if closed {
                lemma_steps_follow(s3, Seq::empty(), TokenKind::LBrace);
                let (braced, s4) = s3.expect(TokenKind::LBrace);
                lemma_follows_transitive(s, s3, s4);
                if braced && s4.remaining() < s.remaining() {
                    lemma_block(s4);
                    lemma_follows_transitive(s, s4, block(s4).1);
                }
            }
        }
    }
}

/// A function literal leaves a state that follows, and none comes of a
/// halted parse.
pub proof fn lemma_function_literal(s: ParserView)
    ensures
        settled(s, function_literal(s)),
    decreases s.remaining(), 6int,
{
    reveal(function_literal);
    reveal(list);
    reveal(block);
    lemma_steps_follow(s, Seq::empty(), TokenKind::LParen);
    lemma_advance(s);
    let (opened, s1) = s.expect(TokenKind::LParen);
    if opened {
        lemma_list(s1);
        let s2 = list(s1).1;
        lemma_follows_transitive(s, s1, s2);
        lemma_steps_follow(s2, Seq::empty(), TokenKind::LBrace);
        let (braced, s3) = s2.expect(TokenKind::LBrace);
        lemma_follows_transitive(s, s2, s3);
        if braced && s3.remaining() < s.remaining() {
            lemma_block(s3);
            lemma_follows_transitive(s, s3, block(s3).1);
        }
    }
}

/// A list leaves a state that follows, and a halted parse yields no element.
pub proof fn lemma_list(s: ParserView)
    ensures
        list(s).1.follows(s),
        list(s).1.halted ==> list(s).0.len() == 0,
    decreases s.remaining(), 12int,
{
    reveal(list);
    reveal(expression);
    reveal(list_rest);
    lemma_advance(s);
    if s.peek.kind() != TokenKind::RParen {
        lemma_expression(s.advance(), Precedence::LOWEST);
        let (first, s1) = expression(s.advance(), Precedence::LOWEST);
        lemma_follows_transitive(s, s.advance(), s1);
        match first {
            None => {
                lemma_steps_follow(s1, Seq::empty(), TokenKind::Eof);
                lemma_follows_transitive(s, s1, s1.fail_element());
            },
            Some(element) => {
                lemma_list_rest(s1, seq![element]);
                lemma_follows_transitive(s, s1, list_rest(s1, seq![element]).1);
            },
        }
    }
}

/// The rest of a list leaves a state that follows, and a halted parse yields
/// no element.
pub proof fn lemma_list_rest(s: ParserView, elements: Seq<ExprView>)
    ensures
        list_rest(s, elements).1.follows(s),
        list_rest(s, elements).1.halted ==> list_rest(s, elements).0.len() == 0,
    decreases s.remaining(), 11int,
{
    reveal(list_rest);
    reveal(expression);
    lemma_advance(s);
    lemma_steps_follow(s, Seq::empty(), TokenKind::RParen);
    if s.peek.kind() == TokenKind::Comma {
        lemma_advance(s.advance());
        lemma_follows_transitive(s, s.advance(), s.advance().advance());
        lemma_expression(s.advance().advance(), Precedence::LOWEST);
        let (next, s1) = expression(s.advance().advance(), Precedence::LOWEST);
        lemma_follows_transitive(s, s.advance().advance(), s1);
        match next {
            None => {
                lemma_steps_follow(s1, Seq::empty(), TokenKind::Eof);
                lemma_follows_transitive(s, s1, s1.fail_element());
            },
            Some(element) => {
                if s1.remaining() < s.remaining() {
                    lemma_list_rest(s1, elements.push(element));
                    lemma_follows_transitive(
                        s,
                        s1,
                        list_rest(s1, elements.push(element)).1,
                    );
                }
            },
        }
    }
}

/// A call leaves a state that follows, and none comes of a halted parse.
pub proof fn lemma_call_expression(s: ParserView, callee: ExprView)
    ensures
        settled(s, call_expression(s, callee)),
    decreases s.remaining(), 13int,
{
    reveal(call_expression);
    reveal(list);
    lemma_list(s);
}

/// An infix expression leaves a state that follows, and none comes of a
/// halted parse.
pub proof fn lemma_infix_expression(s: ParserView, operator: TokenKind, left: ExprView)
    ensures
        settled(s, infix_expression(s, operator, left)),
    decreases s.remaining(), 13int,
{
    reveal(infix_expression);
    reveal(expression);
    lemma_advance(s);
    let precedence = crate::grammar::binding(s.cur.kind());
    lemma_expression(s.advance(), precedence);
    lemma_follows_transitive(s, s.advance(), expression(s.advance(), precedence).1);
}

/// A block leaves a state that follows, and none comes of a halted parse.
pub proof fn lemma_block(s: ParserView)
    ensures
        settled(s, block(s)),
    decreases s.remaining(), 11int,
{
    reveal(block);
    reveal(statements);
    lemma_advance(s);
    lemma_statements(s.advance(), true);
    lemma_follows_transitive(s, s.advance(), statements(s.advance(), true).1);
}

} // verus!

verus! {

/// Statement by statement: where the statements of a program or a block go
/// on, they are the first statement, if it parsed, and the statements from
/// one token behind it on.
pub proof fn lemma_statements_step(s: ParserView, in_block: bool)
    requires
        !s.halted,
        s.cur.kind() != TokenKind::Eof,
        !(in_block && s.cur.kind() == TokenKind::RBrace),
    ensures
        statements(s, in_block) == ({
            let (first, s1) = statement(s);
            let (rest, s2) = statements(s1.advance(), in_block);
            (single(first) + rest, s2)
        }),
{
    reveal(statements);
    reveal(statement);
    lemma_statement(s);
    let (first, s1) = statement(s);
    lemma_advance(s1);
    if s1.halted {
        assert(single(first) + Seq::<StmtView>::empty() =~= single(first));
    }
}

/// A statement that fails to parse is left out, and the parse resumes one
/// token behind the place where it failed.
pub proof fn lemma_failed_statement_is_passed_over(s: ParserView, in_block: bool)
    requires
        !s.halted,
        s.cur.kind() != TokenKind::Eof,
        !(in_block && s.cur.kind() == TokenKind::RBrace),
        statement(s).0 is None,
    ensures
        statements(s, in_block) == statements(statement(s).1.advance(), in_block),
{
    lemma_statements_step(s, in_block);
    let rest = statements(statement(s).1.advance(), in_block).0;
    assert(Seq::<StmtView>::empty() + rest =~= rest);
}

/// A fatal failure ends the parse: once the parse has halted, no statement
/// is produced, no token is read and no diagnostic is recorded.
pub proof fn lemma_halted_parse_is_over(s: ParserView, in_block: bool, precedence: Precedence)
    requires
        s.halted,
    ensures
        statements(s, in_block) == (Seq::<StmtView>::empty(), s),
        program(s) == (Seq::<StmtView>::empty(), s),
        statement(s) == (None::<StmtView>, s),
        expression(s, precedence) == (None::<ExprView>, s),
        s.advance() == s,
{
    reveal(statements);
    reveal(expression);
    lemma_statement(s);
}

/// A statement in which a list element fails to parse yields nothing, and
/// no statement behind it is parsed.
pub proof fn lemma_fatal_failure_ends_statements(s: ParserView, in_block: bool)
    requires
        !s.halted,
        s.cur.kind() != TokenKind::Eof,
        !(in_block && s.cur.kind() == TokenKind::RBrace),
        statement(s).1.halted,
    ensures
        statements(s, in_block) == (Seq::<StmtView>::empty(), statement(s).1),
{
    lemma_statements_step(s, in_block);
    lemma_statement(s);
    lemma_halted_parse_is_over(statement(s).1, in_block, Precedence::LOWEST);
    assert(Seq::<StmtView>::empty() + Seq::<StmtView>::empty() =~= Seq::<StmtView>::empty());
}

/// A binding without a name fails: the failed expectation is recorded, the
/// window stays, and the parse goes on.
pub proof fn lemma_let_without_name(s: ParserView)
    requires
        !s.halted,
        s.peek.kind() != TokenKind::Ident,
    ensures
        let_statement(s) == (
            None::<StmtView>,
            s.report(expectation_message(TokenKind::Ident, s.peek)),
        ),
        !let_statement(s).1.halted,
{
    reveal(let_statement);
}

/// A binding without `=` behind the name fails: the failed expectation is
/// recorded, the window stays on the name, and the parse goes on.
pub proof fn lemma_let_without_assign(s: ParserView)
    requires
        !s.halted,
        s.peek.kind() == TokenKind::Ident,
        s.advance().peek.kind() != TokenKind::Assign,
    ensures
        let_statement(s) == (
            None::<StmtView>,
            s.advance().report(expectation_message(TokenKind::Assign, s.advance().peek)),
        ),
        !let_statement(s).1.halted,
{
    reveal(let_statement);
}

/// An expression between parentheses that is not closed fails, and the
/// failed expectation is the last diagnostic recorded.
pub proof fn lemma_unclosed_group(s: ParserView)
    requires
        !s.halted,
        !expression(s.advance(), Precedence::LOWEST).1.halted,
        expression(s.advance(), Precedence::LOWEST).1.peek.kind() != TokenKind::RParen,
    ensures
        grouped_expression(s).0 is None,
        grouped_expression(s).1 == ({
            let inner = expression(s.advance(), Precedence::LOWEST).1;
            inner.report(expectation_message(TokenKind::RParen, inner.peek))
        }),
{
    reveal(grouped_expression);
    reveal(expression);
}

} // verus!
