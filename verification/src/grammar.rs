//! The grammar as mathematics: the state of a parse and, for each production,
//! the tree it yields and the state it leaves.
//!
//! The productions are those of a precedence-climbing parser.  Each one is a
//! function from a state to a result and the state after it; the executable
//! parser is proved to compute exactly these functions.
//!
//! A production that goes on behind another one first compares what remains
//! of the input, so that the definitions are seen to end.  The comparison
//! never fails: every production leaves a state that follows the one it
//! started in, as the module `laws` proves.
use vstd::prelude::*;
use crate::ast::{ExprView, Infix, Precedence, StmtView};
use crate::lexer::{lemma_scan_advances, scan};
use crate::token::{TokenKind, TokenView};

verus! {

/// A function that turns one token into an operand.
#[derive(Debug, PartialEq, Eq, Clone, Copy, Structural)]
pub enum PrefixParser {
    /// The token's literal as an identifier.
    Identifier,
    /// The value of an integer token.
    Integer,
    /// The truth value of a `true` or `false` token.
    Boolean,
}

impl PrefixParser {
    /// The operand that the function makes of `token`, if any.
    pub open spec fn operand(self, token: TokenView) -> Option<ExprView> {
        match self {
            PrefixParser::Identifier => Some(ExprView::Identifier(token.literal)),
            PrefixParser::Integer => if token.kind() == TokenKind::Int {
                Some(ExprView::Integer(token.tokentype.value))
            } else {
                None
            },
            PrefixParser::Boolean => if token.kind() == TokenKind::True {
                Some(ExprView::Boolean(true))
            } else if token.kind() == TokenKind::False {
                Some(ExprView::Boolean(false))
            } else {
                None
            },
        }
    }
}

/// The binding precedence of a token kind in operator position.
pub open spec fn binding(kind: TokenKind) -> Precedence {
    match kind {
        TokenKind::Equal | TokenKind::NotEqual => Precedence::EQUALS,
        TokenKind::Lt | TokenKind::Gt => Precedence::LESSGREATER,
        TokenKind::Plus | TokenKind::Minus => Precedence::SUM,
        TokenKind::Asterisk | TokenKind::Slash => Precedence::PRODUCT,
        TokenKind::LParen => Precedence::CALL,
        _ => Precedence::LOWEST,
    }
}

/// Whether a token of kind `kind` is a binary operator.
pub open spec fn is_operator(kind: TokenKind) -> bool {
    kind == TokenKind::Equal || kind == TokenKind::NotEqual || kind == TokenKind::Gt || kind
        == TokenKind::Lt || kind == TokenKind::Plus || kind == TokenKind::Minus || kind
        == TokenKind::Slash || kind == TokenKind::Asterisk
}

/// The prefix functions that a new parser knows.
pub open spec fn standard_prefixes() -> Map<TokenKind, PrefixParser> {
    Map::<TokenKind, PrefixParser>::empty().insert(
        TokenKind::Ident,
        PrefixParser::Identifier,
    ).insert(TokenKind::Int, PrefixParser::Integer).insert(
        TokenKind::True,
        PrefixParser::Boolean,
    ).insert(TokenKind::False, PrefixParser::Boolean)
}

/// The diagnostic for a token of kind `expected` that was not found before
/// the token `found`.
pub open spec fn expectation_message(expected: TokenKind, found: TokenView) -> Seq<char> {
    "Expected token "@ + expected.label() + " was not found - Found "@ + found.description()
        + " instead"@
}

/// The diagnostic for a list element that is no expression, met at the token `at`.
pub open spec fn element_message(at: TokenView) -> Seq<char> {
    "Could not parse arg in function / "@ + at.description()
}

/// The sequence of the statement `statement`, empty where there is none.
pub open spec fn single(statement: Option<StmtView>) -> Seq<StmtView> {
    match statement {
        Some(s) => seq![s],
        None => Seq::empty(),
    }
}

/// The state of a parse.
pub struct ParserView {
    /// The bytes under the scanner.
    pub source: Seq<u8>,
    /// The position of the scanner, behind the token `peek`.
    pub cursor: nat,
    /// The token under examination.
    pub cur: TokenView,
    /// The token after it.
    pub peek: TokenView,
    /// The diagnostics recorded so far, oldest first.
    pub errors: Seq<Seq<char>>,
    /// Whether a fatal failure has ended the parse.
    pub halted: bool,
    /// The prefix function registered for each token kind that has one.
    pub prefix: Map<TokenKind, PrefixParser>,
}

impl ParserView {
    /// The state of a new parser over `source`: the first two tokens read,
    /// nothing recorded.
    pub open spec fn start(source: Seq<u8>) -> ParserView {
        let first = scan(source, 0);
        let second = scan(source, first.next);
        ParserView {
            source,
            cursor: second.next as nat,
            cur: first.token,
            peek: second.token,
            errors: Seq::empty(),
            halted: false,
            prefix: standard_prefixes(),
        }
    }

    /// A bound on the number of tokens that can still come under examination:
    /// zero exactly when the source is used up and both tokens of the window
    /// are end markers.
    pub open spec fn remaining(self) -> nat {
        if self.cursor < self.source.len() {
            (self.source.len() - self.cursor + 2) as nat
        } else if self.peek.kind() != TokenKind::Eof {
            2
        } else if self.cur.kind() != TokenKind::Eof {
            1
        } else {
            0
        }
    }

    /// Whether the window cannot move: the parse has halted or nothing remains.
    pub open spec fn stuck(self) -> bool {
        self.halted || self.remaining() == 0
    }

    /// The state after the window has moved on by one token.  A halted parse
    /// reads no further token.
    pub open spec fn advance(self) -> ParserView {
        if self.halted {
            self
        } else {
            let step = scan(self.source, self.cursor as int);
            ParserView { cursor: step.next as nat, cur: self.peek, peek: step.token, ..self }
        }
    }

    /// The state after `message` has been recorded.
    pub open spec fn report(self, message: Seq<char>) -> ParserView {
        ParserView { errors: self.errors.push(message), ..self }
    }

    /// Requires a token of kind `kind` next: moves onto it, or else records
    /// the failed expectation and stays.  A halted parse meets no expectation
    /// and records nothing.
    pub open spec fn expect(self, kind: TokenKind) -> (bool, ParserView) {
        if self.halted {
            (false, self)
        } else if self.peek.kind() == kind {
            (true, self.advance())
        } else {
            (false, self.report(expectation_message(kind, self.peek)))
        }
    }

    /// The state after a list element has failed to parse: the failure is
    /// recorded and the parse halts, unless it already has.
    pub open spec fn fail_element(self) -> ParserView {
        if self.halted {
            self
        } else {
            ParserView { halted: true, ..self.report(element_message(self.cur)) }
        }
    }

    /// The state after an optional semicolon behind a statement.
    pub open spec fn close_statement(self) -> ParserView {
        if self.peek.kind() == TokenKind::Semicolon {
            self.advance()
        } else {
            self
        }
    }

    /// The operand that the registered prefix function makes of the current token.
    pub open spec fn registered_operand(self) -> Option<ExprView> {
        if self.prefix.dom().contains(self.cur.kind()) {
            self.prefix[self.cur.kind()].operand(self.cur)
        } else {
            None
        }
    }

    /// Whether `self` can follow `before` in a parse: same source and table,
    /// no more input left than before, the earlier diagnostics kept in order,
    /// and no change at all once the parse has halted.
    pub open spec fn follows(self, before: ParserView) -> bool {
        &&& self.source == before.source
        &&& self.prefix == before.prefix
        &&& self.remaining() <= before.remaining()
        &&& before.errors.is_prefix_of(self.errors)
        &&& before.halted ==> self == before
    }
}

/// Moving the window never adds input, and takes some away unless the window
/// is stuck.
pub proof fn lemma_advance(s: ParserView)
    ensures
        s.advance().remaining() <= s.remaining(),
        !s.stuck() ==> s.advance().remaining() < s.remaining(),
        s.advance().follows(s),
        s.advance().errors == s.errors,
        s.advance().halted == s.halted,
{
    lemma_scan_advances(s.source, s.cursor as int);
}

/// A state that follows one that follows a third follows the third.
pub proof fn lemma_follows_transitive(first: ParserView, second: ParserView, third: ParserView)
    requires
        second.follows(first),
        third.follows(second),
    ensures
        third.follows(first),
{
    assert(first.errors =~= third.errors.subrange(0, first.errors.len() as int)) by {
        assert(first.errors =~= second.errors.subrange(0, first.errors.len() as int));
        assert(second.errors =~= third.errors.subrange(0, second.errors.len() as int));
    }
}

/// Recording a diagnostic, meeting or failing an expectation, halting on a
/// list element and passing an optional semicolon each lead to a state that
/// follows.
pub proof fn lemma_steps_follow(s: ParserView, message: Seq<char>, kind: TokenKind)
    ensures
        !s.halted ==> s.report(message).follows(s),
        s.expect(kind).1.follows(s),
        s.fail_element().follows(s),
        s.close_statement().follows(s),
        s.follows(s),
{
    lemma_advance(s);
    assert(s.errors =~= s.errors.push(message).subrange(0, s.errors.len() as int));
    assert(s.errors =~= s.errors.push(expectation_message(kind, s.peek)).subrange(
        0,
        s.errors.len() as int,
    ));
    assert(s.errors =~= s.errors.push(element_message(s.cur)).subrange(
        0,
        s.errors.len() as int,
    ));
    assert(s.errors =~= s.errors.subrange(0, s.errors.len() as int));
}

/// [`lemma_advance`] of every state.
pub proof fn lemma_advance_everywhere()
    ensures
        forall|s: ParserView| #[trigger]
            s.advance().remaining() <= s.remaining() && (!s.stuck() ==> s.advance().remaining()
                < s.remaining()),
{
    assert forall|s: ParserView| #[trigger]
        s.advance().remaining() <= s.remaining() && (!s.stuck() ==> s.advance().remaining()
            < s.remaining()) by {
        lemma_advance(s);
    }
}

/// The statements from the current token on: up to the end marker, or, inside
/// a block, up to the closing brace.  A statement that fails to parse is
/// left out; one token is passed over between statements.
#[verifier::opaque]
pub open spec fn statements(s: ParserView, in_block: bool) -> (Seq<StmtView>, ParserView)
    decreases s.remaining(), 10int,
{
    if s.halted || s.cur.kind() == TokenKind::Eof || (in_block && s.cur.kind()
        == TokenKind::RBrace) {
        (Seq::empty(), s)
    } else {
        let (first, s1) = statement(s);
        let s2 = s1.advance();
        if s2.remaining() < s.remaining() {
            let (rest, s3) = statements(s2, in_block);
            (single(first) + rest, s3)
        } else {
            (single(first), s2)
        }
    }
}

/// One statement: a binding, a return, or an expression.
#[verifier::opaque]
pub open spec fn statement(s: ParserView) -> (Option<StmtView>, ParserView)
    decreases s.remaining(), 9int,
{
    if s.cur.kind() == TokenKind::Let {
        let_statement(s)
    } else if s.cur.kind() == TokenKind::Return {
        return_statement(s)
    } else {
        expression_statement(s)
    }
}

/// `let` name `=` expression, and an optional semicolon.
#[verifier::opaque]
pub open spec fn let_statement(s: ParserView) -> (Option<StmtView>, ParserView)
    decreases s.remaining(), 8int,
{
    let (named, s1) = s.expect(TokenKind::Ident);
    if !named {
        (None, s1)
    } else {
        let (assigned, s2) = s1.expect(TokenKind::Assign);
        if !assigned {
            (None, s2)
        } else {
            proof {
                lemma_advance_everywhere();
            }
            let (value, s3) = expression(s2.advance(), Precedence::LOWEST);
            (
                match value {
                    Some(v) => Some(StmtView::Let(s1.cur.literal, v)),
                    None => None,
                },
                s3.close_statement(),
            )
        }
    }
}

/// `return` expression, and an optional semicolon.
#[verifier::opaque]
pub open spec fn return_statement(s: ParserView) -> (Option<StmtView>, ParserView)
    decreases s.remaining(), 8int,
{
    proof {
        lemma_advance_everywhere();
    }
    let (value, s1) = expression(s.advance(), Precedence::LOWEST);
    (
        match value {
            Some(v) => Some(StmtView::Return(v)),
            None => None,
        },
        s1.close_statement(),
    )
}

/// An expression, and an optional semicolon.
#[verifier::opaque]
pub open spec fn expression_statement(s: ParserView) -> (Option<StmtView>, ParserView)
    decreases s.remaining(), 8int,
{
    let (value, s1) = expression(s, Precedence::LOWEST);
    (
        match value {
            Some(v) => Some(StmtView::Expression(v)),
            None => None,
        },
        s1.close_statement(),
    )
}

/// An expression whose operators all bind tighter than `precedence`: an
/// operand, extended to the right as far as the operators allow.
#[verifier::opaque]
pub open spec fn expression(s: ParserView, precedence: Precedence) -> (
    Option<ExprView>,
    ParserView,
)
    decreases s.remaining(), 7int,
{
    if s.halted {
        (None, s)
    } else {
        let (operand, s1) = if s.cur.kind() == TokenKind::Bang || s.cur.kind()
            == TokenKind::Minus {
            prefix_expression(s, s.cur.kind())
        } else if s.cur.kind() == TokenKind::LParen {
            grouped_expression(s)
        } else if s.cur.kind() == TokenKind::If {
            if_expression(s)
        } else if s.cur.kind() == TokenKind::Function {
            function_literal(s)
        } else {
            (s.registered_operand(), s)
        };
        match operand {
            None => (None, s1),
            Some(left) => if s1.remaining() <= s.remaining() {
                extension(s1, left, precedence)
            } else {
                (None, s1)
            },
        }
    }
}

/// The expression that `left` grows into: as long as the next token is no
/// semicolon and binds strictly tighter than `precedence`, a call takes `left`
/// as its callee and a binary operator takes it as its left operand.
#[verifier::opaque]
pub open spec fn extension(s: ParserView, left: ExprView, precedence: Precedence) -> (
    Option<ExprView>,
    ParserView,
)
    decreases s.remaining(), 5int,
{
    if s.halted {
        (None, s)
    } else if s.peek.kind() != TokenKind::Semicolon && precedence.level() < binding(
        s.peek.kind(),
    ).level() && (s.peek.kind() == TokenKind::LParen || is_operator(s.peek.kind())) {
        proof {
            lemma_advance_everywhere();
        }
        let (grown, s1) = if s.peek.kind() == TokenKind::LParen {
            call_expression(s.advance(), left)
        } else {
            infix_expression(s.advance(), s.peek.kind(), left)
        };
        match grown {
            None => (None, s1),
            Some(wider) => if s1.remaining() < s.remaining() {
                extension(s1, wider, precedence)
            } else {
                (None, s1)
            },
        }
    } else {
        (Some(left), s)
    }
}

/// A prefix operator, already the current token, and its operand.
#[verifier::opaque]
pub open spec fn prefix_expression(s: ParserView, operator: TokenKind) -> (
    Option<ExprView>,
    ParserView,
)
    decreases s.remaining(), (if s.stuck() {
        20int
    } else {
        6int
    }),
{
    proof {
        lemma_advance_everywhere();
    }
    let (operand, s1) = expression(s.advance(), Precedence::PREFIX);
    (
        match operand {
            Some(right) => if operator == TokenKind::Bang {
                Some(ExprView::Not(Box::new(right)))
            } else if operator == TokenKind::Minus {
                Some(ExprView::Negate(Box::new(right)))
            } else {
                None
            },
            None => None,
        },
        s1,
    )
}

/// An expression between parentheses, the opening one the current token.
#[verifier::opaque]
pub open spec fn grouped_expression(s: ParserView) -> (Option<ExprView>, ParserView)
    decreases s.remaining(), (if s.stuck() {
        20int
    } else {
        6int
    }),
{
    proof {
        lemma_advance_everywhere();
    }
    let (inner, s1) = expression(s.advance(), Precedence::LOWEST);
    let (closed, s2) = s1.expect(TokenKind::RParen);
    (
        if closed {
            inner
        } else {
            None
        },
        s2,
    )
}

/// `if (` condition `) {` block, `if` the current token.  The block stands
/// for both branches of the conditional; an `else` clause is not read.
#[verifier::opaque]
pub open spec fn if_expression(s: ParserView) -> (Option<ExprView>, ParserView)
    decreases s.remaining(), 6int,
{
    let (opened, s1) = s.expect(TokenKind::LParen);
    if !opened {
        (None, s1)
    } else {
        proof {
            lemma_advance_everywhere();
        }
        let (condition, s2) = expression(s1.advance(), Precedence::LOWEST);
        match condition {
            None => (None, s2),
            Some(test) => {
                let (closed, s3) = s2.expect(TokenKind::RParen);
                if !closed {
                    (None, s3)
                } else {
                    let (braced, s4) = s3.expect(TokenKind::LBrace);
                    if !braced {
                        (None, s4)
                    } else if s4.remaining() < s.remaining() {
                        let (body, s5) = block(s4);
                        (
                            match body {
                                Some(b) => Some(ExprView::If(Box::new(test), b, b)),
                                None => None,
                            },
                            s5,
                        )
                    } else {
                        (None, s4)
                    }
                }
            },
        }
    }
}

/// `fn (` parameters `) {` block, `fn` the current token.
#[verifier::opaque]
pub open spec fn function_literal(s: ParserView) -> (Option<ExprView>, ParserView)
    decreases s.remaining(), 6int,
{
    let (opened, s1) = s.expect(TokenKind::LParen);
    if !opened {
        (None, s1)
    } else {
        proof {
            lemma_advance_everywhere();
        }
        let (parameters, s2) = list(s1);
        let (braced, s3) = s2.expect(TokenKind::LBrace);
        if !braced {
            (None, s3)
        } else if s3.remaining() < s.remaining() {
            let (body, s4) = block(s3);
            (
                match body {
                    Some(b) => Some(ExprView::Function(parameters, b)),
                    None => None,
                },
                s4,
            )
        } else {
            (None, s3)
        }
    }
}

/// A list of expressions between parentheses, separated by commas, the
/// opening parenthesis the current token.
///
/// An element that is no expression is fatal: the failure is recorded and the
/// parse halts.  A list that is not closed is recorded and yields no element.
#[verifier::opaque]
pub open spec fn list(s: ParserView) -> (Seq<ExprView>, ParserView)
    decreases s.remaining(), 12int,
{
    proof {
        lemma_advance_everywhere();
    }
    if s.peek.kind() == TokenKind::RParen {
        (Seq::empty(), s.advance())
    } else {
        let (first, s1) = expression(s.advance(), Precedence::LOWEST);
        match first {
            None => (Seq::empty(), s1.fail_element()),
            Some(element) => if s1.remaining() <= s.remaining() {
                list_rest(s1, seq![element])
            } else {
                (Seq::empty(), s1)
            },
        }
    }
}

/// The rest of a list behind the elements `elements`.
#[verifier::opaque]
pub open spec fn list_rest(s: ParserView, elements: Seq<ExprView>) -> (
    Seq<ExprView>,
    ParserView,
)
    decreases s.remaining(), 11int,
{
    if s.peek.kind() == TokenKind::Comma {
        proof {
            lemma_advance_everywhere();
        }
        let (next, s1) = expression(s.advance().advance(), Precedence::LOWEST);
        match next {
            None => (Seq::empty(), s1.fail_element()),
            Some(element) => if s1.remaining() < s.remaining() {
                list_rest(s1, elements.push(element))
            } else {
                (Seq::empty(), s1)
            },
        }
    } else {
        let (closed, s1) = s.expect(TokenKind::RParen);
        (
            if closed {
                elements
            } else {
                Seq::empty()
            },
            s1,
        )
    }
}

/// A call of `callee`, the opening parenthesis of the arguments the current token.
#[verifier::opaque]
pub open spec fn call_expression(s: ParserView, callee: ExprView) -> (
    Option<ExprView>,
    ParserView,
)
    decreases s.remaining(), 13int,
{
    let (arguments, s1) = list(s);
    (
        if s1.halted {
            None
        } else {
            Some(ExprView::Call(Box::new(callee), arguments))
        },
        s1,
    )
}

/// The application of a binary operator of kind `operator` to `left` and to
/// the expression behind the current token, which binds as tight as that
/// token does.
#[verifier::opaque]
pub open spec fn infix_expression(s: ParserView, operator: TokenKind, left: ExprView) -> (
    Option<ExprView>,
    ParserView,
)
    decreases s.remaining(), 13int,
{
    proof {
        lemma_advance_everywhere();
    }
    let (operand, s1) = expression(s.advance(), binding(s.cur.kind()));
    (
        match operand {
            Some(right) => Some(
                ExprView::Infix(Box::new(left), Infix::of_kind(operator), Box::new(right)),
            ),
            None => None,
        },
        s1,
    )
}

/// The statements between braces, the opening brace the current token.  A
/// block without a statement is no block.
#[verifier::opaque]
pub open spec fn block(s: ParserView) -> (Option<Seq<StmtView>>, ParserView)
    decreases s.remaining(), 11int,
{
    proof {
        lemma_advance_everywhere();
    }
    let (body, s1) = statements(s.advance(), true);
    (
        if s1.halted || body.len() == 0 {
            None
        } else {
            Some(body)
        },
        s1,
    )
}

/// The program from the current token on.
pub open spec fn program(s: ParserView) -> (Seq<StmtView>, ParserView) {
    statements(s, false)
}

} // verus!
