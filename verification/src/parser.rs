//! The parser: a two-token window over the scanner and the productions of the
//! grammar, each proved to compute the function of [`crate::grammar`] of the
//! same name.
use vstd::prelude::*;
use crate::ast::{
    exprs_model, stmts_model, BlockStatement, Expr, ExprView, Ident, Infix, Parameters,
    Precedence, Program, Stmt, StmtView,
};
use crate::grammar::{
    binding, block, call_expression, expression, expression_statement, extension,
    function_literal, grouped_expression, if_expression, infix_expression, is_operator,
    lemma_advance, lemma_follows_transitive, lemma_steps_follow, let_statement, list, list_rest,
    prefix_expression, program, return_statement, single, statement, statements, ParserView,
    PrefixParser,
};
use crate::lexer::{lemma_scan_advances, numbers_fit, source_of, Lexer};
use crate::token::{Token, TokenKind, TokenType, KIND_COUNT};

verus! {

/// The view of an expression that may be missing.
pub open spec fn expr_view(e: Option<Expr>) -> Option<ExprView> {
    match e {
        Some(e) => Some(e@),
        None => None,
    }
}

/// The view of a statement that may be missing.
pub open spec fn stmt_view(s: Option<Stmt>) -> Option<StmtView> {
    match s {
        Some(s) => Some(s@),
        None => None,
    }
}

/// The view of a block that may be missing.
pub open spec fn block_view(b: Option<BlockStatement>) -> Option<Seq<StmtView>> {
    match b {
        Some(b) => Some(b@),
        None => None,
    }
}

/// The texts of a list of diagnostics.
pub open spec fn texts(errors: Seq<String>) -> Seq<Seq<char>> {
    errors.map_values(|e: String| e@)
}

/// The registrations that a table indexed by kind holds.
pub open spec fn table_view(table: Seq<Option<PrefixParser>>) -> Map<TokenKind, PrefixParser> {
    Map::new(
        |k: TokenKind| k.slot() < table.len() && table[k.slot()] is Some,
        |k: TokenKind| table[k.slot()]->0,
    )
}

/// The identifier that a token's literal names.
pub fn parse_identifier(token: Token) -> (e: Option<Expr>)
    ensures
        expr_view(e) == PrefixParser::Identifier.operand(token@),
{
    Some(Expr::IDENTIFIER(Ident(token.literal)))
}

/// The integer literal that an integer token carries; nothing for another token.
pub fn parse_integer(token: Token) -> (e: Option<Expr>)
    ensures
        expr_view(e) == PrefixParser::Integer.operand(token@),
{
    if let TokenType::INT(int_value) = token.tokentype {
        Some(Expr::INTEGER(int_value))
    } else {
        None
    }
}

/// The truth value that a `true` or `false` token names; nothing for another token.
pub fn parse_boolean(token: Token) -> (e: Option<Expr>)
    ensures
        expr_view(e) == PrefixParser::Boolean.operand(token@),
{
    match token.tokentype {
        TokenType::TRUE => Some(Expr::BOOLEAN(true)),
        TokenType::FALSE => Some(Expr::BOOLEAN(false)),
        _ => None,
    }
}

impl PrefixParser {
    /// Applies the function to `token`.
    pub fn apply(self, token: Token) -> (e: Option<Expr>)
        ensures
            expr_view(e) == self.operand(token@),
    {
        match self {
            PrefixParser::Identifier => parse_identifier(token),
            PrefixParser::Integer => parse_integer(token),
            PrefixParser::Boolean => parse_boolean(token),
        }
    }
}

/// The binding precedence of each token kind, as a table indexed by kind.
fn standard_precedences() -> (table: Vec<Precedence>)
    ensures
        table.len() == KIND_COUNT,
        forall|k: TokenKind| table@[k.slot()] == #[trigger] binding(k),
{
    let mut table: Vec<Precedence> = Vec::new();
    let mut i: usize = 0;
    while i < KIND_COUNT
        invariant
            i <= KIND_COUNT,
            table.len() == i,
            forall|j: int| 0 <= j < i ==> table@[j] == Precedence::LOWEST,
        decreases KIND_COUNT - i,
    {
        table.push(Precedence::LOWEST);
        i += 1;
    }
    table.set(TokenKind::Equal.index(), Precedence::EQUALS);
    table.set(TokenKind::NotEqual.index(), Precedence::EQUALS);
    table.set(TokenKind::Lt.index(), Precedence::LESSGREATER);
    table.set(TokenKind::Gt.index(), Precedence::LESSGREATER);
    table.set(TokenKind::Plus.index(), Precedence::SUM);
    table.set(TokenKind::Minus.index(), Precedence::SUM);
    table.set(TokenKind::Asterisk.index(), Precedence::PRODUCT);
    table.set(TokenKind::Slash.index(), Precedence::PRODUCT);
    table.set(TokenKind::LParen.index(), Precedence::CALL);
    table
}

/// A table indexed by kind without any registration.
fn no_prefixes() -> (table: Vec<Option<PrefixParser>>)
    ensures
        table.len() == KIND_COUNT,
        table_view(table@) == Map::<TokenKind, PrefixParser>::empty(),
{
    let mut table: Vec<Option<PrefixParser>> = Vec::new();
    let mut i: usize = 0;
    while i < KIND_COUNT
        invariant
            i <= KIND_COUNT,
            table.len() == i,
            forall|j: int| 0 <= j < i ==> table@[j] is None,
        decreases KIND_COUNT - i,
    {
        table.push(None);
        i += 1;
    }
    assert(table_view(table@) =~= Map::<TokenKind, PrefixParser>::empty());
    table
}

/// A parser over one source text: a scanner, a window of two tokens on what
/// it reads, the diagnostics recorded so far and the tables of prefix
/// functions and precedences.
///
/// A statement that fails to parse is left out of the program and the parse
/// goes on behind it.  A list element that fails to parse is fatal: the
/// parser records it and halts, and from then on it reads no token, records
/// nothing and produces nothing.
pub struct Parser {
    lexer: Lexer,
    cur_token: Token,
    peek_token: Token,
    errors: Vec<String>,
    halted: bool,
    prefix_parsers: Vec<Option<PrefixParser>>,
    precedences: Vec<Precedence>,
}

impl View for Parser {
    type V = ParserView;

    closed spec fn view(&self) -> ParserView {
        ParserView {
            source: self.lexer.source(),
            cursor: self.lexer.cursor(),
            cur: self.cur_token@,
            peek: self.peek_token@,
            errors: texts(self.errors@),
            halted: self.halted,
            prefix: table_view(self.prefix_parsers@),
        }
    }
}

impl Parser {
    /// The scanner is well formed and the tables cover every token kind.
    pub closed spec fn wf(&self) -> bool {
        &&& self.lexer.wf()
        &&& self.prefix_parsers.len() == KIND_COUNT
        &&& self.precedences.len() == KIND_COUNT
        &&& forall|k: TokenKind| self.precedences@[k.slot()] == #[trigger] binding(k)
    }

    /// A parser at the start of `input`, with the first two tokens read and
    /// prefix functions for identifiers, integers and truth values.
    pub fn new(input: String) -> (parser: Parser)
        requires
            numbers_fit(source_of(input@)),
        ensures
            parser.wf(),
            parser@ == ParserView::start(source_of(input@)),
    {
        let mut my_parser = Parser {
            lexer: Lexer::new(input),
            cur_token: Token::new(TokenType::ILLEGAL, String::new()),
            peek_token: Token::new(TokenType::ILLEGAL, String::new()),
            errors: Vec::new(),
            halted: false,
            prefix_parsers: no_prefixes(),
            precedences: standard_precedences(),
        };
        assert(texts(my_parser.errors@) =~= Seq::<Seq<char>>::empty());
        my_parser.add_prefix_parser(TokenKind::Ident, PrefixParser::Identifier);
        my_parser.add_prefix_parser(TokenKind::Int, PrefixParser::Integer);
        my_parser.add_prefix_parser(TokenKind::True, PrefixParser::Boolean);
        my_parser.add_prefix_parser(TokenKind::False, PrefixParser::Boolean);
        my_parser.next_token();
        my_parser.next_token();
        proof {
            lemma_scan_advances(source_of(input@), 0);
        }
        my_parser
    }

    /// The binding precedence of the current token.
    pub fn cur_precedence(&mut self) -> (p: Precedence)
        requires
            old(self).wf(),
        ensures
            *final(self) == *old(self),
            p == binding(old(self)@.cur.kind()),
    {
        self.precedences[self.cur_token.tokentype.kind().index()]
    }

    /// The binding precedence of the next token.
    pub fn peek_precedence(&mut self) -> (p: Precedence)
        requires
            old(self).wf(),
        ensures
            *final(self) == *old(self),
            p == binding(old(self)@.peek.kind()),
    {
        self.precedences[self.peek_token.tokentype.kind().index()]
    }

    /// Registers `parser` as the prefix function for tokens of kind `kind`,
    /// in place of any earlier one.
    pub fn add_prefix_parser(&mut self, kind: TokenKind, parser: PrefixParser)
        requires
            old(self).wf(),
        ensures
            final(self).wf(),
            final(self)@ == (ParserView {
                prefix: old(self)@.prefix.insert(kind, parser),
                ..old(self)@
            }),
    {
        self.prefix_parsers.set(kind.index(), Some(parser));
        proof {
            assert forall|k: TokenKind| k.slot() == kind.slot() implies k == kind by {
                crate::token::lemma_slot_is_injective(k, kind);
            }
            assert(table_view(self.prefix_parsers@) =~= table_view(
                old(self).prefix_parsers@,
            ).insert(kind, parser));
        }
    }

    /// Whether any diagnostic has been recorded.
    pub fn has_errors(&self) -> (any: bool)
        ensures
            any == (self@.errors.len() > 0),
    {
        self.errors.len() > 0
    }

    /// Whether a fatal failure has ended the parse.
    pub fn halted(&self) -> (halted: bool)
        ensures
            halted == self@.halted,
    {
        self.halted
    }

    /// Records the diagnostic `error`.
    pub fn add_error(&mut self, error: String)
        requires
            old(self).wf(),
        ensures
            final(self).wf(),
            final(self)@ == old(self)@.report(error@),
    {
        self.errors.push(error);
        assert(texts(self.errors@) =~= texts(old(self).errors@).push(error@));
    }

    /// The diagnostics recorded so far, oldest first.
    pub fn get_errors(&self) -> (errors: Vec<String>)
        ensures
            texts(errors@) == self@.errors,
    {
        let mut errors: Vec<String> = Vec::new();
        let mut i: usize = 0;
        while i < self.errors.len()
            invariant
                i <= self.errors.len(),
                errors.len() == i,
                forall|j: int| 0 <= j < i ==> errors@[j]@ == self.errors@[j]@,
            decreases self.errors.len() - i,
        {
            errors.push(self.errors[i].clone());
            i += 1;
        }
        assert(texts(errors@) =~= texts(self.errors@));
        errors
    }

    /// Moves the window on by one token: the next token becomes the current
    /// one and a new token is read.  A halted parser reads nothing.
    pub fn next_token(&mut self)
        requires
            old(self).wf(),
        ensures
            final(self).wf(),
            final(self)@ == old(self)@.advance(),
            final(self)@.follows(old(self)@),
    {
        proof {
            lemma_advance(self@);
        }
        if !self.halted {
            let token = self.lexer.nextToken();
            self.cur_token = self.peek_token.clone();
            self.peek_token = token;
        }
    }

    /// Whether the current token has the shape of `t`, whatever either carries.
    pub fn cur_token_is(&self, t: &TokenType) -> (same: bool)
        ensures
            same == (self@.cur.kind() == t.shape()),
    {
        self.cur_token.tokentype.kind() == t.kind()
    }

    /// Whether the next token has the shape of `t`, whatever either carries.
    pub fn peek_token_is(&self, t: &TokenType) -> (same: bool)
        ensures
            same == (self@.peek.kind() == t.shape()),
    {
        self.peek_token.tokentype.kind() == t.kind()
    }

    /// Whether a token of type `tok` continues an expression: a binary
    /// operator or an opening parenthesis.
    pub fn is_infixable(&self, tok: &TokenType) -> (infixable: bool)
        ensures
            infixable == (is_operator(tok.shape()) || tok.shape() == TokenKind::LParen),
    {
        match tok {
            TokenType::EQUAL
            | TokenType::NOTEQUAL
            | TokenType::GT
            | TokenType::LT
            | TokenType::PLUS
            | TokenType::MINUS
            | TokenType::SLASH
            | TokenType::ASTERISK
            | TokenType::LPAREN => true,
            _ => false,
        }
    }

    /// Requires the next token to have the shape of `t`: moves onto it, or
    /// else records what was expected and what was found, and stays.  A
    /// halted parser meets no expectation and records nothing.
    pub fn expect_next_token(&mut self, t: &TokenType) -> (met: bool)
        requires
            old(self).wf(),
        ensures
            final(self).wf(),
            (met, final(self)@) == old(self)@.expect(t.shape()),
            final(self)@.follows(old(self)@),
    {
        if self.halted {
            false
        } else if self.peek_token.tokentype.kind() == t.kind() {
            self.next_token();
            true
        } else {
            let mut message = String::from_str("Expected token ");
            let expected = t.kind().name();
            message.append(expected.as_str());
            message.append(" was not found - Found ");
            let found = self.peek_token.describe();
            message.append(found.as_str());
            message.append(" instead");
            self.add_error(message);
            false
        }
    }

    /// Halts the parse on a list element that is no expression: records the
    /// failure and the token it was met at.  A halted parser stays as it is.
    fn fail_element(&mut self)
        requires
            old(self).wf(),
        ensures
            final(self).wf(),
            final(self)@ == old(self)@.fail_element(),
            final(self)@.follows(old(self)@),
    {
        proof {
            lemma_steps_follow(self@, Seq::empty(), TokenKind::Eof);
        }
        if !self.halted {
            let mut message = String::from_str("Could not parse arg in function / ");
            let at = self.cur_token.describe();
            message.append(at.as_str());
            self.add_error(message);
            self.halted = true;
        }
    }

    /// Passes the semicolon that may end a statement.
    fn close_statement(&mut self)
        requires
            old(self).wf(),
        ensures
            final(self).wf(),
            final(self)@ == old(self)@.close_statement(),
            final(self)@.follows(old(self)@),
    {
        proof {
            lemma_steps_follow(self@, Seq::empty(), TokenKind::Eof);
        }
        if self.peek_token_is(&TokenType::SEMICOLON) {
            self.next_token();
        }
    }

    /// Whether the expression parsed so far extends to the right: the parse
    /// goes on, the next token is no semicolon, it binds strictly tighter
    /// than `precedence`, and it is a binary operator or opens a call.
    fn extends(&mut self, precedence: Precedence) -> (more: bool)
        requires
            old(self).wf(),
        ensures
            *final(self) == *old(self),
            more == (!old(self)@.halted && old(self)@.peek.kind() != TokenKind::Semicolon
                && precedence.level() < binding(old(self)@.peek.kind()).level() && (old(
                self,
            )@.peek.kind() == TokenKind::LParen || is_operator(old(self)@.peek.kind()))),
    {
        if self.halted || self.peek_token_is(&TokenType::SEMICOLON) {
            return false;
        }
        let next = self.peek_precedence();
        precedence.below(next) && self.is_infixable(&self.peek_token.tokentype)
    }

    /// Parses the statements up to the end marker, or, inside a block, up to
    /// the closing brace.
    fn parse_statements(&mut self, in_block: bool) -> (stmts: Vec<Stmt>)
        requires
            old(self).wf(),
        ensures
            final(self).wf(),
            (stmts_model(stmts@), final(self)@) == statements(old(self)@, in_block),
            final(self)@.follows(old(self)@),
        decreases old(self)@.remaining(), 10int,
    {
        proof {
            reveal(statements);
            reveal(statement);
        }
        let mut stmts: Vec<Stmt> = Vec::new();
        proof {
            lemma_steps_follow(self@, Seq::empty(), TokenKind::Eof);
            assert(stmts_model(stmts@) =~= Seq::<StmtView>::empty());
        }
        while !self.halted && !self.cur_token_is(&TokenType::EOF) && !(in_block
            && self.cur_token_is(&TokenType::RBRACE))
            invariant
                self.wf(),
                self@.follows(old(self)@),
                statements(old(self)@, in_block).0 == stmts_model(stmts@) + statements(
                    self@,
                    in_block,
                ).0,
                statements(old(self)@, in_block).1 == statements(self@, in_block).1,
            decreases
                    (if self@.halted {
                        0
                    } else {
                        self@.remaining() + 1
                    }),
        {
            proof {
                reveal(statements);
                reveal(statement);
            }
            let ghost before = self@;
            let ghost done = stmts_model(stmts@);
            let parsed = self.parse_statement();
            let ghost first = stmt_view(parsed);
            let ghost s1 = self@;
            if let Some(st) = parsed {
                stmts.push(st);
            }
            self.next_token();
            proof {
                lemma_advance(s1);
                lemma_follows_transitive(old(self)@, before, s1);
                lemma_follows_transitive(old(self)@, s1, self@);
                assert(stmts_model(stmts@) =~= done + single(first));
                if self@.remaining() < before.remaining() {
                    assert(done + (single(first) + statements(self@, in_block).0) =~= (done
                        + single(first)) + statements(self@, in_block).0);
                } else {
                    assert(s1.halted);
                    assert(statements(self@, in_block).0 =~= Seq::<StmtView>::empty());
                    assert(done + single(first) =~= (done + single(first)) + Seq::<
                        StmtView,
                    >::empty());
                }
            }
        }
        proof {
            assert(stmts_model(stmts@) + Seq::<StmtView>::empty() =~= stmts_model(stmts@));
        }
        stmts
    }

    /// Parses the program from the current token to the end marker.  A
    /// statement that fails to parse is left out, and the parse goes on behind
    /// it; a fatal failure ends the parse.
    pub fn parseprogramm(&mut self) -> (myp: Program)
        requires
            old(self).wf(),
        ensures
            final(self).wf(),
            (stmts_model(myp@), final(self)@) == program(old(self)@),
            final(self)@.follows(old(self)@),
    {
        self.parse_statements(false)
    }

    /// Parses one statement: a binding, a return or an expression.
    pub fn parse_statement(&mut self) -> (st: Option<Stmt>)
        requires
            old(self).wf(),
        ensures
            final(self).wf(),
            (stmt_view(st), final(self)@) == statement(old(self)@),
            final(self)@.follows(old(self)@),
            final(self)@.halted ==> st is None,
        decreases old(self)@.remaining(), 9int,
    {
        proof {
            reveal(statement);
            reveal(let_statement);
            reveal(return_statement);
            reveal(expression_statement);
        }
        let kind = self.cur_token.tokentype.kind();
        if kind == TokenKind::Let {
            self.parse_let_statement()
        } else if kind == TokenKind::Return {
            self.parse_return_statement()
        } else {
            self.parse_expression_statement()
        }
    }

    /// Parses a binding: `let`, a name, `=`, an expression and an optional
    /// semicolon.
    pub fn parse_let_statement(&mut self) -> (st: Option<Stmt>)
        requires
            old(self).wf(),
        ensures
            final(self).wf(),
            (stmt_view(st), final(self)@) == let_statement(old(self)@),
            final(self)@.follows(old(self)@),
            final(self)@.halted ==> st is None,
        decreases old(self)@.remaining(), 8int,
    {
        proof {
            reveal(let_statement);
            reveal(expression);
        }
        if !self.expect_next_token(&TokenType::IDENT(String::new())) {
            return None;
        }
        let ghost s1 = self@;
        let var_name: String = self.cur_token.literal.clone();
        if !self.expect_next_token(&TokenType::ASSIGN) {
            proof {
                lemma_follows_transitive(old(self)@, s1, self@);
            }
            return None;
        }
        let ghost s2 = self@;
        self.next_token();
        let ghost s2a = self@;
        let value = self.parse_expression(Precedence::LOWEST);
        let ghost s3 = self@;
        self.close_statement();
        proof {
            lemma_follows_transitive(old(self)@, s1, s2);
            lemma_follows_transitive(old(self)@, s2, s2a);
            lemma_follows_transitive(old(self)@, s2a, s3);
            lemma_follows_transitive(old(self)@, s3, self@);
        }
        match value {
            Some(v) => Some(Stmt::LET(Ident(var_name), v)),
            None => None,
        }
    }

    /// Parses a return: `return`, an expression and an optional semicolon.
    pub fn parse_return_statement(&mut self) -> (st: Option<Stmt>)
        requires
            old(self).wf(),
        ensures
            final(self).wf(),
            (stmt_view(st), final(self)@) == return_statement(old(self)@),
            final(self)@.follows(old(self)@),
            final(self)@.halted ==> st is None,
        decreases old(self)@.remaining(), 8int,
    {
        proof {
            reveal(return_statement);
            reveal(expression);
        }
        self.next_token();
        let ghost s1 = self@;
        let value = self.parse_expression(Precedence::LOWEST);
        let ghost s2 = self@;
        self.close_statement();
        proof {
            lemma_follows_transitive(old(self)@, s1, s2);
            lemma_follows_transitive(old(self)@, s2, self@);
        }
        match value {
            Some(v) => Some(Stmt::RETURN(v)),
            None => None,
        }
    }

    /// Parses an expression and an optional semicolon.
    pub fn parse_expression_statement(&mut self) -> (st: Option<Stmt>)
        requires
            old(self).wf(),
        ensures
            final(self).wf(),
            (stmt_view(st), final(self)@) == expression_statement(old(self)@),
            final(self)@.follows(old(self)@),
            final(self)@.halted ==> st is None,
        decreases old(self)@.remaining(), 8int,
    {
        proof {
            reveal(expression_statement);
            reveal(expression);
        }
        let value = self.parse_expression(Precedence::LOWEST);
        let ghost s1 = self@;
        self.close_statement();
        proof {
            lemma_follows_transitive(old(self)@, s1, self@);
        }
        match value {
            Some(v) => Some(Stmt::EXPRESSION(v)),
            None => None,
        }
    }

    /// Parses an expression whose operators all bind tighter than
    /// `precedence`: an operand, extended to the right by calls and binary
    /// operators as long as the next token binds strictly tighter.
    pub fn parse_expression(&mut self, precedence: Precedence) -> (e: Option<Expr>)
        requires
            old(self).wf(),
        ensures
            final(self).wf(),
            (expr_view(e), final(self)@) == expression(old(self)@, precedence),
            final(self)@.follows(old(self)@),
            final(self)@.halted ==> e is None,
        decreases old(self)@.remaining(), 7int,
    {
        proof {
            reveal(expression);
            reveal(extension);
            reveal(prefix_expression);
            reveal(grouped_expression);
            reveal(if_expression);
            reveal(function_literal);
        }
        proof {
            lemma_steps_follow(self@, Seq::empty(), TokenKind::Eof);
        }
        if self.halted {
            return None;
        }
        let kind = self.cur_token.tokentype.kind();
        let operand = match kind {
            TokenKind::Bang | TokenKind::Minus => {
                let operator = self.cur_token.tokentype.clone();
                self.parse_prefix_expression(operator)
            },
            TokenKind::LParen => self.parse_grouped_expression(),
            TokenKind::If => self.parse_if_expression(),
            TokenKind::Function => self.parse_function_literal(),
            _ => match self.prefix_parsers[kind.index()] {
                Some(prefix) => prefix.apply(self.cur_token.clone()),
                None => None,
            },
        };
        let mut left = match operand {
            Some(left) => left,
            None => {
                return None;
            },
        };
        let ghost base = self@;
        let ghost seed = left@;
        while self.extends(precedence)
            invariant
                self.wf(),
                self@.follows(old(self)@),
                !self@.halted,
                expression(old(self)@, precedence) == extension(base, seed, precedence),
                extension(self@, left@, precedence) == extension(base, seed, precedence),
            decreases self@.remaining(),
        {
            let ghost before = self@;
            proof {
                reveal(extension);
                reveal(call_expression);
                reveal(infix_expression);
                lemma_advance(before);
            }
            let grown = if self.peek_token_is(&TokenType::LPAREN) {
                self.next_token();
                self.parse_call_expression(left)
            } else {
                self.next_token();
                let operator = self.cur_token.clone();
                self.parse_infix_expression(operator, left)
            };
            proof {
                lemma_follows_transitive(before, before.advance(), self@);
                lemma_follows_transitive(old(self)@, before, self@);
            }
            match grown {
                Some(wider) => {
                    left = wider;
                },
                None => {
                    return None;
                },
            }
        }
        Some(left)
    }

    /// Parses the operand of the prefix operator `token`, which is the
    /// current token, and applies the operator to it.
    pub fn parse_prefix_expression(&mut self, token: TokenType) -> (e: Option<Expr>)
        requires
            old(self).wf(),
        ensures
            final(self).wf(),
            (expr_view(e), final(self)@) == prefix_expression(old(self)@, token.shape()),
            final(self)@.follows(old(self)@),
            final(self)@.halted ==> e is None,
        decreases old(self)@.remaining(), (if old(self)@.stuck() {
            20int
        } else {
            6int
        }),
    {
        proof {
            reveal(prefix_expression);
            reveal(expression);
        }
        proof {
            lemma_advance(self@);
        }
        self.next_token();
        let ghost s1 = self@;
        let operand = self.parse_expression(Precedence::PREFIX);
        proof {
            lemma_follows_transitive(old(self)@, s1, self@);
        }
        if let Some(right_exp) = operand {
            match token {
                TokenType::BANG => Some(Expr::BANG(Box::new(right_exp))),
                TokenType::MINUS => Some(Expr::MINUS(Box::new(right_exp))),
                _ => None,
            }
        } else {
            None
        }
    }

    /// Parses an expression between parentheses; the opening parenthesis is
    /// the current token.  A missing closing parenthesis is recorded.
    pub fn parse_grouped_expression(&mut self) -> (e: Option<Expr>)
        requires
            old(self).wf(),
        ensures
            final(self).wf(),
            (expr_view(e), final(self)@) == grouped_expression(old(self)@),
            final(self)@.follows(old(self)@),
            final(self)@.halted ==> e is None,
        decreases old(self)@.remaining(), (if old(self)@.stuck() {
            20int
        } else {
            6int
        }),
    {
        proof {
            reveal(grouped_expression);
            reveal(expression);
        }
        proof {
            lemma_advance(self@);
        }
        self.next_token();
        let ghost s1 = self@;
        let exp = self.parse_expression(Precedence::LOWEST);
        let ghost s2 = self@;
        let closed = self.expect_next_token(&TokenType::RPAREN);
        proof {
            lemma_follows_transitive(old(self)@, s1, s2);
            lemma_follows_transitive(old(self)@, s2, self@);
        }
        if !closed {
            None
        } else {
            exp
        }
    }

    /// Parses a conditional: `if`, a condition between parentheses and a
    /// block; `if` is the current token.  The block becomes both branches of
    /// the conditional, and an `else` clause is not read.
    #[verifier::rlimit(50)]
    pub fn parse_if_expression(&mut self) -> (e: Option<Expr>)
        requires
            old(self).wf(),
        ensures
            final(self).wf(),
            (expr_view(e), final(self)@) == if_expression(old(self)@),
            final(self)@.follows(old(self)@),
            final(self)@.halted ==> e is None,
        decreases old(self)@.remaining(), 6int,
    {
        proof {
            reveal(if_expression);
            reveal(expression);
            reveal(block);
        }
        proof {
            lemma_advance(self@);
        }
        if !self.expect_next_token(&TokenType::LPAREN) {
            return None;
        }
        let ghost s1 = self@;
        self.next_token();
        let ghost s1a = self@;
        let condition = self.parse_expression(Precedence::LOWEST);
        let ghost s2 = self@;
        proof {
            lemma_follows_transitive(old(self)@, s1, s1a);
            lemma_follows_transitive(old(self)@, s1a, s2);
        }
        match condition {
            Some(condition) => {
                if !self.expect_next_token(&TokenType::RPAREN) {
                    proof {
                        lemma_follows_transitive(old(self)@, s2, self@);
                    }
                    return None;
                }
                let ghost s3 = self@;
                if !self.expect_next_token(&TokenType::LBRACE) {
                    proof {
                        lemma_follows_transitive(old(self)@, s2, s3);
                        lemma_follows_transitive(old(self)@, s3, self@);
                    }
                    return None;
                }
                let ghost s4 = self@;
                proof {
                    lemma_follows_transitive(old(self)@, s2, s3);
                    lemma_follows_transitive(old(self)@, s3, s4);
                }
                let conseq = self.parse_block_statement();
                proof {
                    lemma_follows_transitive(old(self)@, s4, self@);
                }
                match conseq {
                    Some(conseq) => {
                        let alternative = conseq.clone();
                        Some(Expr::IF(Box::new(condition), conseq, alternative))
                    },
                    None => None,
                }
            },
            None => None,
        }
    }

    /// Parses a function literal: `fn`, a parameter list and a block; `fn` is
    /// the current token.
    #[verifier::rlimit(50)]
    pub fn parse_function_literal(&mut self) -> (e: Option<Expr>)
        requires
            old(self).wf(),
        ensures
            final(self).wf(),
            (expr_view(e), final(self)@) == function_literal(old(self)@),
            final(self)@.follows(old(self)@),
            final(self)@.halted ==> e is None,
        decreases old(self)@.remaining(), 6int,
    {
        proof {
            reveal(function_literal);
            reveal(list);
            reveal(block);
        }
        proof {
            lemma_advance(self@);
        }
        if !self.expect_next_token(&TokenType::LPAREN) {
            return None;
        }
        let ghost s1 = self@;
        let param_list = self.parse_function_params();
        let ghost s2 = self@;
        proof {
            lemma_follows_transitive(old(self)@, s1, s2);
        }
        if !self.expect_next_token(&TokenType::LBRACE) {
            proof {
                lemma_follows_transitive(old(self)@, s2, self@);
            }
            return None;
        }
        let ghost s3 = self@;
        proof {
            lemma_follows_transitive(old(self)@, s2, s3);
        }
        let blck_stmt = self.parse_block_statement();
        proof {
            lemma_follows_transitive(old(self)@, s3, self@);
        }
        if let Some(block) = blck_stmt {
            Some(Expr::FUNC(param_list, block))
        } else {
            None
        }
    }

    /// Parses a list of expressions between parentheses, separated by commas:
    /// the parameters of a function literal or the arguments of a call.  The
    /// opening parenthesis is the current token.
    ///
    /// An element that is no expression is fatal: the failure is recorded and
    /// the parser halts.  A list that is not closed is recorded and comes back
    /// empty.
    pub fn parse_function_params(&mut self) -> (params: Parameters)
        requires
            old(self).wf(),
        ensures
            final(self).wf(),
            (params@, final(self)@) == list(old(self)@),
            final(self)@.follows(old(self)@),
        decreases old(self)@.remaining(), 12int,
    {
        proof {
            reveal(list);
            reveal(list_rest);
            reveal(expression);
        }
        let mut param_list: Vec<Expr> = Vec::new();
        proof {
            lemma_advance(self@);
            assert(exprs_model(param_list@) =~= Seq::<ExprView>::empty());
        }
        if self.peek_token_is(&TokenType::RPAREN) {
            self.next_token();
            return Parameters(param_list);
        }
        self.next_token();
        let ghost s0 = self@;
        match self.parse_expression(Precedence::LOWEST) {
            Some(param) => {
                param_list.push(param);
            },
            None => {
                let ghost s1 = self@;
                self.fail_element();
                proof {
                    lemma_follows_transitive(old(self)@, s0, s1);
                    lemma_follows_transitive(old(self)@, s1, self@);
                }
                return Parameters(param_list);
            },
        }
        let ghost base = self@;
        let ghost seed = exprs_model(param_list@);
        proof {
            lemma_follows_transitive(old(self)@, s0, base);
            assert(seed =~= seq![param_list@[0]@]);
        }
        while self.peek_token_is(&TokenType::COMMA)
            invariant
                self.wf(),
                self@.follows(old(self)@),
                !self@.halted,
                list(old(self)@) == list_rest(base, seed),
                list_rest(self@, exprs_model(param_list@)) == list_rest(base, seed),
            decreases self@.remaining(),
        {
            proof {
                reveal(list_rest);
                reveal(expression);
            }
            let ghost before = self@;
            let ghost elements = exprs_model(param_list@);
            self.next_token();
            let ghost b1 = self@;
            self.next_token();
            let ghost b2 = self@;
            proof {
                lemma_advance(before);
                lemma_advance(b1);
                lemma_follows_transitive(before, b1, b2);
            }
            match self.parse_expression(Precedence::LOWEST) {
                Some(param) => {
                    param_list.push(param);
                    proof {
                        lemma_follows_transitive(before, b2, self@);
                        lemma_follows_transitive(old(self)@, before, self@);
                        assert(exprs_model(param_list@) =~= elements.push(param@));
                    }
                },
                None => {
                    let ghost s1 = self@;
                    self.fail_element();
                    proof {
                        lemma_follows_transitive(before, b2, s1);
                        lemma_follows_transitive(before, s1, self@);
                        lemma_follows_transitive(old(self)@, before, self@);
                    }
                    let nothing: Vec<Expr> = Vec::new();
                    assert(exprs_model(nothing@) =~= Seq::<ExprView>::empty());
                    return Parameters(nothing);
                },
            }
        }
        let ghost s9 = self@;
        let closed = self.expect_next_token(&TokenType::RPAREN);
        proof {
            lemma_follows_transitive(old(self)@, s9, self@);
        }
        if closed {
            Parameters(param_list)
        } else {
            let nothing: Vec<Expr> = Vec::new();
            assert(exprs_model(nothing@) =~= Seq::<ExprView>::empty());
            Parameters(nothing)
        }
    }

    /// Parses a call of `func_call`; the opening parenthesis of the arguments
    /// is the current token.
    pub fn parse_call_expression(&mut self, func_call: Expr) -> (e: Option<Expr>)
        requires
            old(self).wf(),
        ensures
            final(self).wf(),
            (expr_view(e), final(self)@) == call_expression(old(self)@, func_call@),
            final(self)@.follows(old(self)@),
            final(self)@.halted ==> e is None,
        decreases old(self)@.remaining(), 13int,
    {
        proof {
            reveal(call_expression);
            reveal(list);
        }
        let arguments = self.parse_function_params();
        if self.halted {
            None
        } else {
            Some(Expr::CALL(Box::new(func_call), arguments))
        }
    }

    /// Parses the right operand of the binary operator `tok`, which is the
    /// current token, at the precedence of the current token, and applies the
    /// operator to `left_expression` and to it.
    pub fn parse_infix_expression(&mut self, tok: Token, left_expression: Expr) -> (e: Option<
        Expr,
    >)
        requires
            old(self).wf(),
        ensures
            final(self).wf(),
            (expr_view(e), final(self)@) == infix_expression(
                old(self)@,
                tok@.kind(),
                left_expression@,
            ),
            final(self)@.follows(old(self)@),
            final(self)@.halted ==> e is None,
        decreases old(self)@.remaining(), 13int,
    {
        proof {
            reveal(infix_expression);
            reveal(expression);
        }
        proof {
            lemma_advance(self@);
        }
        let precedence = self.cur_precedence();
        self.next_token();
        let ghost s1 = self@;
        let operand = self.parse_expression(precedence);
        proof {
            lemma_follows_transitive(old(self)@, s1, self@);
        }
        match operand {
            Some(right_expr) => Some(
                Expr::INFIX(
                    Box::new(left_expression),
                    Infix::from(tok.tokentype),
                    Box::new(right_expr),
                ),
            ),
            None => None,
        }
    }

    /// Parses the statements between braces; the opening brace is the current
    /// token.  A statement that fails to parse is left out.  A block without
    /// a statement is no block.
    pub fn parse_block_statement(&mut self) -> (b: Option<BlockStatement>)
        requires
            old(self).wf(),
        ensures
            final(self).wf(),
            (block_view(b), final(self)@) == block(old(self)@),
            final(self)@.follows(old(self)@),
            final(self)@.halted ==> b is None,
        decreases old(self)@.remaining(), 11int,
    {
        proof {
            reveal(block);
            reveal(statements);
        }
        proof {
            lemma_advance(self@);
        }
        self.next_token();
        let ghost s1 = self@;
        let stmts = self.parse_statements(true);
        proof {
            lemma_follows_transitive(old(self)@, s1, self@);
        }
        if !self.halted && stmts.len() > 0 {
            Some(BlockStatement(stmts))
        } else {
            None
        }
    }
}

} // verus!
