//! The syntax tree: statements and expressions, their mathematical views and
//! the text that reconstructs them.
use vstd::prelude::*;
use vstd::std_specs::convert::FromSpecImpl;
use crate::text::{decimal_text, push_decimal};
use crate::token::{TokenKind, TokenType};

verus! {

/// The binding strength of an operator, weakest first.
#[derive(Debug, PartialEq, Eq, PartialOrd, Clone, Copy, Structural)]
pub enum Precedence {
    LOWEST,
    EQUALS,
    LESSGREATER,
    SUM,
    PRODUCT,
    PREFIX,
    CALL,
}

impl Precedence {
    /// The place of the precedence in the order, from zero for the weakest.
    pub open spec fn level(self) -> int {
        match self {
            Precedence::LOWEST => 0,
            Precedence::EQUALS => 1,
            Precedence::LESSGREATER => 2,
            Precedence::SUM => 3,
            Precedence::PRODUCT => 4,
            Precedence::PREFIX => 5,
            Precedence::CALL => 6,
        }
    }

    /// The place of the precedence in the order, from zero for the weakest.
    pub fn rank(self) -> (r: u8)
        ensures
            r == self.level(),
    {
        match self {
            Precedence::LOWEST => 0,
            Precedence::EQUALS => 1,
            Precedence::LESSGREATER => 2,
            Precedence::SUM => 3,
            Precedence::PRODUCT => 4,
            Precedence::PREFIX => 5,
            Precedence::CALL => 6,
        }
    }

    /// Whether `self` binds strictly weaker than `other`.
    pub fn below(self, other: Precedence) -> (weaker: bool)
        ensures
            weaker == (self.level() < other.level()),
    {
        self.rank() < other.rank()
    }
}

/// The operator of an infix expression.  `ILLEGAL` stands for a token that is
/// no operator; the parser never builds a node with it.
#[derive(Debug, PartialEq, Eq, PartialOrd, Ord, Clone, Copy, Structural)]
pub enum Infix {
    PLUS,
    MINUS,
    MULTIPLY,
    DIVIDE,
    GT,
    LT,
    EQUAL,
    NOTEQUAL,
    ILLEGAL,
}

impl Infix {
    /// The operator that a token of kind `kind` denotes.
    pub open spec fn of_kind(kind: TokenKind) -> Infix {
        match kind {
            TokenKind::Asterisk => Infix::MULTIPLY,
            TokenKind::Minus => Infix::MINUS,
            TokenKind::Plus => Infix::PLUS,
            TokenKind::Slash => Infix::DIVIDE,
            TokenKind::Gt => Infix::GT,
            TokenKind::Lt => Infix::LT,
            TokenKind::Equal => Infix::EQUAL,
            TokenKind::NotEqual => Infix::NOTEQUAL,
            _ => Infix::ILLEGAL,
        }
    }

    /// The operator as source text.
    pub open spec fn text(self) -> Seq<char> {
        match self {
            Infix::PLUS => "+"@,
            Infix::MINUS => "-"@,
            Infix::MULTIPLY => "*"@,
            Infix::DIVIDE => "/"@,
            Infix::GT => ">"@,
            Infix::LT => "<"@,
            Infix::EQUAL => "=="@,
            Infix::NOTEQUAL => "!="@,
            Infix::ILLEGAL => "$$ILLEGALCARACT$$"@,
        }
    }

    /// The operator as source text.
    pub fn symbol(&self) -> (s: &'static str)
        ensures
            s@ == self.text(),
    {
        match self {
            Infix::PLUS => "+",
            Infix::MINUS => "-",
            Infix::MULTIPLY => "*",
            Infix::DIVIDE => "/",
            Infix::GT => ">",
            Infix::LT => "<",
            Infix::EQUAL => "==",
            Infix::NOTEQUAL => "!=",
            Infix::ILLEGAL => "$$ILLEGALCARACT$$",
        }
    }

    /// The operator as source text.
    pub fn to_string(&self) -> (s: String)
        ensures
            s@ == self.text(),
    {
        String::from_str(self.symbol())
    }
}

impl From<TokenType> for Infix {
    fn from(tok: TokenType) -> (op: Infix) {
        match tok {
            TokenType::ASTERISK => Infix::MULTIPLY,
            TokenType::MINUS => Infix::MINUS,
            TokenType::PLUS => Infix::PLUS,
            TokenType::SLASH => Infix::DIVIDE,
            TokenType::GT => Infix::GT,
            TokenType::LT => Infix::LT,
            TokenType::EQUAL => Infix::EQUAL,
            TokenType::NOTEQUAL => Infix::NOTEQUAL,
            _ => Infix::ILLEGAL,
        }
    }
}

impl FromSpecImpl<TokenType> for Infix {
    open spec fn obeys_from_spec() -> bool {
        true
    }

    open spec fn from_spec(tok: TokenType) -> Infix {
        Infix::of_kind(tok.shape())
    }
}

/// A name.
#[derive(Debug, PartialEq, Eq)]
pub struct Ident(pub String);

/// An ordered list of expressions: the parameters of a function literal or
/// the arguments of a call.
#[derive(Debug, PartialEq, Eq)]
pub struct Parameters(pub Vec<Expr>);

/// An ordered list of statements between braces.
#[derive(Debug, PartialEq, Eq)]
pub struct BlockStatement(pub Vec<Stmt>);

/// A statement.
#[derive(Debug, PartialEq, Eq)]
pub enum Stmt {
    LET(Ident, Expr),
    RETURN(Expr),
    EXPRESSION(Expr),
}

/// An expression.
#[derive(Debug, PartialEq, Eq)]
pub enum Expr {
    IDENTIFIER(Ident),
    INTEGER(usize),
    BANG(Box<Expr>),
    MINUS(Box<Expr>),
    INFIX(Box<Expr>, Infix, Box<Expr>),
    BOOLEAN(bool),
    IF(Box<Expr>, BlockStatement, BlockStatement),
    FUNC(Parameters, BlockStatement),
    CALL(Box<Expr>, Parameters),
}

/// A program: its statements in source order.
pub type Program = Vec<Stmt>;

/// What an [`Expr`] stands for.
pub enum ExprView {
    Identifier(Seq<char>),
    Integer(usize),
    Not(Box<ExprView>),
    Negate(Box<ExprView>),
    Infix(Box<ExprView>, Infix, Box<ExprView>),
    Boolean(bool),
    If(Box<ExprView>, Seq<StmtView>, Seq<StmtView>),
    Function(Seq<ExprView>, Seq<StmtView>),
    Call(Box<ExprView>, Seq<ExprView>),
}

/// What a [`Stmt`] stands for.
pub enum StmtView {
    Let(Seq<char>, ExprView),
    Return(ExprView),
    Expression(ExprView),
}

/// The expressions of `list`, joined by commas.
pub open spec fn list_text(list: Seq<ExprView>) -> Seq<char>
    decreases list,
{
    if list.len() == 0 {
        Seq::empty()
    } else if list.len() == 1 {
        list[0].text()
    } else {
        list_text(list.drop_last()) + ","@ + list.last().text()
    }
}

/// The statements of `block`, one after the other with nothing between them.
pub open spec fn block_text(block: Seq<StmtView>) -> Seq<char>
    decreases block,
{
    if block.len() == 0 {
        Seq::empty()
    } else {
        block_text(block.drop_last()) + block.last().text()
    }
}

impl ExprView {
    /// The source text that reconstructs the expression, with every operator
    /// application in parentheses.
    ///
    /// A conditional prints its alternative only where that is empty.
    pub open spec fn text(self) -> Seq<char>
        decreases self,
    {
        match self {
            ExprView::Identifier(name) => name,
            ExprView::Integer(value) => decimal_text(value as nat),
            ExprView::Not(operand) => "(!"@ + operand.text() + ")"@,
            ExprView::Negate(operand) => "(-"@ + operand.text() + ")"@,
            ExprView::Infix(left, operator, right) => "("@ + left.text() + " "@ + operator.text()
                + " "@ + right.text() + ")"@,
            ExprView::Boolean(value) => if value {
                "true"@
            } else {
                "false"@
            },
            ExprView::If(condition, consequence, alternative) => {
                let head = "if "@ + condition.text() + " { "@ + block_text(consequence) + " }"@;
                if alternative.len() == 0 {
                    head + "else{ "@ + block_text(alternative) + " }"@
                } else {
                    head
                }
            },
            ExprView::Function(parameters, body) => "fn ("@ + list_text(parameters) + "){ "@
                + block_text(body) + " }"@,
            ExprView::Call(callee, arguments) => callee.text() + "("@ + list_text(arguments)
                + ")"@,
        }
    }
}

impl StmtView {
    /// The source text that reconstructs the statement.
    pub open spec fn text(self) -> Seq<char>
        decreases self,
    {
        match self {
            StmtView::Let(name, value) => "LET "@ + name + " = "@ + value.text() + ";"@,
            StmtView::Return(value) => "RETURN "@ + value.text() + ";"@,
            StmtView::Expression(value) => value.text(),
        }
    }
}

/// The views of the expressions of `list`.
pub open spec fn exprs_model(list: Seq<Expr>) -> Seq<ExprView>
    decreases list,
{
    Seq::new(
        list.len(),
        |i: int|
            if 0 <= i < list.len() {
                list[i].model()
            } else {
                arbitrary()
            },
    )
}

/// The views of the statements of `block`.
pub open spec fn stmts_model(block: Seq<Stmt>) -> Seq<StmtView>
    decreases block,
{
    Seq::new(
        block.len(),
        |i: int|
            if 0 <= i < block.len() {
                block[i].model()
            } else {
                arbitrary()
            },
    )
}

impl Expr {
    /// The view of the expression.
    pub open spec fn model(&self) -> ExprView
        decreases self,
    {
        match self {
            Expr::IDENTIFIER(name) => ExprView::Identifier(name.0@),
            Expr::INTEGER(value) => ExprView::Integer(*value),
            Expr::BANG(operand) => ExprView::Not(Box::new(operand.model())),
            Expr::MINUS(operand) => ExprView::Negate(Box::new(operand.model())),
            Expr::INFIX(left, operator, right) => ExprView::Infix(
                Box::new(left.model()),
                *operator,
                Box::new(right.model()),
            ),
            Expr::BOOLEAN(value) => ExprView::Boolean(*value),
            Expr::IF(condition, consequence, alternative) => ExprView::If(
                Box::new(condition.model()),
                stmts_model(consequence.0@),
                stmts_model(alternative.0@),
            ),
            Expr::FUNC(parameters, body) => ExprView::Function(
                exprs_model(parameters.0@),
                stmts_model(body.0@),
            ),
            Expr::CALL(callee, arguments) => ExprView::Call(
                Box::new(callee.model()),
                exprs_model(arguments.0@),
            ),
        }
    }
}

impl Stmt {
    /// The view of the statement.
    pub open spec fn model(&self) -> StmtView
        decreases self,
    {
        match self {
            Stmt::LET(name, value) => StmtView::Let(name.0@, value.model()),
            Stmt::RETURN(value) => StmtView::Return(value.model()),
            Stmt::EXPRESSION(value) => StmtView::Expression(value.model()),
        }
    }
}

impl View for Ident {
    type V = Seq<char>;

    open spec fn view(&self) -> Seq<char> {
        self.0@
    }
}

impl View for Expr {
    type V = ExprView;

    open spec fn view(&self) -> ExprView {
        self.model()
    }
}

impl View for Stmt {
    type V = StmtView;

    open spec fn view(&self) -> StmtView {
        self.model()
    }
}

impl View for Parameters {
    type V = Seq<ExprView>;

    open spec fn view(&self) -> Seq<ExprView> {
        exprs_model(self.0@)
    }
}

impl View for BlockStatement {
    type V = Seq<StmtView>;

    open spec fn view(&self) -> Seq<StmtView> {
        stmts_model(self.0@)
    }
}

impl Clone for Ident {
    fn clone(&self) -> (copy: Ident)
        ensures
            copy == *self,
    {
        Ident(self.0.clone())
    }
}

impl Clone for Parameters {
    fn clone(&self) -> (copy: Parameters)
        ensures
            copy@ == self@,
        decreases self,
    {
        let mut list: Vec<Expr> = Vec::new();
        let mut i: usize = 0;
        while i < self.0.len()
            invariant
                i <= self.0.len(),
                list.len() == i,
                forall|j: int| 0 <= j < i ==> list@[j]@ == self.0@[j]@,
            decreases self.0.len() - i,
        {
            list.push(self.0[i].clone());
            i += 1;
        }
        assert(exprs_model(list@) =~= exprs_model(self.0@));
        Parameters(list)
    }
}

impl Clone for BlockStatement {
    fn clone(&self) -> (copy: BlockStatement)
        ensures
            copy@ == self@,
        decreases self,
    {
        let mut block: Vec<Stmt> = Vec::new();
        let mut i: usize = 0;
        while i < self.0.len()
            invariant
                i <= self.0.len(),
                block.len() == i,
                forall|j: int| 0 <= j < i ==> block@[j]@ == self.0@[j]@,
            decreases self.0.len() - i,
        {
            block.push(self.0[i].clone());
            i += 1;
        }
        assert(stmts_model(block@) =~= stmts_model(self.0@));
        BlockStatement(block)
    }
}

impl Clone for Stmt {
    fn clone(&self) -> (copy: Stmt)
        ensures
            copy@ == self@,
        decreases self,
    {
        match self {
            Stmt::LET(name, value) => Stmt::LET(name.clone(), value.clone()),
            Stmt::RETURN(value) => Stmt::RETURN(value.clone()),
            Stmt::EXPRESSION(value) => Stmt::EXPRESSION(value.clone()),
        }
    }
}

impl Clone for Expr {
    fn clone(&self) -> (copy: Expr)
        ensures
            copy@ == self@,
        decreases self,
    {
        match self {
            Expr::IDENTIFIER(name) => Expr::IDENTIFIER(name.clone()),
            Expr::INTEGER(value) => Expr::INTEGER(*value),
            Expr::BANG(operand) => Expr::BANG(Box::new((&**operand).clone())),
            Expr::MINUS(operand) => Expr::MINUS(Box::new((&**operand).clone())),
            Expr::INFIX(left, operator, right) => Expr::INFIX(
                Box::new((&**left).clone()),
                *operator,
                Box::new((&**right).clone()),
            ),
            Expr::BOOLEAN(value) => Expr::BOOLEAN(*value),
            Expr::IF(condition, consequence, alternative) => Expr::IF(
                Box::new((&**condition).clone()),
                consequence.clone(),
                alternative.clone(),
            ),
            Expr::FUNC(parameters, body) => Expr::FUNC(parameters.clone(), body.clone()),
            Expr::CALL(callee, arguments) => Expr::CALL(
                Box::new((&**callee).clone()),
                arguments.clone(),
            ),
        }
    }
}

impl Ident {
    /// The name as text.
    pub fn to_string(&self) -> (s: String)
        ensures
            s@ == self@,
    {
        self.0.clone()
    }
}

impl Parameters {
    /// The expressions of the list as source text, joined by commas.
    pub fn to_string(&self) -> (s: String)
        ensures
            s@ == list_text(self@),
        decreases self,
    {
        let mut s = String::new();
        let mut i: usize = 0;
        while i < self.0.len()
            invariant
                i <= self.0.len(),
                s@ == list_text(self@.take(i as int)),
                self@.len() == self.0.len(),
            decreases self.0.len() - i,
        {
            let item = self.0[i].to_string();
            if i > 0 {
                s.append(",");
            }
            s.append(item.as_str());
            proof {
                let front = self@.take(i + 1);
                assert(front.drop_last() == self@.take(i as int));
                assert(front.last() == self.0@[i as int]@);
                if i == 0 {
                    assert(s@ =~= item@);
                }
            }
            i += 1;
        }
        assert(self@.take(i as int) == self@);
        s
    }
}

impl BlockStatement {
    /// The statements of the block as source text, with nothing between them.
    pub fn to_string(&self) -> (s: String)
        ensures
            s@ == block_text(self@),
        decreases self,
    {
        let mut s = String::new();
        let mut i: usize = 0;
        while i < self.0.len()
            invariant
                i <= self.0.len(),
                s@ == block_text(self@.take(i as int)),
                self@.len() == self.0.len(),
            decreases self.0.len() - i,
        {
            let item = self.0[i].to_string();
            s.append(item.as_str());
            proof {
                let front = self@.take(i + 1);
                assert(front.drop_last() == self@.take(i as int));
                assert(front.last() == self.0@[i as int]@);
            }
            i += 1;
        }
        assert(self@.take(i as int) == self@);
        s
    }
}

impl Stmt {
    /// The statement as source text.
    pub fn to_string(&self) -> (s: String)
        ensures
            s@ == self@.text(),
        decreases self,
    {
        match self {
            Stmt::LET(name, value) => {
                let mut s = String::from_str("LET ");
                s.append(name.0.as_str());
                s.append(" = ");
                let value = value.to_string();
                s.append(value.as_str());
                s.append(";");
                s
            },
            Stmt::RETURN(value) => {
                let mut s = String::from_str("RETURN ");
                let value = value.to_string();
                s.append(value.as_str());
                s.append(";");
                s
            },
            Stmt::EXPRESSION(value) => value.to_string(),
        }
    }
}

impl Expr {
    /// The expression as source text, with every operator application in
    /// parentheses.
    pub fn to_string(&self) -> (s: String)
        ensures
            s@ == self@.text(),
        decreases self,
    {
        match self {
            Expr::BOOLEAN(value) => if *value {
                String::from_str("true")
            } else {
                String::from_str("false")
            },
            Expr::IDENTIFIER(name) => name.to_string(),
            Expr::INTEGER(value) => {
                let mut s = String::new();
                push_decimal(&mut s, *value);
                assert(s@ =~= decimal_text(*value as nat));
                s
            },
            Expr::BANG(operand) => {
                let mut s = String::from_str("(!");
                let operand = operand.to_string();
                s.append(operand.as_str());
                s.append(")");
                s
            },
            Expr::MINUS(operand) => {
                let mut s = String::from_str("(-");
                let operand = operand.to_string();
                s.append(operand.as_str());
                s.append(")");
                s
            },
            Expr::INFIX(left, operator, right) => {
                let mut s = String::from_str("(");
                let left = left.to_string();
                s.append(left.as_str());
                s.append(" ");
                s.append(operator.symbol());
                s.append(" ");
                let right = right.to_string();
                s.append(right.as_str());
                s.append(")");
                s
            },
            Expr::IF(condition, consequence, alternative) => {
                let mut s = String::from_str("if ");
                let condition = condition.to_string();
                s.append(condition.as_str());
                s.append(" { ");
                let consequence = consequence.to_string();
                s.append(consequence.as_str());
                s.append(" }");
                assert(alternative@.len() == alternative.0.len());
                if alternative.0.len() == 0 {
                    s.append("else{ ");
                    let alternative = alternative.to_string();
                    s.append(alternative.as_str());
                    s.append(" }");
                }
                s
            },
            Expr::FUNC(parameters, body) => {
                let mut s = String::from_str("fn (");
                let parameters = parameters.to_string();
                s.append(parameters.as_str());
                s.append("){ ");
                let body = body.to_string();
                s.append(body.as_str());
                s.append(" }");
                s
            },
            Expr::CALL(callee, arguments) => {
                let mut s = callee.to_string();
                s.append("(");
                let arguments = arguments.to_string();
                s.append(arguments.as_str());
                s.append(")");
                s
            },
        }
    }
}

} // verus!
