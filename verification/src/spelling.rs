//! Spelling: the bytes of the text that reconstructs an expression, and the
//! tokens that the scanner makes of them.
use vstd::prelude::*;
use crate::ast::{block_text, list_text, ExprView, Infix, StmtView};
use crate::lexer::{
    byte_at, is_letter, keyword, lemma_scan_advances, scan, source_of, spaces_end, tokens,
};
use crate::reparse::{
    block_tokens, expr_tokens, is_plain, is_plain_block, is_plain_statement, keyword_token,
    list_tokens, operator_kind, stmt_tokens, symbol_token,
};
use crate::scanning::{
    is_keyword, is_symbol, lemma_keywords, lemma_number_scans, lemma_scan_shift,
    lemma_symbol_scans, lemma_tokens_shift, lemma_word_scans, symbol_bytes,
};
use crate::text::{
    bytes_text, decimal_digits, decimal_text, is_digit, lemma_decimal_digits_are_digits,
    lemma_decimal_round_trip,
};
use crate::token::{TokenKind, TokenTypeView, TokenView};

verus! {

/// Whether `name` is a word that scans to an identifier: a run of ASCII
/// letters and underscores that is no keyword.
pub open spec fn is_word(name: Seq<char>) -> bool {
    &&& name.len() > 0
    &&& forall|i: int| 0 <= i < name.len() ==> (#[trigger] name[i] as u32) < 128 && is_letter(
        name[i] as u8,
    )
    &&& !is_keyword(name)
}

/// Whether every name in the plain expression `e` is a word.
pub open spec fn has_words(e: ExprView) -> bool
    decreases e,
{
    match e {
        ExprView::Identifier(name) => is_word(name),
        ExprView::Integer(_) => true,
        ExprView::Boolean(_) => true,
        ExprView::Not(operand) => has_words(*operand),
        ExprView::Negate(operand) => has_words(*operand),
        ExprView::Infix(left, _, right) => has_words(*left) && has_words(*right),
        ExprView::Call(callee, arguments) => has_words(*callee) && forall|i: int|
            0 <= i < arguments.len() ==> has_words(#[trigger] arguments[i]),
        ExprView::If(condition, consequence, _) => has_words(*condition) && block_has_words(
            consequence,
        ),
        ExprView::Function(parameters, body) => block_has_words(body) && forall|i: int|
            0 <= i < parameters.len() ==> has_words(#[trigger] parameters[i]),
    }
}

/// Whether every name in the plain statement `statement` is a word.
pub open spec fn stmt_has_words(statement: StmtView) -> bool
    decreases statement,
{
    match statement {
        StmtView::Let(name, value) => is_word(name) && has_words(value),
        StmtView::Return(value) => has_words(value),
        StmtView::Expression(value) => has_words(value),
    }
}

/// Whether every name in the plain block `block` is a word.
pub open spec fn block_has_words(block: Seq<StmtView>) -> bool
    decreases block,
{
    forall|i: int| 0 <= i < block.len() ==> stmt_has_words(#[trigger] block[i])
}

/// The bytes of the characters `text`, each cut to one byte.
pub open spec fn text_bytes(text: Seq<char>) -> Seq<u8> {
    text.map_values(|c: char| c as u8)
}

/// The bytes of the text that reconstructs the plain expression `e`.
pub open spec fn expr_bytes(e: ExprView) -> Seq<u8>
    decreases e,
{
    match e {
        ExprView::Identifier(name) => text_bytes(name),
        ExprView::Integer(value) => decimal_digits(value as nat),
        ExprView::Boolean(value) => if value {
            seq![0x74u8, 0x72u8, 0x75u8, 0x65u8]
        } else {
            seq![0x66u8, 0x61u8, 0x6cu8, 0x73u8, 0x65u8]
        },
        ExprView::Not(operand) => seq![0x28u8, 0x21u8] + expr_bytes(*operand) + seq![0x29u8],
        ExprView::Negate(operand) => seq![0x28u8, 0x2du8] + expr_bytes(*operand) + seq![0x29u8],
        ExprView::Infix(left, operator, right) => seq![0x28u8] + expr_bytes(*left) + seq![0x20u8]
            + symbol_bytes(operator_kind(operator)) + seq![0x20u8] + expr_bytes(*right) + seq![
            0x29u8,
        ],
        ExprView::Call(callee, arguments) => expr_bytes(*callee) + seq![0x28u8] + list_bytes(
            arguments,
            0,
        ),
        ExprView::If(condition, consequence, _) => seq![0x69u8, 0x66u8, 0x20u8] + expr_bytes(
            *condition,
        ) + seq![0x20u8, 0x7bu8, 0x20u8] + block_bytes(consequence, 0),
        ExprView::Function(parameters, body) => seq![0x66u8, 0x6eu8, 0x20u8, 0x28u8]
            + list_bytes(parameters, 0) + seq![0x7bu8, 0x20u8] + block_bytes(body, 0),
    }
}

/// The bytes of the text that reconstructs the plain statement `statement`.
pub open spec fn stmt_bytes(statement: StmtView) -> Seq<u8>
    decreases statement,
{
    match statement {
        StmtView::Let(name, value) => seq![0x4cu8, 0x45u8, 0x54u8, 0x20u8] + text_bytes(name)
            + seq![0x20u8, 0x3du8, 0x20u8] + expr_bytes(value) + seq![0x3bu8],
        StmtView::Return(value) => seq![
            0x52u8,
            0x45u8,
            0x54u8,
            0x55u8,
            0x52u8,
            0x4eu8,
            0x20u8,
        ] + expr_bytes(value) + seq![0x3bu8],
        StmtView::Expression(value) => expr_bytes(value),
    }
}

/// The bytes of the statements of `block` from the index `from` on, and of
/// the space and the closing brace behind them.
pub open spec fn block_bytes(block: Seq<StmtView>, from: int) -> Seq<u8>
    decreases block, block.len() - from,
{
    if from < 0 || from >= block.len() {
        seq![0x20u8, 0x7du8]
    } else {
        stmt_bytes(block[from]) + block_bytes(block, from + 1)
    }
}

/// The bytes of the elements of `list` from the index `from` on, with commas
/// between them, and of the closing parenthesis behind them.
pub open spec fn list_bytes(list: Seq<ExprView>, from: int) -> Seq<u8>
    decreases list, list.len() - from,
{
    if from < 0 || from >= list.len() {
        seq![0x29u8]
    } else {
        expr_bytes(list[from]) + list_tail_bytes(list, from)
    }
}

/// The bytes behind the element of `list` at the index `at`.
pub open spec fn list_tail_bytes(list: Seq<ExprView>, at: int) -> Seq<u8>
    decreases list, list.len() - at, 0int,
{
    if at < 0 || at + 1 >= list.len() {
        seq![0x29u8]
    } else {
        seq![0x2cu8] + list_bytes(list, at + 1)
    }
}

/// Whether the bytes `rest` can stand behind a word or a number without
/// running into it: they begin with neither a letter nor a digit.
pub open spec fn begins_apart(rest: Seq<u8>) -> bool {
    !is_letter(byte_at(rest, 0)) && !is_digit(byte_at(rest, 0))
}

/// The tokens of a source that begins with a token are that token and the
/// tokens of the rest.
proof fn lemma_first_token_of(front: Seq<u8>, back: Seq<u8>, token: TokenView)
    requires
        scan(front + back, 0).token == token,
        scan(front + back, 0).next == front.len(),
        token.kind() != TokenKind::Eof,
    ensures
        tokens(front + back, 0) == seq![token] + tokens(back, 0),
{
    lemma_tokens_shift(front, back, 0);
}

/// The tokens of a source that begins with a symbol are that symbol and the
/// tokens of the rest, unless the symbol runs into the rest.
pub proof fn lemma_symbol_first(kind: TokenKind, back: Seq<u8>)
    requires
        is_symbol(kind),
        kind == TokenKind::Assign || kind == TokenKind::Bang ==> byte_at(back, 0) != 0x3d,
    ensures
        tokens(symbol_bytes(kind) + back, 0) == seq![symbol_token(kind)] + tokens(back, 0),
{
    lemma_symbol_scans(kind, back);
    let front = symbol_bytes(kind);
    let source = front + back;
    assert(scan(source, 0).token == symbol_token(kind)) by {
        reveal(scan);
        assert(source[0] == front[0]);
        assert(spaces_end(source, 0) == 0);
        assert(source.subrange(0, front.len() as int) =~= front);
        if front.len() == 2 {
            assert(source[1] == front[1]);
        } else {
            assert(byte_at(source, 1) == byte_at(back, 0));
        }
    }
    lemma_first_token_of(front, back, symbol_token(kind));
}

/// A space before a source changes nothing of its tokens.
pub proof fn lemma_space_first(back: Seq<u8>)
    ensures
        tokens(seq![0x20u8] + back, 0) == tokens(back, 0),
{
    let front = seq![0x20u8];
    let source = front + back;
    assert(source[0] == 0x20u8);
    assert(scan(source, 0) == scan(source, 1)) by {
        reveal(scan);
        assert(spaces_end(source, 0) == spaces_end(source, 1));
    }
    lemma_scan_shift(front, back, 0);
    lemma_tokens_shift(front, back, 0);
    lemma_scan_advances(back, 0);
    lemma_scan_advances(source, 1);
    assert(tokens(source, 0) == tokens(source, 1));
}

/// The tokens of a source that begins with a word are the identifier of that
/// name and the tokens of the rest, where the rest begins with no letter.
pub proof fn lemma_word_first(name: Seq<char>, back: Seq<u8>)
    requires
        is_word(name),
        !is_letter(byte_at(back, 0)),
    ensures
        tokens(text_bytes(name) + back, 0) == seq![
            TokenView { tokentype: TokenTypeView::identifier(name), literal: name },
        ] + tokens(back, 0),
{
    let front = text_bytes(name);
    let source = front + back;
    let end = front.len() as int;
    assert forall|i: int| 0 <= i < end implies is_letter(source[i]) by {
        assert(source[i] == front[i]);
        assert(front[i] == name[i] as u8);
    }
    assert(byte_at(source, end) == byte_at(back, 0));
    lemma_word_scans(source, 0, end);
    assert(source.subrange(0, end) =~= front);
    lemma_text_bytes_back(name);
    lemma_first_token_of(
        front,
        back,
        TokenView { tokentype: TokenTypeView::identifier(name), literal: name },
    );
}

/// The text of the bytes of ASCII characters is those characters.
pub proof fn lemma_text_bytes_back(text: Seq<char>)
    requires
        forall|i: int| 0 <= i < text.len() ==> (#[trigger] text[i] as u32) < 128,
    ensures
        bytes_text(text_bytes(text)) == text,
{
    assert forall|i: int| 0 <= i < text.len() implies bytes_text(text_bytes(text))[i]
        == text[i] by {
        lemma_ascii_char(text[i]);
    }
    assert(bytes_text(text_bytes(text)) =~= text);
}

/// An ASCII character is the character of its byte.
pub proof fn lemma_ascii_char(c: char)
    requires
        (c as u32) < 128,
    ensures
        (c as u8) as char == c,
        (c as u8) < 128,
{
}


/// The tokens of a source that begins with a decimal numeral are the integer
/// of that value and the tokens of the rest, where the rest begins with no
/// digit.
pub proof fn lemma_number_first(value: usize, back: Seq<u8>)
    requires
        !is_digit(byte_at(back, 0)),
    ensures
        tokens(decimal_digits(value as nat) + back, 0) == seq![
            TokenView {
                tokentype: TokenTypeView::integer(value),
                literal: decimal_text(value as nat),
            },
        ] + tokens(back, 0),
{
    let front = decimal_digits(value as nat);
    let source = front + back;
    let end = front.len() as int;
    lemma_decimal_digits_are_digits(value as nat);
    lemma_decimal_round_trip(value as nat);
    assert forall|i: int| 0 <= i < end implies is_digit(source[i]) by {
        assert(source[i] == front[i]);
    }
    assert(byte_at(source, end) == byte_at(back, 0));
    assert(source.subrange(0, end) =~= front);
    lemma_number_scans(source, 0, end);
    let token = TokenView {
        tokentype: TokenTypeView::integer(value),
        literal: decimal_text(value as nat),
    };
    assert(scan(source, 0).token == token) by {
        reveal(scan);
    }
    lemma_first_token_of(front, back, token);
}

/// The tokens of a source that begins with `true` or `false` are that truth
/// value and the tokens of the rest, where the rest begins with no letter.
pub proof fn lemma_truth_first(value: bool, back: Seq<u8>)
    requires
        !is_letter(byte_at(back, 0)),
    ensures
        tokens(expr_bytes(ExprView::Boolean(value)) + back, 0) == expr_tokens(
            ExprView::Boolean(value),
        ) + tokens(back, 0),
        bytes_text(expr_bytes(ExprView::Boolean(value))) == ExprView::Boolean(value).text(),
{
    let front = expr_bytes(ExprView::Boolean(value));
    let source = front + back;
    let end = front.len() as int;
    reveal_strlit("true");
    reveal_strlit("false");
    lemma_keywords();
    assert(bytes_text(front) =~= ExprView::Boolean(value).text());
    assert forall|i: int| 0 <= i < end implies is_letter(source[i]) by {
        assert(source[i] == front[i]);
    }
    assert(byte_at(source, end) == byte_at(back, 0));
    assert(source.subrange(0, end) =~= front);
    lemma_word_scans(source, 0, end);
    let token = expr_tokens(ExprView::Boolean(value))[0];
    assert(scan(source, 0).token == token);
    lemma_first_token_of(front, back, token);
}

/// The bytes that spell a plain expression begin with a letter, a digit or
/// an opening parenthesis.
pub proof fn lemma_first_byte(e: ExprView)
    requires
        is_plain(e),
        has_words(e),
    ensures
        expr_bytes(e).len() > 0,
        is_letter(expr_bytes(e)[0]) || is_digit(expr_bytes(e)[0]) || expr_bytes(e)[0] == 0x28,
    decreases e,
{
    match e {
        ExprView::Identifier(name) => {
            assert(expr_bytes(e)[0] == name[0] as u8);
        },
        ExprView::Integer(value) => {
            lemma_decimal_digits_are_digits(value as nat);
        },
        ExprView::Call(callee, arguments) => {
            lemma_first_byte(*callee);
            assert(expr_bytes(e)[0] == expr_bytes(*callee)[0]);
        },
        ExprView::Not(operand) => {
            assert(expr_bytes(e)[0] == 0x28);
        },
        ExprView::Negate(operand) => {
            assert(expr_bytes(e)[0] == 0x28);
        },
        ExprView::Infix(left, operator, right) => {
            assert(expr_bytes(e)[0] == 0x28);
        },
        _ => {},
    }
}

/// The scanner reads the bytes that spell a plain expression as the tokens
/// that spell it, and goes on with what stands behind them.
pub proof fn lemma_expr_scans(e: ExprView, rest: Seq<u8>)
    requires
        is_plain(e),
        has_words(e),
        begins_apart(rest),
    ensures
        tokens(expr_bytes(e) + rest, 0) == expr_tokens(e) + tokens(rest, 0),
    decreases e, 1int,
{
    match e {
        ExprView::Identifier(name) => {
            lemma_word_first(name, rest);
        },
        ExprView::Integer(value) => {
            lemma_number_first(value, rest);
        },
        ExprView::Boolean(value) => {
            lemma_truth_first(value, rest);
        },
        ExprView::Not(operand) => {
            lemma_prefixed_scans(e, *operand, TokenKind::Bang, rest);
        },
        ExprView::Negate(operand) => {
            lemma_prefixed_scans(e, *operand, TokenKind::Minus, rest);
        },
        ExprView::Infix(left, operator, right) => {
            lemma_binary_scans(*left, operator, *right, rest);
        },
        ExprView::Call(callee, arguments) => {
            let r2 = list_bytes(arguments, 0) + rest;
            let r1 = seq![0x28u8] + r2;
            assert(expr_bytes(e) + rest =~= expr_bytes(*callee) + r1);
            lemma_expr_scans(*callee, r1);
            assert(r1 == symbol_bytes(TokenKind::LParen) + r2);
            lemma_symbol_first(TokenKind::LParen, r2);
            lemma_list_scans(arguments, 0, rest);
            assert(expr_tokens(e) + tokens(rest, 0) =~= expr_tokens(*callee) + (seq![
                symbol_token(TokenKind::LParen),
            ] + (list_tokens(arguments, 0) + tokens(rest, 0))));
        },
        ExprView::If(condition, consequence, _) => {
            let r1 = block_bytes(consequence, 0) + rest;
            let r2 = seq![0x20u8] + r1;
            let r3 = symbol_bytes(TokenKind::LBrace) + r2;
            let r4 = seq![0x20u8] + r3;
            let r5 = expr_bytes(*condition) + r4;
            let r6 = seq![0x20u8] + r5;
            let word = seq![0x69u8, 0x66u8];
            assert(expr_bytes(e) + rest =~= word + r6);
            reveal_strlit("if");
            lemma_keywords();
            assert(bytes_text(word) =~= "if"@);
            assert(r6[0] == 0x20u8);
            lemma_keyword_first(word, r6, TokenKind::If, "if"@);
            lemma_space_first(r5);
            assert(r4[0] == 0x20u8);
            lemma_expr_scans(*condition, r4);
            lemma_space_first(r3);
            lemma_symbol_first(TokenKind::LBrace, r2);
            lemma_space_first(r1);
            lemma_block_scans(consequence, 0, rest);
            assert(expr_tokens(e) + tokens(rest, 0) =~= seq![
                keyword_token(TokenKind::If, "if"@),
            ] + (expr_tokens(*condition) + (seq![symbol_token(TokenKind::LBrace)] + (
            block_tokens(consequence, 0) + tokens(rest, 0)))));
        },
        ExprView::Function(parameters, body) => {
            let r1 = block_bytes(body, 0) + rest;
            let r2 = seq![0x20u8] + r1;
            let r3 = symbol_bytes(TokenKind::LBrace) + r2;
            let r4 = list_bytes(parameters, 0) + r3;
            let r5 = symbol_bytes(TokenKind::LParen) + r4;
            let r6 = seq![0x20u8] + r5;
            let word = seq![0x66u8, 0x6eu8];
            assert(expr_bytes(e) + rest =~= word + r6);
            reveal_strlit("fn");
            lemma_keywords();
            assert(bytes_text(word) =~= "fn"@);
            assert(r6[0] == 0x20u8);
            lemma_keyword_first(word, r6, TokenKind::Function, "fn"@);
            lemma_space_first(r5);
            lemma_symbol_first(TokenKind::LParen, r4);
            lemma_list_scans(parameters, 0, r3);
            lemma_symbol_first(TokenKind::LBrace, r2);
            lemma_space_first(r1);
            lemma_block_scans(body, 0, rest);
            assert(expr_tokens(e) + tokens(rest, 0) =~= seq![
                keyword_token(TokenKind::Function, "fn"@),
            ] + (seq![symbol_token(TokenKind::LParen)] + (list_tokens(parameters, 0) + (seq![
                symbol_token(TokenKind::LBrace),
            ] + (block_tokens(body, 0) + tokens(rest, 0))))));
        },
    }
}

/// The tokens of a source that begins with a keyword are that keyword and
/// the tokens of the rest, where the rest begins with no letter.
pub proof fn lemma_keyword_first(front: Seq<u8>, back: Seq<u8>, kind: TokenKind, text: Seq<char>)
    requires
        front.len() > 0,
        forall|i: int| 0 <= i < front.len() ==> is_letter(#[trigger] front[i]),
        bytes_text(front) == text,
        keyword(text) == TokenTypeView::plain(kind),
        kind != TokenKind::Eof,
        !is_letter(byte_at(back, 0)),
    ensures
        tokens(front + back, 0) == seq![keyword_token(kind, text)] + tokens(back, 0),
{
    let source = front + back;
    let end = front.len() as int;
    assert forall|i: int| 0 <= i < end implies is_letter(source[i]) by {
        assert(source[i] == front[i]);
    }
    assert(byte_at(source, end) == byte_at(back, 0));
    assert(source.subrange(0, end) =~= front);
    lemma_word_scans(source, 0, end);
    lemma_first_token_of(front, back, keyword_token(kind, text));
}

/// The scanner reads the bytes that spell a plain statement as the tokens
/// that spell it, where what stands behind an expression begins apart.
proof fn lemma_stmt_scans(statement: StmtView, rest: Seq<u8>)
    requires
        is_plain_statement(statement),
        stmt_has_words(statement),
        statement is Expression ==> begins_apart(rest),
    ensures
        tokens(stmt_bytes(statement) + rest, 0) == stmt_tokens(statement) + tokens(rest, 0),
    decreases statement, 0int,
{
    match statement {
        StmtView::Let(name, value) => {
            let r1 = symbol_bytes(TokenKind::Semicolon) + rest;
            let r2 = expr_bytes(value) + r1;
            let r3 = seq![0x20u8] + r2;
            let r4 = symbol_bytes(TokenKind::Assign) + r3;
            let r5 = seq![0x20u8] + r4;
            let r6 = text_bytes(name) + r5;
            let r7 = seq![0x20u8] + r6;
            let word = seq![0x4cu8, 0x45u8, 0x54u8];
            assert(stmt_bytes(statement) + rest =~= word + r7);
            reveal_strlit("LET");
            lemma_keywords();
            assert(bytes_text(word) =~= "LET"@);
            assert(r7[0] == 0x20u8);
            lemma_keyword_first(word, r7, TokenKind::Let, "LET"@);
            lemma_space_first(r6);
            assert(r5[0] == 0x20u8);
            lemma_word_first(name, r5);
            lemma_space_first(r4);
            assert(r3[0] == 0x20u8);
            lemma_symbol_first(TokenKind::Assign, r3);
            lemma_space_first(r2);
            assert(r1[0] == 0x3bu8);
            lemma_expr_scans(value, r1);
            lemma_symbol_first(TokenKind::Semicolon, rest);
            assert(stmt_tokens(statement) + tokens(rest, 0) =~= seq![
                keyword_token(TokenKind::Let, "LET"@),
            ] + (seq![TokenView { tokentype: TokenTypeView::identifier(name), literal: name }]
                + (seq![symbol_token(TokenKind::Assign)] + (expr_tokens(value) + (seq![
                symbol_token(TokenKind::Semicolon),
            ] + tokens(rest, 0))))));
        },
        StmtView::Return(value) => {
            let r1 = symbol_bytes(TokenKind::Semicolon) + rest;
            let r2 = expr_bytes(value) + r1;
            let r3 = seq![0x20u8] + r2;
            let word = seq![0x52u8, 0x45u8, 0x54u8, 0x55u8, 0x52u8, 0x4eu8];
            assert(stmt_bytes(statement) + rest =~= word + r3);
            reveal_strlit("RETURN");
            lemma_keywords();
            assert(bytes_text(word) =~= "RETURN"@);
            assert(r3[0] == 0x20u8);
            lemma_keyword_first(word, r3, TokenKind::Return, "RETURN"@);
            lemma_space_first(r2);
            assert(r1[0] == 0x3bu8);
            lemma_expr_scans(value, r1);
            lemma_symbol_first(TokenKind::Semicolon, rest);
            assert(stmt_tokens(statement) + tokens(rest, 0) =~= seq![
                keyword_token(TokenKind::Return, "RETURN"@),
            ] + (expr_tokens(value) + (seq![symbol_token(TokenKind::Semicolon)] + tokens(
                rest,
                0,
            ))));
        },
        StmtView::Expression(value) => {
            lemma_expr_scans(value, rest);
        },
    }
}

/// The scanner reads the bytes that spell the statements of a plain block
/// as the tokens that spell them.
proof fn lemma_block_scans(block: Seq<StmtView>, from: int, rest: Seq<u8>)
    requires
        0 <= from,
        is_plain_block(block),
        block_has_words(block),
    ensures
        tokens(block_bytes(block, from) + rest, 0) == block_tokens(block, from) + tokens(
            rest,
            0,
        ),
    decreases block, block.len() - from,
{
    if from >= block.len() {
        let r1 = symbol_bytes(TokenKind::RBrace) + rest;
        assert(block_bytes(block, from) + rest =~= seq![0x20u8] + r1);
        lemma_space_first(r1);
        lemma_symbol_first(TokenKind::RBrace, rest);
    } else {
        let first = block[from];
        assert(is_plain_statement(first) && stmt_has_words(first));
        let r1 = block_bytes(block, from + 1) + rest;
        assert(block_bytes(block, from) + rest =~= stmt_bytes(first) + r1);
        if first is Expression {
            assert(from + 1 >= block.len());
            assert(r1[0] == 0x20u8);
        }
        lemma_stmt_scans(first, r1);
        lemma_block_scans(block, from + 1, rest);
        assert(block_tokens(block, from) + tokens(rest, 0) =~= stmt_tokens(first) + (
        block_tokens(block, from + 1) + tokens(rest, 0)));
    }
}

/// The scanner reads the bytes that spell the application of a prefix
/// operator as the tokens that spell it.
proof fn lemma_prefixed_scans(e: ExprView, operand: ExprView, operator: TokenKind, rest: Seq<u8>)
    requires
        is_plain(operand),
        has_words(operand),
        (operator == TokenKind::Bang && e == ExprView::Not(Box::new(operand))) || (operator
            == TokenKind::Minus && e == ExprView::Negate(Box::new(operand))),
    ensures
        tokens(expr_bytes(e) + rest, 0) == expr_tokens(e) + tokens(rest, 0),
    decreases e, 0int,
{
    let r1 = seq![0x29u8] + rest;
    let r2 = expr_bytes(operand) + r1;
    let r3 = symbol_bytes(operator) + r2;
    let r4 = symbol_bytes(TokenKind::LParen) + r3;
    assert(expr_bytes(e) + rest =~= r4);
    lemma_first_byte(operand);
    assert(r2[0] == expr_bytes(operand)[0]);
    assert(r3[0] == symbol_bytes(operator)[0]);
    lemma_symbol_first(TokenKind::LParen, r3);
    lemma_symbol_first(operator, r2);
    assert(r1[0] == 0x29u8);
    lemma_expr_scans(operand, r1);
    assert(r1 == symbol_bytes(TokenKind::RParen) + rest);
    lemma_symbol_first(TokenKind::RParen, rest);
    assert(expr_tokens(e) + tokens(rest, 0) =~= seq![symbol_token(TokenKind::LParen)] + (seq![
        symbol_token(operator),
    ] + (expr_tokens(operand) + (seq![symbol_token(TokenKind::RParen)] + tokens(rest, 0)))));
}

/// The scanner reads the bytes that spell the application of a binary
/// operator as the tokens that spell it.
proof fn lemma_binary_scans(left: ExprView, operator: Infix, right: ExprView, rest: Seq<u8>)
    requires
        is_plain(left),
        has_words(left),
        is_plain(right),
        has_words(right),
        operator != Infix::ILLEGAL,
    ensures
        tokens(
            expr_bytes(ExprView::Infix(Box::new(left), operator, Box::new(right))) + rest,
            0,
        ) == expr_tokens(ExprView::Infix(Box::new(left), operator, Box::new(right))) + tokens(
            rest,
            0,
        ),
    decreases ExprView::Infix(Box::new(left), operator, Box::new(right)), 0int,
{
    let e = ExprView::Infix(Box::new(left), operator, Box::new(right));
    let kind = operator_kind(operator);
    let r1 = seq![0x29u8] + rest;
    let r2 = expr_bytes(right) + r1;
    let r3 = seq![0x20u8] + r2;
    let r4 = symbol_bytes(kind) + r3;
    let r5 = seq![0x20u8] + r4;
    let r6 = expr_bytes(left) + r5;
    let r7 = symbol_bytes(TokenKind::LParen) + r6;
    assert(expr_bytes(e) + rest =~= r7);
    lemma_symbol_first(TokenKind::LParen, r6);
    assert(r5[0] == 0x20u8);
    lemma_expr_scans(left, r5);
    lemma_space_first(r4);
    assert(r3[0] == 0x20u8);
    lemma_symbol_first(kind, r3);
    lemma_space_first(r2);
    assert(r1[0] == 0x29u8);
    lemma_expr_scans(right, r1);
    assert(r1 == symbol_bytes(TokenKind::RParen) + rest);
    lemma_symbol_first(TokenKind::RParen, rest);
    assert(expr_tokens(e) + tokens(rest, 0) =~= seq![symbol_token(TokenKind::LParen)] + (
    expr_tokens(left) + (seq![symbol_token(kind)] + (expr_tokens(right) + (seq![
        symbol_token(TokenKind::RParen),
    ] + tokens(rest, 0))))));
}

/// The scanner reads the bytes that spell the elements of a list as the
/// tokens that spell them.
proof fn lemma_list_scans(list: Seq<ExprView>, from: int, rest: Seq<u8>)
    requires
        0 <= from,
        forall|i: int| 0 <= i < list.len() ==> is_plain(#[trigger] list[i]),
        forall|i: int| 0 <= i < list.len() ==> has_words(#[trigger] list[i]),
    ensures
        tokens(list_bytes(list, from) + rest, 0) == list_tokens(list, from) + tokens(rest, 0),
    decreases list, list.len() - from,
{
    if from >= list.len() {
        assert(list_bytes(list, from) == symbol_bytes(TokenKind::RParen));
        lemma_symbol_first(TokenKind::RParen, rest);
    } else {
        let first = list[from];
        assert(is_plain(first) && has_words(first));
        if from + 1 >= list.len() {
            let r1 = symbol_bytes(TokenKind::RParen) + rest;
            assert(list_bytes(list, from) + rest =~= expr_bytes(first) + r1);
            assert(r1[0] == 0x29u8);
            lemma_expr_scans(first, r1);
            lemma_symbol_first(TokenKind::RParen, rest);
            assert(list_tokens(list, from) + tokens(rest, 0) =~= expr_tokens(first) + (seq![
                symbol_token(TokenKind::RParen),
            ] + tokens(rest, 0)));
        } else {
            let r2 = list_bytes(list, from + 1) + rest;
            let r1 = symbol_bytes(TokenKind::Comma) + r2;
            assert(list_bytes(list, from) + rest =~= expr_bytes(first) + r1);
            assert(r1[0] == 0x2cu8);
            lemma_expr_scans(first, r1);
            lemma_symbol_first(TokenKind::Comma, r2);
            lemma_list_scans(list, from + 1, rest);
            assert(list_tokens(list, from) + tokens(rest, 0) =~= expr_tokens(first) + (seq![
                symbol_token(TokenKind::Comma),
            ] + (list_tokens(list, from + 1) + tokens(rest, 0))));
        }
    }
}


/// The text of bytes one after the other is their texts one after the other.
pub proof fn lemma_bytes_text_concat(front: Seq<u8>, back: Seq<u8>)
    ensures
        bytes_text(front + back) == bytes_text(front) + bytes_text(back),
{
    assert(bytes_text(front + back) =~= bytes_text(front) + bytes_text(back));
}

/// The text of an operator is the text of the bytes of its symbol.
pub proof fn lemma_operator_text(operator: Infix)
    requires
        operator != Infix::ILLEGAL,
    ensures
        bytes_text(symbol_bytes(operator_kind(operator))) == operator.text(),
        is_symbol(operator_kind(operator)),
        operator_kind(operator) != TokenKind::Assign,
        operator_kind(operator) != TokenKind::Bang,
        forall|i: int|
            0 <= i < symbol_bytes(operator_kind(operator)).len() ==> #[trigger] symbol_bytes(
                operator_kind(operator),
            )[i] < 128,
{
    reveal_strlit("+");
    reveal_strlit("-");
    reveal_strlit("*");
    reveal_strlit("/");
    reveal_strlit(">");
    reveal_strlit("<");
    reveal_strlit("==");
    reveal_strlit("!=");
    assert(bytes_text(symbol_bytes(operator_kind(operator))) =~= operator.text());
}

/// A list of two or more expressions reconstructs to the first, a comma and
/// the others.
pub proof fn lemma_list_text_front(list: Seq<ExprView>)
    requires
        list.len() >= 2,
    ensures
        list_text(list) == list[0].text() + ","@ + list_text(list.skip(1)),
    decreases list.len(),
{
    let front = list.drop_last();
    let others = list.skip(1);
    assert(others.drop_last() =~= front.skip(1));
    assert(others.last() == list.last());
    assert(front[0] == list[0]);
    assert(list_text(list) == list_text(front) + ","@ + list.last().text());
    if list.len() == 2 {
        assert(list_text(front) == front[0].text());
        assert(others[0] == list.last());
        assert(list_text(others) == others[0].text());
    } else {
        lemma_list_text_front(front);
        assert(list_text(others) == list_text(others.drop_last()) + ","@ + others.last().text());
        assert(list_text(list) =~= list[0].text() + ","@ + (list_text(front.skip(1)) + ","@
            + list.last().text()));
    }
}

/// The bytes that spell a plain expression are ASCII, and their text is the
/// text that reconstructs the expression.
pub proof fn lemma_expr_text(e: ExprView)
    requires
        is_plain(e),
        has_words(e),
    ensures
        bytes_text(expr_bytes(e)) == e.text(),
        forall|i: int| 0 <= i < expr_bytes(e).len() ==> #[trigger] expr_bytes(e)[i] < 128,
    decreases e, 1int,
{
    match e {
        ExprView::Identifier(name) => {
            lemma_text_bytes_back(name);
            assert forall|i: int| 0 <= i < expr_bytes(e).len() implies #[trigger] expr_bytes(
                e,
            )[i] < 128 by {
                lemma_ascii_char(name[i]);
            }
        },
        ExprView::Integer(value) => {
            lemma_decimal_digits_are_digits(value as nat);
        },
        ExprView::Boolean(value) => {
            lemma_truth_first(value, Seq::empty());
        },
        ExprView::Not(operand) => {
            lemma_expr_text(*operand);
            reveal_strlit("(!");
            reveal_strlit(")");
            let open = seq![0x28u8, 0x21u8];
            let close = seq![0x29u8];
            lemma_bytes_text_concat(open, expr_bytes(*operand));
            lemma_bytes_text_concat(open + expr_bytes(*operand), close);
            assert(bytes_text(open) =~= "(!"@);
            assert(bytes_text(close) =~= ")"@);
        },
        ExprView::Negate(operand) => {
            lemma_expr_text(*operand);
            reveal_strlit("(-");
            reveal_strlit(")");
            let open = seq![0x28u8, 0x2du8];
            let close = seq![0x29u8];
            lemma_bytes_text_concat(open, expr_bytes(*operand));
            lemma_bytes_text_concat(open + expr_bytes(*operand), close);
            assert(bytes_text(open) =~= "(-"@);
            assert(bytes_text(close) =~= ")"@);
        },
        ExprView::Infix(left, operator, right) => {
            lemma_expr_text(*left);
            lemma_expr_text(*right);
            lemma_operator_text(operator);
            reveal_strlit("(");
            reveal_strlit(")");
            reveal_strlit(" ");
            let open = seq![0x28u8];
            let close = seq![0x29u8];
            let space = seq![0x20u8];
            let sign = symbol_bytes(operator_kind(operator));
            assert(bytes_text(open) =~= "("@);
            assert(bytes_text(close) =~= ")"@);
            assert(bytes_text(space) =~= " "@);
            let b1 = open + expr_bytes(*left);
            let b2 = b1 + space;
            let b3 = b2 + sign;
            let b4 = b3 + space;
            let b5 = b4 + expr_bytes(*right);
            lemma_bytes_text_concat(open, expr_bytes(*left));
            lemma_bytes_text_concat(b1, space);
            lemma_bytes_text_concat(b2, sign);
            lemma_bytes_text_concat(b3, space);
            lemma_bytes_text_concat(b4, expr_bytes(*right));
            lemma_bytes_text_concat(b5, close);
        },
        ExprView::Call(callee, arguments) => {
            lemma_expr_text(*callee);
            lemma_list_text(arguments, 0);
            reveal_strlit("(");
            let open = seq![0x28u8];
            assert(bytes_text(open) =~= "("@);
            assert(arguments.skip(0) =~= arguments);
            lemma_bytes_text_concat(expr_bytes(*callee), open);
            lemma_bytes_text_concat(expr_bytes(*callee) + open, list_bytes(arguments, 0));
            assert(e.text() =~= callee.text() + "("@ + (list_text(arguments) + ")"@));
        },
        ExprView::If(condition, consequence, alternative) => {
            lemma_expr_text(*condition);
            lemma_block_text(consequence, 0);
            reveal_strlit("if ");
            reveal_strlit(" { ");
            let head = seq![0x69u8, 0x66u8, 0x20u8];
            let open = seq![0x20u8, 0x7bu8, 0x20u8];
            assert(bytes_text(head) =~= "if "@);
            assert(bytes_text(open) =~= " { "@);
            assert(consequence.skip(0) =~= consequence);
            let b1 = head + expr_bytes(*condition);
            let b2 = b1 + open;
            lemma_bytes_text_concat(head, expr_bytes(*condition));
            lemma_bytes_text_concat(b1, open);
            lemma_bytes_text_concat(b2, block_bytes(consequence, 0));
            assert(is_plain_block(consequence));
            assert(alternative == consequence);
            assert(alternative.len() > 0);
            assert(e.text() =~= "if "@ + condition.text() + " { "@ + (block_text(consequence)
                + " }"@));
        },
        ExprView::Function(parameters, body) => {
            lemma_list_text(parameters, 0);
            lemma_block_text(body, 0);
            reveal_strlit("fn (");
            reveal_strlit("){ ");
            reveal_strlit(")");
            reveal_strlit("{ ");
            let head = seq![0x66u8, 0x6eu8, 0x20u8, 0x28u8];
            let open = seq![0x7bu8, 0x20u8];
            assert(bytes_text(head) =~= "fn ("@);
            assert(bytes_text(open) =~= "{ "@);
            assert(")"@ + "{ "@ =~= "){ "@);
            assert(parameters.skip(0) =~= parameters);
            assert(body.skip(0) =~= body);
            let b1 = head + list_bytes(parameters, 0);
            let b2 = b1 + open;
            lemma_bytes_text_concat(head, list_bytes(parameters, 0));
            lemma_bytes_text_concat(b1, open);
            lemma_bytes_text_concat(b2, block_bytes(body, 0));
            assert(e.text() =~= "fn ("@ + (list_text(parameters) + ")"@) + "{ "@ + (block_text(
                body,
            ) + " }"@));
        },
    }
}

/// A block of one statement or more reconstructs to the first statement and
/// the others.
pub proof fn lemma_block_text_front(block: Seq<StmtView>)
    requires
        block.len() >= 1,
    ensures
        block_text(block) == block[0].text() + block_text(block.skip(1)),
    decreases block.len(),
{
    let front = block.drop_last();
    let others = block.skip(1);
    assert(block_text(block) == block_text(front) + block.last().text());
    if block.len() == 1 {
        assert(block_text(front) =~= Seq::<char>::empty());
        assert(block_text(others) =~= Seq::<char>::empty());
        assert(block.last() == block[0]);
        assert(block_text(block) =~= block[0].text() + block_text(others));
    } else {
        lemma_block_text_front(front);
        assert(others.drop_last() =~= front.skip(1));
        assert(others.last() == block.last());
        assert(front[0] == block[0]);
        assert(block_text(others) == block_text(others.drop_last()) + others.last().text());
        assert(block_text(block) =~= block[0].text() + (block_text(front.skip(1))
            + block.last().text()));
    }
}

/// The bytes that spell a plain statement are ASCII, and their text is the
/// text that reconstructs the statement.
proof fn lemma_stmt_text(statement: StmtView)
    requires
        is_plain_statement(statement),
        stmt_has_words(statement),
    ensures
        bytes_text(stmt_bytes(statement)) == statement.text(),
        forall|i: int|
            0 <= i < stmt_bytes(statement).len() ==> #[trigger] stmt_bytes(statement)[i] < 128,
    decreases statement, 0int,
{
    reveal_strlit(";");
    let close = seq![0x3bu8];
    assert(bytes_text(close) =~= ";"@);
    match statement {
        StmtView::Let(name, value) => {
            lemma_expr_text(value);
            lemma_text_bytes_back(name);
            reveal_strlit("LET ");
            reveal_strlit(" = ");
            let head = seq![0x4cu8, 0x45u8, 0x54u8, 0x20u8];
            let sign = seq![0x20u8, 0x3du8, 0x20u8];
            assert(bytes_text(head) =~= "LET "@);
            assert(bytes_text(sign) =~= " = "@);
            assert forall|i: int| 0 <= i < text_bytes(name).len() implies #[trigger] text_bytes(
                name,
            )[i] < 128 by {
                lemma_ascii_char(name[i]);
            }
            let b1 = head + text_bytes(name);
            let b2 = b1 + sign;
            let b3 = b2 + expr_bytes(value);
            lemma_bytes_text_concat(head, text_bytes(name));
            lemma_bytes_text_concat(b1, sign);
            lemma_bytes_text_concat(b2, expr_bytes(value));
            lemma_bytes_text_concat(b3, close);
        },
        StmtView::Return(value) => {
            lemma_expr_text(value);
            reveal_strlit("RETURN ");
            let head = seq![0x52u8, 0x45u8, 0x54u8, 0x55u8, 0x52u8, 0x4eu8, 0x20u8];
            assert(bytes_text(head) =~= "RETURN "@);
            let b1 = head + expr_bytes(value);
            lemma_bytes_text_concat(head, expr_bytes(value));
            lemma_bytes_text_concat(b1, close);
        },
        StmtView::Expression(value) => {
            lemma_expr_text(value);
        },
    }
}

/// The bytes that spell the statements of a plain block are ASCII, and their
/// text is the text that reconstructs the statements, a space and a closing
/// brace.
proof fn lemma_block_text(block: Seq<StmtView>, from: int)
    requires
        0 <= from <= block.len(),
        is_plain_block(block),
        block_has_words(block),
    ensures
        bytes_text(block_bytes(block, from)) == block_text(block.skip(from)) + " }"@,
        forall|i: int|
            0 <= i < block_bytes(block, from).len() ==> #[trigger] block_bytes(block, from)[i]
                < 128,
    decreases block, block.len() - from,
{
    reveal_strlit(" }");
    let close = seq![0x20u8, 0x7du8];
    assert(bytes_text(close) =~= " }"@);
    let others = block.skip(from);
    if from == block.len() {
        assert(others.len() == 0);
        assert(block_text(others) + " }"@ =~= " }"@);
    } else {
        let first = block[from];
        assert(is_plain_statement(first) && stmt_has_words(first));
        lemma_stmt_text(first);
        lemma_block_text(block, from + 1);
        lemma_block_text_front(others);
        assert(others[0] == first);
        assert(others.skip(1) =~= block.skip(from + 1));
        lemma_bytes_text_concat(stmt_bytes(first), block_bytes(block, from + 1));
        assert(bytes_text(block_bytes(block, from)) =~= block_text(others) + " }"@);
    }
}

/// The bytes that spell the elements of a list are ASCII, and their text is
/// the text that reconstructs the elements, and a closing parenthesis.
proof fn lemma_list_text(list: Seq<ExprView>, from: int)
    requires
        0 <= from <= list.len(),
        forall|i: int| 0 <= i < list.len() ==> is_plain(#[trigger] list[i]),
        forall|i: int| 0 <= i < list.len() ==> has_words(#[trigger] list[i]),
    ensures
        bytes_text(list_bytes(list, from)) == list_text(list.skip(from)) + ")"@,
        forall|i: int|
            0 <= i < list_bytes(list, from).len() ==> #[trigger] list_bytes(list, from)[i] < 128,
    decreases list, list.len() - from,
{
    reveal_strlit(")");
    reveal_strlit(",");
    let close = seq![0x29u8];
    let comma = seq![0x2cu8];
    assert(bytes_text(close) =~= ")"@);
    assert(bytes_text(comma) =~= ","@);
    let others = list.skip(from);
    if from == list.len() {
        assert(others.len() == 0);
        assert(list_text(others) + ")"@ =~= ")"@);
    } else {
        let first = list[from];
        assert(is_plain(first) && has_words(first));
        lemma_expr_text(first);
        assert(others[0] == first);
        if from + 1 == list.len() {
            assert(others.len() == 1);
            lemma_bytes_text_concat(expr_bytes(first), close);
        } else {
            lemma_list_text(list, from + 1);
            lemma_list_text_front(others);
            assert(others.skip(1) =~= list.skip(from + 1));
            let tail = comma + list_bytes(list, from + 1);
            lemma_bytes_text_concat(comma, list_bytes(list, from + 1));
            lemma_bytes_text_concat(expr_bytes(first), tail);
            assert(bytes_text(list_bytes(list, from)) =~= list_text(others) + ")"@);
        }
    }
}

/// ASCII bytes are the source of their own text.
pub proof fn lemma_ascii_source(bytes: Seq<u8>)
    requires
        forall|i: int| 0 <= i < bytes.len() ==> #[trigger] bytes[i] < 128,
    ensures
        source_of(bytes_text(bytes)) == bytes,
{
    let text = bytes_text(bytes);
    assert(vstd::utf8::is_ascii_chars(text)) by {
        assert forall|i: int| 0 <= i < text.len() implies '\0' <= #[trigger] text[i]
            <= '\u{7f}' by {
            assert(text[i] == bytes[i] as char);
        }
    }
    vstd::utf8::is_ascii_chars_encode_utf8(text);
    assert(source_of(text) =~= bytes) by {
        assert forall|i: int| 0 <= i < bytes.len() implies source_of(text)[i] == bytes[i] by {
            assert(text[i] == bytes[i] as char);
            assert(text[i] as u8 == source_of(text)[i]);
        }
    }
}

} // verus!
