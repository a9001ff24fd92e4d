//! Fitting: every integer literal in the text that reconstructs a plain
//! expression has a value, so that the scanner accepts the text.
use vstd::prelude::*;
use crate::ast::{ExprView, StmtView};
use crate::lexer::{
    byte_at, digits_end, is_letter, lemma_digits_end, lemma_digits_run, numbers_fit, source_of,
};
use crate::reparse::{is_plain, is_plain_block, is_plain_statement, operator_kind};
use crate::scanning::{lemma_digits_end_shift, symbol_bytes};
use crate::spelling::{
    block_bytes, block_has_words, expr_bytes, has_words, lemma_ascii_source, lemma_expr_text,
    list_bytes, list_tail_bytes, stmt_bytes, stmt_has_words, text_bytes,
};
use crate::text::{
    decimal_digits, decimal_value, is_digit, lemma_decimal_digits_are_digits,
    lemma_decimal_round_trip, lemma_decimal_suffix,
};

verus! {

/// In a source without digits every number has a value, there being none.
pub proof fn lemma_no_digits_fit(bytes: Seq<u8>)
    requires
        forall|i: int| 0 <= i < bytes.len() ==> !is_digit(#[trigger] bytes[i]),
    ensures
        numbers_fit(bytes),
{
    assert forall|i: int| 0 <= i <= bytes.len() implies decimal_value(
        bytes.subrange(i, #[trigger] digits_end(bytes, i)),
    ) <= usize::MAX by {
        assert(digits_end(bytes, i) == i);
        assert(bytes.subrange(i, i).len() == 0);
    }
}

/// In the decimal numeral of a machine word every number has a value.
pub proof fn lemma_numeral_fits(value: usize)
    ensures
        numbers_fit(decimal_digits(value as nat)),
{
    let digits = decimal_digits(value as nat);
    lemma_decimal_digits_are_digits(value as nat);
    lemma_decimal_round_trip(value as nat);
    assert forall|i: int| 0 <= i <= digits.len() implies decimal_value(
        digits.subrange(i, #[trigger] digits_end(digits, i)),
    ) <= usize::MAX by {
        lemma_digits_run(digits, i, digits.len() as int);
        assert(digits_end(digits, digits.len() as int) == digits.len());
        lemma_decimal_suffix(digits, i);
        assert(digits.skip(i) =~= digits.subrange(i, digits.len() as int));
    }
}

/// A run of digits in the front part of a source ends where it ends in the
/// front part alone, unless it reaches the end of the front part; then it
/// goes on into the back part.
proof fn lemma_digits_end_front(front: Seq<u8>, back: Seq<u8>, at: int)
    requires
        0 <= at <= front.len(),
    ensures
        digits_end(front, at) < front.len() ==> digits_end(front + back, at) == digits_end(
            front,
            at,
        ),
        digits_end(front, at) >= front.len() ==> digits_end(front + back, at) == front.len()
            + digits_end(back, 0),
    decreases front.len() - at,
{
    lemma_digits_end(front, at);
    if at < front.len() {
        assert((front + back)[at] == front[at]);
        if is_digit(front[at]) {
            lemma_digits_end_front(front, back, at + 1);
        }
    } else {
        lemma_digits_end_shift(front, back, 0);
    }
}

/// Where every number has a value in two sources, and the first does not
/// end with a digit or the second does not begin with one, every number has
/// a value in the two one after the other.
pub proof fn lemma_fit_together(front: Seq<u8>, back: Seq<u8>)
    requires
        numbers_fit(front),
        numbers_fit(back),
        front.len() == 0 || !is_digit(front.last()) || !is_digit(byte_at(back, 0)),
    ensures
        numbers_fit(front + back),
{
    let whole = front + back;
    let shift = front.len() as int;
    assert forall|i: int| 0 <= i <= whole.len() implies decimal_value(
        whole.subrange(i, #[trigger] digits_end(whole, i)),
    ) <= usize::MAX by {
        if i >= shift {
            lemma_digits_end_shift(front, back, i - shift);
            lemma_digits_end(back, i - shift);
            let end = digits_end(back, i - shift);
            assert(whole.subrange(i, shift + end) =~= back.subrange(i - shift, end));
        } else {
            lemma_digits_end_front(front, back, i);
            lemma_digits_end(front, i);
            let end = digits_end(front, i);
            if end < shift {
                assert(whole.subrange(i, end) =~= front.subrange(i, end));
            } else {
                assert(end == shift);
                lemma_digits_reach(front, i);
                assert(is_digit(front[shift - 1]));
                assert(digits_end(back, 0) == 0);
                assert(whole.subrange(i, shift) =~= front.subrange(i, shift));
            }
        }
    }
}

/// Whether every byte of `bytes` from `from` up to `upto` is a digit.
pub open spec fn all_digits_between(bytes: Seq<u8>, from: int, upto: int) -> bool {
    forall|k: int| from <= k < upto ==> is_digit(#[trigger] bytes[k])
}

/// Every byte of a run of digits is a digit.
proof fn lemma_digits_reach(bytes: Seq<u8>, from: int)
    requires
        0 <= from <= bytes.len(),
    ensures
        all_digits_between(bytes, from, digits_end(bytes, from)),
    decreases bytes.len() - from,
{
    if from < bytes.len() && is_digit(bytes[from]) {
        lemma_digits_reach(bytes, from + 1);
    }
}

/// Every number in the bytes that spell a plain expression has a value.
pub proof fn lemma_expr_fits(e: ExprView)
    requires
        is_plain(e),
        has_words(e),
    ensures
        numbers_fit(expr_bytes(e)),
    decreases e, 1int,
{
    let open = seq![0x28u8];
    let close = seq![0x29u8];
    let space = seq![0x20u8];
    lemma_no_digits_fit(open);
    lemma_no_digits_fit(close);
    lemma_no_digits_fit(space);
    match e {
        ExprView::Identifier(name) => {
            assert forall|i: int| 0 <= i < text_bytes(name).len() implies !is_digit(
                #[trigger] text_bytes(name)[i],
            ) by {
                assert(is_letter(name[i] as u8));
            }
            lemma_no_digits_fit(text_bytes(name));
        },
        ExprView::Integer(value) => {
            lemma_numeral_fits(value);
        },
        ExprView::Boolean(value) => {
            lemma_no_digits_fit(expr_bytes(e));
        },
        ExprView::Not(operand) => {
            lemma_expr_fits(*operand);
            let head = seq![0x28u8, 0x21u8];
            lemma_no_digits_fit(head);
            lemma_fit_together(head, expr_bytes(*operand));
            lemma_fit_together(head + expr_bytes(*operand), close);
        },
        ExprView::Negate(operand) => {
            lemma_expr_fits(*operand);
            let head = seq![0x28u8, 0x2du8];
            lemma_no_digits_fit(head);
            lemma_fit_together(head, expr_bytes(*operand));
            lemma_fit_together(head + expr_bytes(*operand), close);
        },
        ExprView::Infix(left, operator, right) => {
            lemma_expr_fits(*left);
            lemma_expr_fits(*right);
            let sign = symbol_bytes(operator_kind(operator));
            lemma_no_digits_fit(sign);
            let b1 = open + expr_bytes(*left);
            let b2 = b1 + space;
            let b3 = b2 + sign;
            let b4 = b3 + space;
            let b5 = b4 + expr_bytes(*right);
            lemma_fit_together(open, expr_bytes(*left));
            lemma_fit_together(b1, space);
            assert(b2.last() == 0x20u8);
            lemma_fit_together(b2, sign);
            lemma_fit_together(b3, space);
            assert(b4.last() == 0x20u8);
            lemma_fit_together(b4, expr_bytes(*right));
            lemma_fit_together(b5, close);
        },
        ExprView::Call(callee, arguments) => {
            lemma_expr_fits(*callee);
            lemma_list_fits(arguments, 0);
            let b1 = expr_bytes(*callee) + open;
            lemma_fit_together(expr_bytes(*callee), open);
            assert(b1.last() == 0x28u8);
            lemma_fit_together(b1, list_bytes(arguments, 0));
        },
        ExprView::If(condition, consequence, _) => {
            lemma_expr_fits(*condition);
            lemma_block_fits(consequence, 0);
            let head = seq![0x69u8, 0x66u8, 0x20u8];
            let brace = seq![0x20u8, 0x7bu8, 0x20u8];
            lemma_no_digits_fit(head);
            lemma_no_digits_fit(brace);
            let b1 = head + expr_bytes(*condition);
            let b2 = b1 + brace;
            lemma_fit_together(head, expr_bytes(*condition));
            lemma_fit_together(b1, brace);
            assert(b2.last() == 0x20u8);
            lemma_fit_together(b2, block_bytes(consequence, 0));
        },
        ExprView::Function(parameters, body) => {
            lemma_list_fits(parameters, 0);
            lemma_block_fits(body, 0);
            let head = seq![0x66u8, 0x6eu8, 0x20u8, 0x28u8];
            let brace = seq![0x7bu8, 0x20u8];
            lemma_no_digits_fit(head);
            lemma_no_digits_fit(brace);
            let b1 = head + list_bytes(parameters, 0);
            let b2 = b1 + brace;
            lemma_fit_together(head, list_bytes(parameters, 0));
            lemma_fit_together(b1, brace);
            assert(b2.last() == 0x20u8);
            lemma_fit_together(b2, block_bytes(body, 0));
        },
    }
}

/// Every number in the bytes that spell the elements of a list has a value.
proof fn lemma_list_fits(list: Seq<ExprView>, from: int)
    requires
        0 <= from,
        forall|i: int| 0 <= i < list.len() ==> is_plain(#[trigger] list[i]),
        forall|i: int| 0 <= i < list.len() ==> has_words(#[trigger] list[i]),
    ensures
        numbers_fit(list_bytes(list, from)),
        list_bytes(list, from).len() > 0,
    decreases list, list.len() - from,
{
    let close = seq![0x29u8];
    let comma = seq![0x2cu8];
    lemma_no_digits_fit(close);
    lemma_no_digits_fit(comma);
    if from < list.len() {
        let first = list[from];
        assert(is_plain(first) && has_words(first));
        lemma_expr_fits(first);
        let tail = list_tail_bytes(list, from);
        if from + 1 < list.len() {
            lemma_list_fits(list, from + 1);
            lemma_fit_together(comma, list_bytes(list, from + 1));
            assert(tail[0] == 0x2cu8);
        } else {
            assert(tail[0] == 0x29u8);
        }
        lemma_fit_together(expr_bytes(first), tail);
    }
}

/// Every number in the bytes that spell a plain statement has a value.
proof fn lemma_stmt_fits(statement: StmtView)
    requires
        is_plain_statement(statement),
        stmt_has_words(statement),
    ensures
        numbers_fit(stmt_bytes(statement)),
        !(statement is Expression) ==> stmt_bytes(statement).len() > 0 && !is_digit(
            stmt_bytes(statement).last(),
        ) && !is_digit(stmt_bytes(statement)[0]),
    decreases statement, 0int,
{
    let close = seq![0x3bu8];
    lemma_no_digits_fit(close);
    match statement {
        StmtView::Let(name, value) => {
            lemma_expr_fits(value);
            let head = seq![0x4cu8, 0x45u8, 0x54u8, 0x20u8];
            let sign = seq![0x20u8, 0x3du8, 0x20u8];
            lemma_no_digits_fit(head);
            lemma_no_digits_fit(sign);
            assert forall|i: int| 0 <= i < text_bytes(name).len() implies !is_digit(
                #[trigger] text_bytes(name)[i],
            ) by {
                assert(is_letter(name[i] as u8));
            }
            lemma_no_digits_fit(text_bytes(name));
            let b1 = head + text_bytes(name);
            let b2 = b1 + sign;
            let b3 = b2 + expr_bytes(value);
            lemma_fit_together(head, text_bytes(name));
            lemma_fit_together(b1, sign);
            assert(b2.last() == 0x20u8);
            lemma_fit_together(b2, expr_bytes(value));
            lemma_fit_together(b3, close);
            assert((b3 + close).last() == 0x3bu8);
            assert((b3 + close)[0] == 0x4cu8);
        },
        StmtView::Return(value) => {
            lemma_expr_fits(value);
            let head = seq![0x52u8, 0x45u8, 0x54u8, 0x55u8, 0x52u8, 0x4eu8, 0x20u8];
            lemma_no_digits_fit(head);
            let b1 = head + expr_bytes(value);
            lemma_fit_together(head, expr_bytes(value));
            lemma_fit_together(b1, close);
            assert((b1 + close).last() == 0x3bu8);
            assert((b1 + close)[0] == 0x52u8);
        },
        StmtView::Expression(value) => {
            lemma_expr_fits(value);
        },
    }
}

/// Every number in the bytes that spell the statements of a plain block has
/// a value.
proof fn lemma_block_fits(block: Seq<StmtView>, from: int)
    requires
        0 <= from,
        is_plain_block(block),
        block_has_words(block),
    ensures
        numbers_fit(block_bytes(block, from)),
        block_bytes(block, from).len() > 0,
        !is_digit(block_bytes(block, from)[0]) || (from < block.len()
            && block[from] is Expression),
    decreases block, block.len() - from,
{
    let close = seq![0x20u8, 0x7du8];
    lemma_no_digits_fit(close);
    if from < block.len() {
        let first = block[from];
        assert(is_plain_statement(first) && stmt_has_words(first));
        lemma_stmt_fits(first);
        lemma_block_fits(block, from + 1);
        let rest = block_bytes(block, from + 1);
        if first is Expression {
            assert(from + 1 >= block.len());
            assert(rest[0] == 0x20u8);
        } else {
            assert((stmt_bytes(first) + rest)[0] == stmt_bytes(first)[0]);
        }
        lemma_fit_together(stmt_bytes(first), rest);
    }
}

/// The scanner accepts the text that reconstructs a plain expression whose
/// names are words: every integer literal in it has a value.
pub proof fn lemma_text_fits(e: ExprView)
    requires
        is_plain(e),
        has_words(e),
    ensures
        numbers_fit(source_of(e.text())),
{
    lemma_expr_fits(e);
    lemma_expr_text(e);
    lemma_ascii_source(expr_bytes(e));
}

} // verus!
