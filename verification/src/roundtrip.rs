//! The round trip: reconstructing an expression to text and parsing that
//! text gives the expression back.
use vstd::prelude::*;
use crate::ast::{block_text, ExprView, Precedence, StmtView};
use crate::grammar::{
    expression, expression_statement, program, standard_prefixes, statement, statements,
    ParserView,
};
use crate::laws::lemma_statements_step;
use crate::lexer::{lemma_scan_advances, scan, source_of, tokens};
use crate::reparse::{
    after, expr_tokens, is_plain, lemma_after, lemma_extension_stops, lemma_first_token,
    lemma_operand, lemma_reading_moves, on, reading, spells,
};
use crate::spelling::{
    expr_bytes, has_words, lemma_ascii_source, lemma_expr_scans, lemma_expr_text,
};
use crate::token::{TokenKind, TokenView};

verus! {

/// The state of a new parser whose current token is the one that begins at
/// or after `from`.
pub open spec fn window(source: Seq<u8>, from: int) -> ParserView {
    let first = scan(source, from);
    let second = scan(source, first.next);
    ParserView {
        source,
        cursor: second.next as nat,
        cur: first.token,
        peek: second.token,
        errors: Seq::empty(),
        halted: false,
        prefix: standard_prefixes(),
    }
}

/// A window that stands on a stream stands on it behind one more token.
proof fn lemma_on_behind(s: ParserView, stream: Seq<TokenView>, at: int, token: TokenView)
    requires
        0 <= at,
        on(s, stream, at),
    ensures
        on(s, seq![token] + stream, at + 1),
    decreases stream.len() - at,
{
    let longer = seq![token] + stream;
    if at < stream.len() {
        assert(longer[at + 1] == stream[at]);
        lemma_on_behind(s.advance(), stream, at + 1, token);
    }
}

/// A new parser stands on the tokens of its source.
pub proof fn lemma_window_reads(source: Seq<u8>, from: int)
    requires
        0 <= from,
    ensures
        on(window(source, from), tokens(source, from), 0),
    decreases source.len() - from,
{
    let s = window(source, from);
    let stream = tokens(source, from);
    let first = scan(source, from);
    lemma_scan_advances(source, from);
    lemma_scan_advances(source, first.next);
    assert(s.cur == stream[0]);
    if first.token.kind() != TokenKind::Eof {
        assert(s.advance() == window(source, first.next));
        lemma_window_reads(source, first.next);
        lemma_on_behind(s.advance(), tokens(source, first.next), 0, first.token);
    } else {
        assert(stream.len() == 1);
        assert(on(s.advance(), stream, 1));
    }
}

/// The round trip of plain expressions.
///
/// Let an expression be plain: made of names, integers, truth values, prefix
/// and binary operators, calls, function literals and conditionals, where
/// each block holds a statement and only its last statement may be a bare
/// expression, and a conditional has an operator application for its
/// condition and the same block for both branches.  Let every name in it be
/// a word that scans to an identifier.  Then the text that reconstructs the
/// expression parses to a program of one statement, which is that
/// expression; nothing is recorded and the parse does not halt.  So the
/// program reconstructs to the same text again.
pub proof fn lemma_round_trip(e: ExprView)
    requires
        is_plain(e),
        has_words(e),
    ensures
        program(ParserView::start(source_of(e.text()))).0 == seq![StmtView::Expression(e)],
        program(ParserView::start(source_of(e.text()))).1.errors.len() == 0,
        !program(ParserView::start(source_of(e.text()))).1.halted,
        block_text(program(ParserView::start(source_of(e.text()))).0) == e.text(),
{
    let source = source_of(e.text());
    let s = ParserView::start(source);
    let spelled = expr_tokens(e);
    let n = spelled.len() as int;
    // The source is spelled by the bytes of the expression and scans to its tokens.
    lemma_expr_text(e);
    lemma_ascii_source(expr_bytes(e));
    assert(source == expr_bytes(e));
    let nothing = Seq::<u8>::empty();
    assert(expr_bytes(e) + nothing =~= expr_bytes(e));
    lemma_expr_scans(e, nothing);
    lemma_scan_advances(nothing, 0);
    let stream = tokens(source, 0);
    let end = scan(nothing, 0).token;
    assert(tokens(nothing, 0) == seq![end]);
    assert(stream == spelled + seq![end]);
    assert(stream.subrange(0, n) =~= spelled);
    assert(spells(stream, 0, spelled));
    // The parser stands on these tokens.
    assert(s == window(source, 0));
    lemma_window_reads(source, 0);
    assert(reading(s, stream, 0));
    // The expression parses as an operand that does not grow.
    lemma_first_token(e);
    lemma_operand(s, stream, 0, e, Precedence::LOWEST);
    let last = after(s, (n - 1) as nat);
    lemma_reading_moves(s, stream, 0, (n - 1) as nat);
    lemma_after(s, (n - 1) as nat);
    assert(last.peek == end);
    lemma_extension_stops(last, e, Precedence::LOWEST);
    assert(expression(s, Precedence::LOWEST) == (Some(e), last));
    assert(s.cur == spelled[0]);
    assert(statement(s) == (Some(StmtView::Expression(e)), last)) by {
        reveal(statement);
        reveal(expression_statement);
        reveal(expression);
    }
    // Behind it stands the end marker.
    lemma_statements_step(s, false);
    let rest = statements(last.advance(), false);
    assert(rest == (Seq::<StmtView>::empty(), last.advance())) by {
        reveal(statements);
    }
    assert(seq![StmtView::Expression(e)] + Seq::<StmtView>::empty() =~= seq![
        StmtView::Expression(e),
    ]);
    let parsed = seq![StmtView::Expression(e)];
    assert(block_text(parsed) =~= e.text()) by {
        assert(parsed.drop_last() =~= Seq::<StmtView>::empty());
        assert(block_text(parsed.drop_last()) =~= Seq::<char>::empty());
        assert(parsed.last().text() == e.text());
    }
}

} // verus!
