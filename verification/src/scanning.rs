//! Laws of the scanner: what holds of every source text.
use vstd::prelude::*;
use crate::lexer::{
    byte_at, digits_end, is_letter, keyword, lemma_digits_run, lemma_letters_run,
    lemma_scan_advances, letters_end, scan, spaces_end, tokens,
};
use crate::text::{bytes_text, decimal_value, is_digit};
use crate::token::{TokenKind, TokenTypeView, TokenView};

verus! {

/// The run of spaces in the back part of a source ends where it ends in the
/// back part alone.
pub proof fn lemma_spaces_end_shift(front: Seq<u8>, back: Seq<u8>, at: int)
    requires
        0 <= at,
    ensures
        spaces_end(front + back, front.len() + at) == front.len() + spaces_end(back, at),
    decreases back.len() - at,
{
    if at < back.len() {
        assert((front + back)[front.len() + at] == back[at]);
        if back[at] == 0x20 {
            lemma_spaces_end_shift(front, back, at + 1);
        }
    }
}

/// The run of identifier bytes in the back part of a source ends where it
/// ends in the back part alone.
pub proof fn lemma_letters_end_shift(front: Seq<u8>, back: Seq<u8>, at: int)
    requires
        0 <= at,
    ensures
        letters_end(front + back, front.len() + at) == front.len() + letters_end(back, at),
    decreases back.len() - at,
{
    if at < back.len() {
        assert((front + back)[front.len() + at] == back[at]);
        if is_letter(back[at]) {
            lemma_letters_end_shift(front, back, at + 1);
        }
    }
}

/// The run of digits in the back part of a source ends where it ends in the
/// back part alone.
pub proof fn lemma_digits_end_shift(front: Seq<u8>, back: Seq<u8>, at: int)
    requires
        0 <= at,
    ensures
        digits_end(front + back, front.len() + at) == front.len() + digits_end(back, at),
    decreases back.len() - at,
{
    if at < back.len() {
        assert((front + back)[front.len() + at] == back[at]);
        if is_digit(back[at]) {
            lemma_digits_end_shift(front, back, at + 1);
        }
    }
}

/// A step of the scanner looks at nothing before its position: in the back
/// part of a source it reads the token that it reads in the back part alone.
pub proof fn lemma_scan_shift(front: Seq<u8>, back: Seq<u8>, at: int)
    requires
        0 <= at,
    ensures
        scan(front + back, front.len() + at).token == scan(back, at).token,
        scan(front + back, front.len() + at).next == front.len() + scan(back, at).next,
{
    reveal(scan);
    let whole = front + back;
    let shift = front.len() as int;
    lemma_spaces_end_shift(front, back, at);
    crate::lexer::lemma_spaces_end(back, at);
    let start = spaces_end(back, at);
    lemma_letters_end_shift(front, back, start);
    lemma_digits_end_shift(front, back, start);
    crate::lexer::lemma_letters_end(back, start);
    crate::lexer::lemma_digits_end(back, start);
    assert(byte_at(whole, shift + start) == byte_at(back, start));
    assert(byte_at(whole, shift + start + 1) == byte_at(back, start + 1));
    if start < back.len() {
        let word_end = letters_end(back, start);
        let number_end = digits_end(back, start);
        assert(whole.subrange(shift + start, shift + word_end) =~= back.subrange(start, word_end));
        assert(whole.subrange(shift + start, shift + number_end) =~= back.subrange(
            start,
            number_end,
        ));
        assert(whole.subrange(shift + start, shift + start + 1) =~= back.subrange(
            start,
            start + 1,
        ));
        if start + 2 <= back.len() {
            assert(whole.subrange(shift + start, shift + start + 2) =~= back.subrange(
                start,
                start + 2,
            ));
        }
    }
}

/// The tokens of the back part of a source are the tokens of the back part alone.
pub proof fn lemma_tokens_shift(front: Seq<u8>, back: Seq<u8>, at: int)
    requires
        0 <= at,
    ensures
        tokens(front + back, front.len() + at) == tokens(back, at),
    decreases back.len() - at,
{
    lemma_scan_shift(front, back, at);
    lemma_scan_advances(back, at);
    if scan(back, at).token.kind() != TokenKind::Eof {
        lemma_tokens_shift(front, back, scan(back, at).next);
    }
}

/// Each keyword, in lower and in upper case, has its own token type.
pub proof fn lemma_keywords()
    ensures
        keyword("fn"@) == TokenTypeView::plain(TokenKind::Function),
        keyword("FN"@) == TokenTypeView::plain(TokenKind::Function),
        keyword("let"@) == TokenTypeView::plain(TokenKind::Let),
        keyword("LET"@) == TokenTypeView::plain(TokenKind::Let),
        keyword("if"@) == TokenTypeView::plain(TokenKind::If),
        keyword("IF"@) == TokenTypeView::plain(TokenKind::If),
        keyword("else"@) == TokenTypeView::plain(TokenKind::Else),
        keyword("ELSE"@) == TokenTypeView::plain(TokenKind::Else),
        keyword("return"@) == TokenTypeView::plain(TokenKind::Return),
        keyword("RETURN"@) == TokenTypeView::plain(TokenKind::Return),
        keyword("true"@) == TokenTypeView::plain(TokenKind::True),
        keyword("TRUE"@) == TokenTypeView::plain(TokenKind::True),
        keyword("false"@) == TokenTypeView::plain(TokenKind::False),
        keyword("FALSE"@) == TokenTypeView::plain(TokenKind::False),
{
    reveal_strlit("fn");
    reveal_strlit("FN");
    reveal_strlit("let");
    reveal_strlit("LET");
    reveal_strlit("if");
    reveal_strlit("IF");
    reveal_strlit("else");
    reveal_strlit("ELSE");
    reveal_strlit("return");
    reveal_strlit("RETURN");
    reveal_strlit("true");
    reveal_strlit("TRUE");
    reveal_strlit("false");
    reveal_strlit("FALSE");
    assert("fn"@.len() == 2 && "FN"@.len() == 2 && "if"@.len() == 2 && "IF"@.len() == 2);
    assert("let"@.len() == 3 && "LET"@.len() == 3);
    assert("else"@.len() == 4 && "ELSE"@.len() == 4 && "true"@.len() == 4 && "TRUE"@.len() == 4);
    assert("false"@.len() == 5 && "FALSE"@.len() == 5);
    assert("return"@.len() == 6 && "RETURN"@.len() == 6);
    assert("fn"@[0] == 'f' && "FN"@[0] == 'F' && "if"@[0] == 'i' && "IF"@[0] == 'I');
    assert("else"@[0] == 'e' && "ELSE"@[0] == 'E' && "true"@[0] == 't' && "TRUE"@[0] == 'T');
    assert("let"@[0] == 'l' && "LET"@[0] == 'L');
    assert("false"@[0] == 'f' && "FALSE"@[0] == 'F');
    assert("return"@[0] == 'r' && "RETURN"@[0] == 'R');
}

/// Whether `text` is one of the keywords, in lower or in upper case.
pub open spec fn is_keyword(text: Seq<char>) -> bool {
    text == "fn"@ || text == "FN"@ || text == "let"@ || text == "LET"@ || text == "if"@ || text
        == "IF"@ || text == "else"@ || text == "ELSE"@ || text == "return"@ || text == "RETURN"@
        || text == "true"@ || text == "TRUE"@ || text == "false"@ || text == "FALSE"@
}

/// A run of identifier bytes scans to its keyword, or, if it is none, to an
/// identifier that carries exactly the text of the run.
pub proof fn lemma_word_scans(source: Seq<u8>, from: int, end: int)
    requires
        0 <= from < end <= source.len(),
        forall|i: int| from <= i < end ==> is_letter(source[i]),
        !is_letter(byte_at(source, end)),
    ensures
        scan(source, from).next == end,
        scan(source, from).token.literal == bytes_text(source.subrange(from, end)),
        scan(source, from).token.tokentype == keyword(bytes_text(source.subrange(from, end))),
        !is_keyword(bytes_text(source.subrange(from, end))) ==> scan(source, from).token.tokentype
            == TokenTypeView::identifier(bytes_text(source.subrange(from, end))),
{
    reveal(scan);
    lemma_letters_run(source, from, end);
    assert(is_letter(source[from]));
}

/// A run of digits scans to an integer token whose value is the number that
/// the run denotes in decimal, as long as the machine word holds it.
pub proof fn lemma_number_scans(source: Seq<u8>, from: int, end: int)
    requires
        0 <= from < end <= source.len(),
        forall|i: int| from <= i < end ==> is_digit(source[i]),
        !is_digit(byte_at(source, end)),
        decimal_value(source.subrange(from, end)) <= usize::MAX,
    ensures
        scan(source, from).next == end,
        scan(source, from).token.kind() == TokenKind::Int,
        scan(source, from).token.tokentype.value == decimal_value(source.subrange(from, end)),
        scan(source, from).token.literal == bytes_text(source.subrange(from, end)),
{
    reveal(scan);
    lemma_digits_run(source, from, end);
    assert(is_digit(source[from]));
}

/// Whether a token of kind `kind` is an operator or a delimiter: a token of
/// one or two bytes that is neither a word nor a number.
pub open spec fn is_symbol(kind: TokenKind) -> bool {
    kind == TokenKind::Assign || kind == TokenKind::Plus || kind == TokenKind::Minus || kind
        == TokenKind::Asterisk || kind == TokenKind::Slash || kind == TokenKind::Bang || kind
        == TokenKind::Comma || kind == TokenKind::Semicolon || kind == TokenKind::LParen || kind
        == TokenKind::RParen || kind == TokenKind::LBrace || kind == TokenKind::RBrace || kind
        == TokenKind::Lt || kind == TokenKind::Gt || kind == TokenKind::Equal || kind
        == TokenKind::NotEqual
}

/// The bytes of a symbol.
pub open spec fn symbol_bytes(kind: TokenKind) -> Seq<u8> {
    match kind {
        TokenKind::Assign => seq![0x3du8],
        TokenKind::Plus => seq![0x2bu8],
        TokenKind::Minus => seq![0x2du8],
        TokenKind::Asterisk => seq![0x2au8],
        TokenKind::Slash => seq![0x2fu8],
        TokenKind::Bang => seq![0x21u8],
        TokenKind::Comma => seq![0x2cu8],
        TokenKind::Semicolon => seq![0x3bu8],
        TokenKind::LParen => seq![0x28u8],
        TokenKind::RParen => seq![0x29u8],
        TokenKind::LBrace => seq![0x7bu8],
        TokenKind::RBrace => seq![0x7du8],
        TokenKind::Lt => seq![0x3cu8],
        TokenKind::Gt => seq![0x3eu8],
        TokenKind::Equal => seq![0x3du8, 0x3du8],
        TokenKind::NotEqual => seq![0x21u8, 0x3du8],
        _ => Seq::empty(),
    }
}

/// The source that spells the symbols `kinds` one after the other.
pub open spec fn symbols_source(kinds: Seq<TokenKind>) -> Seq<u8>
    decreases kinds.len(),
{
    if kinds.len() == 0 {
        Seq::empty()
    } else {
        symbol_bytes(kinds[0]) + symbols_source(kinds.skip(1))
    }
}

/// Whether the symbol `first` runs into the symbol `second` when `second` is
/// spelled right behind it: `=` or `!` before a symbol that begins with `=`.
pub open spec fn runs_into(first: TokenKind, second: TokenKind) -> bool {
    (first == TokenKind::Assign || first == TokenKind::Bang) && (second == TokenKind::Assign
        || second == TokenKind::Equal)
}

/// Whether the symbols `kinds` stay apart when they are spelled one after the
/// other: none runs into the one behind it.
pub open spec fn stay_apart(kinds: Seq<TokenKind>) -> bool {
    forall|i: int, j: int|
        0 <= i && j == i + 1 && j < kinds.len() ==> !runs_into(
            #[trigger] kinds[i],
            #[trigger] kinds[j],
        )
}

/// The kinds of the tokens `tokens`.
pub open spec fn kinds_of(tokens: Seq<TokenView>) -> Seq<TokenKind> {
    tokens.map_values(|t: TokenView| t.kind())
}

/// The first byte of a source that spells symbols is `=` only where the
/// first symbol is `=` or `==`.
pub proof fn lemma_symbols_begin(kinds: Seq<TokenKind>)
    requires
        kinds.len() > 0,
        is_symbol(kinds[0]),
    ensures
        symbols_source(kinds).len() > 0,
        symbols_source(kinds)[0] == symbol_bytes(kinds[0])[0],
        symbols_source(kinds)[0] == 0x3d ==> kinds[0] == TokenKind::Assign || kinds[0]
            == TokenKind::Equal,
{
    let front = symbol_bytes(kinds[0]);
    let back = symbols_source(kinds.skip(1));
    assert(front.len() > 0);
    assert((front + back)[0] == front[0]);
}

/// A source that begins with a symbol scans to that symbol first, unless the
/// symbol is `=` or `!` and `=` comes behind it.
pub proof fn lemma_symbol_scans(kind: TokenKind, back: Seq<u8>)
    requires
        is_symbol(kind),
        kind == TokenKind::Assign || kind == TokenKind::Bang ==> byte_at(back, 0) != 0x3d,
    ensures
        scan(symbol_bytes(kind) + back, 0).token.kind() == kind,
        scan(symbol_bytes(kind) + back, 0).next == symbol_bytes(kind).len(),
{
    reveal(scan);
    let front = symbol_bytes(kind);
    let source = front + back;
    assert(source[0] == front[0]);
    assert(spaces_end(source, 0) == 0);
    if front.len() == 2 {
        assert(source[1] == front[1]);
    } else {
        assert(byte_at(source, 1) == byte_at(back, 0));
    }
}

/// A source that spells symbols scans to exactly those symbols, in source
/// order, and then the end marker.
pub proof fn lemma_symbols_scan(kinds: Seq<TokenKind>)
    requires
        forall|i: int| 0 <= i < kinds.len() ==> is_symbol(#[trigger] kinds[i]),
        stay_apart(kinds),
    ensures
        kinds_of(tokens(symbols_source(kinds), 0)) == kinds.push(TokenKind::Eof),
    decreases kinds.len(),
{
    let source = symbols_source(kinds);
    if kinds.len() == 0 {
        lemma_scan_advances(source, 0);
        assert(kinds_of(tokens(source, 0)) =~= kinds.push(TokenKind::Eof));
    } else {
        let first = kinds[0];
        let rest = kinds.skip(1);
        let front = symbol_bytes(first);
        let back = symbols_source(rest);
        assert(is_symbol(first));
        assert forall|i: int| 0 <= i < rest.len() implies is_symbol(#[trigger] rest[i]) by {
            assert(rest[i] == kinds[i + 1]);
        }
        assert(stay_apart(rest)) by {
            assert forall|i: int, j: int| 0 <= i && j == i + 1 && j < rest.len() implies !runs_into(
                #[trigger] rest[i],
                #[trigger] rest[j],
            ) by {
                assert(rest[i] == kinds[i + 1]);
                assert(rest[j] == kinds[j + 1]);
            }
        }
        lemma_symbols_scan(rest);
        lemma_tokens_shift(front, back, 0);
        if rest.len() > 0 {
            lemma_symbols_begin(rest);
            assert(rest[0] == kinds[1]);
            assert(!runs_into(kinds[0], kinds[1]));
        }
        lemma_symbol_scans(first, back);
        let head = scan(source, 0);
        assert(head.token.kind() != TokenKind::Eof);
        assert(tokens(source, 0) == seq![head.token] + tokens(back, 0));
        assert(kinds_of(tokens(source, 0)) =~= seq![first] + kinds_of(tokens(back, 0)));
        assert(seq![first] + rest.push(TokenKind::Eof) =~= kinds.push(TokenKind::Eof));
    }
}

} // verus!
