//! The scanner: from source bytes to tokens, one at a time, with one byte of
//! lookahead and no backtracking.
use vstd::prelude::*;
use vstd::utf8::encode_utf8;
use crate::text::{
    all_digits, bytes_text, decimal_of, decimal_value, is_digit, lemma_decimal_prefix,
    lemma_decimal_suffix, text_of,
};
use crate::token::{Token, TokenKind, TokenType, TokenTypeView, TokenView};

verus! {

/// Whether `b` may stand in an identifier: an ASCII letter or an underscore.
pub open spec fn is_letter(b: u8) -> bool {
    (0x41 <= b <= 0x5a) || (0x61 <= b <= 0x7a) || b == 0x5f
}

/// The bytes that the scanner reads for the text `text`.
pub open spec fn source_of(text: Seq<char>) -> Seq<u8> {
    encode_utf8(text)
}

/// The byte at `at`; zero, the end marker, past the end of the source.
pub open spec fn byte_at(source: Seq<u8>, at: int) -> u8 {
    if 0 <= at < source.len() {
        source[at]
    } else {
        0
    }
}

/// The first position at or after `from` that holds no space character.
pub open spec fn spaces_end(source: Seq<u8>, from: int) -> int
    decreases source.len() - from,
{
    if 0 <= from < source.len() && source[from] == 0x20 {
        spaces_end(source, from + 1)
    } else {
        from
    }
}

/// The first position at or after `from` that holds no identifier byte.
pub open spec fn letters_end(source: Seq<u8>, from: int) -> int
    decreases source.len() - from,
{
    if 0 <= from < source.len() && is_letter(source[from]) {
        letters_end(source, from + 1)
    } else {
        from
    }
}

/// The first position at or after `from` that holds no decimal digit.
pub open spec fn digits_end(source: Seq<u8>, from: int) -> int
    decreases source.len() - from,
{
    if 0 <= from < source.len() && is_digit(source[from]) {
        digits_end(source, from + 1)
    } else {
        from
    }
}

/// The token type of a run of identifier bytes: a keyword in lower or in
/// upper case, else an identifier of that name.
pub open spec fn keyword(text: Seq<char>) -> TokenTypeView {
    if text == "fn"@ || text == "FN"@ {
        TokenTypeView::plain(TokenKind::Function)
    } else if text == "let"@ || text == "LET"@ {
        TokenTypeView::plain(TokenKind::Let)
    } else if text == "if"@ || text == "IF"@ {
        TokenTypeView::plain(TokenKind::If)
    } else if text == "else"@ || text == "ELSE"@ {
        TokenTypeView::plain(TokenKind::Else)
    } else if text == "return"@ || text == "RETURN"@ {
        TokenTypeView::plain(TokenKind::Return)
    } else if text == "true"@ || text == "TRUE"@ {
        TokenTypeView::plain(TokenKind::True)
    } else if text == "false"@ || text == "FALSE"@ {
        TokenTypeView::plain(TokenKind::False)
    } else {
        TokenTypeView::identifier(text)
    }
}

/// The kind of the token that starts with the byte `b`, where `b` starts
/// neither an identifier nor a number nor a two-byte operator.
pub open spec fn symbol_kind(b: u8) -> TokenKind {
    if b == 0x2b {
        TokenKind::Plus
    } else if b == 0x2c {
        TokenKind::Comma
    } else if b == 0x2d {
        TokenKind::Minus
    } else if b == 0x2a {
        TokenKind::Asterisk
    } else if b == 0x2f {
        TokenKind::Slash
    } else if b == 0x21 {
        TokenKind::Bang
    } else if b == 0x3d {
        TokenKind::Assign
    } else if b == 0x3b {
        TokenKind::Semicolon
    } else if b == 0x28 {
        TokenKind::LParen
    } else if b == 0x29 {
        TokenKind::RParen
    } else if b == 0x7b {
        TokenKind::LBrace
    } else if b == 0x7d {
        TokenKind::RBrace
    } else if b == 0x3c {
        TokenKind::Lt
    } else if b == 0x3e {
        TokenKind::Gt
    } else if b == 0 {
        TokenKind::Eof
    } else {
        TokenKind::Illegal
    }
}

/// One step of the scanner: the token read and the position after it.
pub struct Scan {
    pub token: TokenView,
    pub next: int,
}

/// The token that starts at or after `from`, and where the scan goes on.
///
/// Spaces are skipped, and nothing else.  At the end of the source the end
/// marker comes with an empty literal and the position stays; everywhere else
/// the literal is the text of the bytes read.
#[verifier::opaque]
pub open spec fn scan(source: Seq<u8>, from: int) -> Scan {
    let start = spaces_end(source, from);
    let first = byte_at(source, start);
    if start >= source.len() {
        Scan {
            token: TokenView {
                tokentype: TokenTypeView::plain(TokenKind::Eof),
                literal: Seq::empty(),
            },
            next: start,
        }
    } else if is_letter(first) {
        let end = letters_end(source, start);
        let word = bytes_text(source.subrange(start, end));
        Scan { token: TokenView { tokentype: keyword(word), literal: word }, next: end }
    } else if is_digit(first) {
        let end = digits_end(source, start);
        let digits = source.subrange(start, end);
        Scan {
            token: TokenView {
                tokentype: TokenTypeView::integer(decimal_value(digits) as usize),
                literal: bytes_text(digits),
            },
            next: end,
        }
    } else if (first == 0x21 || first == 0x3d) && byte_at(source, start + 1) == 0x3d {
        Scan {
            token: TokenView {
                tokentype: TokenTypeView::plain(
                    if first == 0x21 {
                        TokenKind::NotEqual
                    } else {
                        TokenKind::Equal
                    },
                ),
                literal: bytes_text(source.subrange(start, start + 2)),
            },
            next: start + 2,
        }
    } else {
        Scan {
            token: TokenView {
                tokentype: TokenTypeView::plain(symbol_kind(first)),
                literal: bytes_text(source.subrange(start, start + 1)),
            },
            next: start + 1,
        }
    }
}

/// Every run of digits in the source denotes a number within the machine
/// word, so that each integer literal has a value.
pub open spec fn numbers_fit(source: Seq<u8>) -> bool {
    forall|i: int|
        0 <= i <= source.len() ==> decimal_value(
            source.subrange(i, #[trigger] digits_end(source, i)),
        ) <= usize::MAX
}

/// The run of spaces from `from` ends within the source, on a byte that is no space.
pub proof fn lemma_spaces_end(source: Seq<u8>, from: int)
    requires
        0 <= from,
    ensures
        from <= spaces_end(source, from),
        spaces_end(source, from) <= source.len() || spaces_end(source, from) == from,
        byte_at(source, spaces_end(source, from)) != 0x20,
        forall|i: int| from <= i < spaces_end(source, from) ==> source[i] == 0x20,
    decreases source.len() - from,
{
    if from < source.len() && source[from] == 0x20 {
        lemma_spaces_end(source, from + 1);
    }
}

/// The run of identifier bytes from `from` ends within the source, on a byte
/// that is none.
pub proof fn lemma_letters_end(source: Seq<u8>, from: int)
    requires
        0 <= from,
    ensures
        from <= letters_end(source, from),
        letters_end(source, from) <= source.len() || letters_end(source, from) == from,
        !is_letter(byte_at(source, letters_end(source, from))),
        forall|i: int| from <= i < letters_end(source, from) ==> is_letter(source[i]),
        from < source.len() && is_letter(source[from]) ==> from < letters_end(source, from),
    decreases source.len() - from,
{
    if from < source.len() && is_letter(source[from]) {
        lemma_letters_end(source, from + 1);
    }
}

/// The run of digits from `from` ends within the source, on a byte that is none.
pub proof fn lemma_digits_end(source: Seq<u8>, from: int)
    requires
        0 <= from,
    ensures
        from <= digits_end(source, from),
        digits_end(source, from) <= source.len() || digits_end(source, from) == from,
        !is_digit(byte_at(source, digits_end(source, from))),
        from <= source.len() ==> all_digits(source.subrange(from, digits_end(source, from))),
        from < source.len() && is_digit(source[from]) ==> from < digits_end(source, from),
    decreases source.len() - from,
{
    if from < source.len() && is_digit(source[from]) {
        lemma_digits_end(source, from + 1);
        let end = digits_end(source, from);
        assert forall|i: int| 0 <= i < end - from implies is_digit(
            #[trigger] source.subrange(from, end)[i],
        ) by {
            if i > 0 {
                assert(source.subrange(from, end)[i] == source.subrange(from + 1, end)[i - 1]);
            }
        }
    }
}

/// A run of identifier bytes ends where any of its later parts ends.
pub proof fn lemma_letters_run(source: Seq<u8>, from: int, upto: int)
    requires
        0 <= from <= upto <= source.len(),
        forall|i: int| from <= i < upto ==> is_letter(source[i]),
    ensures
        letters_end(source, from) == letters_end(source, upto),
    decreases upto - from,
{
    if from < upto {
        lemma_letters_run(source, from + 1, upto);
    }
}

/// A run of digits ends where any of its later parts ends.
pub proof fn lemma_digits_run(source: Seq<u8>, from: int, upto: int)
    requires
        0 <= from <= upto <= source.len(),
        forall|i: int| from <= i < upto ==> is_digit(source[i]),
    ensures
        digits_end(source, from) == digits_end(source, upto),
    decreases upto - from,
{
    if from < upto {
        lemma_digits_run(source, from + 1, upto);
    }
}

/// A step of the scanner never moves back and never leaves the source; before
/// the end of the source it moves on.
pub proof fn lemma_scan_advances(source: Seq<u8>, from: int)
    requires
        0 <= from,
    ensures
        from <= scan(source, from).next,
        scan(source, from).next <= source.len() || scan(source, from).next == from,
        from < source.len() ==> from < scan(source, from).next,
        from >= source.len() ==> scan(source, from).token.kind() == TokenKind::Eof,
{
    reveal(scan);
    lemma_spaces_end(source, from);
    let start = spaces_end(source, from);
    lemma_letters_end(source, start);
    lemma_digits_end(source, start);
}

/// The tokens of the source from `from` on, up to and including the first
/// end marker.
pub open spec fn tokens(source: Seq<u8>, from: int) -> Seq<TokenView>
    decreases source.len() - from,
{
    let step = scan(source, from);
    if from < 0 || step.token.kind() == TokenKind::Eof {
        seq![step.token]
    } else {
        proof {
            lemma_scan_advances(source, from);
        }
        seq![step.token] + tokens(source, step.next)
    }
}

/// Whether `letter` may stand in an identifier.
pub fn is_valid_letter(letter: u8) -> (valid: bool)
    ensures
        valid == is_letter(letter),
{
    (letter >= 0x41 && letter <= 0x5a) || (letter >= 0x61 && letter <= 0x7a) || letter == 0x5f
}

/// Whether `letter` is a decimal digit.
pub fn is_valid_number(letter: u8) -> (valid: bool)
    ensures
        valid == is_digit(letter),
{
    letter >= 0x30 && letter <= 0x39
}

/// Whether `word` reads `text`.
fn reads(word: &String, text: &str) -> (same: bool)
    ensures
        same == (word@ == text@),
{
    *word == String::from_str(text)
}

/// The token type of a run of identifier bytes: a keyword, in lower or in
/// upper case, or else an identifier that carries the text.
pub fn token_from_identifier(ident: String) -> (t: TokenType)
    ensures
        t@ == keyword(ident@),
{
    if reads(&ident, "fn") || reads(&ident, "FN") {
        TokenType::FUNCTION
    } else if reads(&ident, "let") || reads(&ident, "LET") {
        TokenType::LET
    } else if reads(&ident, "if") || reads(&ident, "IF") {
        TokenType::IF
    } else if reads(&ident, "else") || reads(&ident, "ELSE") {
        TokenType::ELSE
    } else if reads(&ident, "return") || reads(&ident, "RETURN") {
        TokenType::RETURN
    } else if reads(&ident, "true") || reads(&ident, "TRUE") {
        TokenType::TRUE
    } else if reads(&ident, "false") || reads(&ident, "FALSE") {
        TokenType::FALSE
    } else {
        TokenType::IDENT(ident)
    }
}

/// A scanner over one source text.
pub struct Lexer {
    input: Vec<u8>,
    position: usize,
    read_position: usize,
    ch: u8,
}

impl Lexer {
    /// The bytes that the scanner reads.
    pub closed spec fn source(&self) -> Seq<u8> {
        self.input@
    }

    /// The position of the byte that the scanner looks at; the length of the
    /// source once it is used up.
    pub closed spec fn cursor(&self) -> nat {
        self.position as nat
    }

    /// The scanner is within its source, looks at the byte under its position,
    /// and every integer literal of the source has a value.
    pub closed spec fn wf(&self) -> bool {
        &&& self.position <= self.input.len()
        &&& self.read_position == if self.position < self.input.len() {
            self.position + 1
        } else {
            self.input.len() as int
        }
        &&& self.ch == byte_at(self.input@, self.position as int)
        &&& numbers_fit(self.input@)
    }

    /// The cursor of a well-formed scanner lies within the source.
    pub proof fn lemma_cursor_in_source(&self)
        requires
            self.wf(),
        ensures
            self.cursor() <= self.source().len(),
            numbers_fit(self.source()),
    {
    }

    /// Whether the scanner can read `input`: every integer literal in it has
    /// a value within the machine word.
    pub fn accepts(input: &String) -> (ok: bool)
        ensures
            ok == numbers_fit(source_of(input@)),
    {
        let bytes = input.as_str().as_bytes_vec();
        let mut start: usize = 0;
        let mut value: usize = 0;
        let mut i: usize = 0;
        while i < bytes.len()
            invariant
                bytes@ == source_of(input@),
                start <= i <= bytes.len(),
                forall|k: int| start <= k < i ==> is_digit(bytes@[k]),
                value == decimal_value(bytes@.subrange(start as int, i as int)),
                forall|k: int|
                    0 <= k < start ==> decimal_value(
                        bytes@.subrange(k, #[trigger] digits_end(bytes@, k)),
                    ) <= usize::MAX,
            decreases bytes.len() - i,
        {
            let b = bytes[i];
            if is_valid_number(b) {
                let digit = (b - 0x30) as usize;
                let wider = match value.checked_mul(10) {
                    Some(tens) => tens.checked_add(digit),
                    None => None,
                };
                proof {
                    let run = bytes@.subrange(start as int, i + 1);
                    assert(run.drop_last() == bytes@.subrange(start as int, i as int));
                    assert(run.last() == b);
                }
                match wider {
                    Some(more) => {
                        value = more;
                    },
                    None => {
                        proof {
                            let end = digits_end(bytes@, start as int);
                            lemma_digits_run(bytes@, start as int, i + 1);
                            lemma_digits_end(bytes@, i + 1);
                            lemma_digits_end(bytes@, start as int);
                            let whole = bytes@.subrange(start as int, end);
                            lemma_decimal_prefix(whole, i + 1 - start);
                            assert(whole.take(i + 1 - start) == bytes@.subrange(
                                start as int,
                                i + 1,
                            ));
                        }
                        return false;
                    },
                }
            } else {
                proof {
                    let run = bytes@.subrange(start as int, i as int);
                    assert forall|k: int| start <= k <= i implies decimal_value(
                        bytes@.subrange(k, #[trigger] digits_end(bytes@, k)),
                    ) <= usize::MAX by {
                        lemma_digits_run(bytes@, k, i as int);
                        lemma_decimal_suffix(run, k - start);
                        assert(run.skip(k - start) == bytes@.subrange(k, i as int));
                    }
                }
                start = i + 1;
                value = 0;
            }
            i += 1;
        }
        proof {
            let run = bytes@.subrange(start as int, i as int);
            assert forall|k: int| start <= k <= i implies decimal_value(
                bytes@.subrange(k, #[trigger] digits_end(bytes@, k)),
            ) <= usize::MAX by {
                lemma_digits_run(bytes@, k, i as int);
                lemma_decimal_suffix(run, k - start);
                assert(run.skip(k - start) == bytes@.subrange(k, i as int));
            }
        }
        true
    }

    /// A scanner at the start of `input`.
    pub fn new(input: String) -> (lexer: Lexer)
        requires
            numbers_fit(source_of(input@)),
        ensures
            lexer.wf(),
            lexer.source() == source_of(input@),
            lexer.cursor() == 0,
    {
        let bytes = input.as_str().as_bytes_vec();
        let ch: u8 = if bytes.len() > 0 {
            bytes[0]
        } else {
            0
        };
        let read_position: usize = if bytes.len() > 0 {
            1
        } else {
            0
        };
        Lexer { input: bytes, position: 0, read_position, ch }
    }

    /// Moves to the next byte; at the end of the source the scanner stays.
    pub fn read_char(&mut self)
        requires
            old(self).wf(),
        ensures
            final(self).wf(),
            final(self).source() == old(self).source(),
            final(self).cursor() == if old(self).cursor() < old(self).source().len() {
                old(self).cursor() + 1
            } else {
                old(self).cursor()
            },
    {
        if self.read_position < self.input.len() {
            self.ch = self.input[self.read_position];
            self.position = self.read_position;
            self.read_position = self.read_position + 1;
        } else {
            self.ch = 0;
            self.position = self.input.len();
        }
    }

    /// The byte after the one the scanner looks at, without moving.
    pub fn peek_char(&mut self) -> (next: u8)
        requires
            old(self).wf(),
        ensures
            *final(self) == *old(self),
            next == byte_at(old(self).source(), old(self).cursor() as int + 1),
    {
        if self.read_position < self.input.len() && self.position < self.input.len() {
            self.input[self.read_position]
        } else {
            0
        }
    }

    /// Moves past the run of spaces under the cursor.
    pub fn skip_whitespace(&mut self)
        requires
            old(self).wf(),
        ensures
            final(self).wf(),
            final(self).source() == old(self).source(),
            final(self).cursor() == spaces_end(old(self).source(), old(self).cursor() as int),
    {
        while self.ch == 0x20
            invariant
                self.wf(),
                self.input@ == old(self).input@,
                old(self).position <= self.position,
                spaces_end(self.input@, self.position as int) == spaces_end(
                    old(self).input@,
                    old(self).position as int,
                ),
            decreases self.input.len() - self.position,
        {
            self.read_char();
        }
    }

    /// Reads the run of identifier bytes under the cursor and moves past it.
    pub fn read_identifier(&mut self) -> (word: String)
        requires
            old(self).wf(),
        ensures
            final(self).wf(),
            final(self).source() == old(self).source(),
            final(self).cursor() == letters_end(old(self).source(), old(self).cursor() as int),
            word@ == bytes_text(
                old(self).source().subrange(old(self).cursor() as int, final(self).cursor() as int),
            ),
    {
        let start = self.position;
        while is_valid_letter(self.ch)
            invariant
                self.wf(),
                self.input@ == old(self).input@,
                start == old(self).position,
                start <= self.position,
                letters_end(self.input@, self.position as int) == letters_end(
                    old(self).input@,
                    start as int,
                ),
            decreases self.input.len() - self.position,
        {
            self.read_char();
        }
        text_of(&self.input, start, self.position)
    }

    /// Reads the run of digits under the cursor and moves past it.
    pub fn read_number(&mut self) -> (digits: String)
        requires
            old(self).wf(),
        ensures
            final(self).wf(),
            final(self).source() == old(self).source(),
            final(self).cursor() == digits_end(old(self).source(), old(self).cursor() as int),
            digits@ == bytes_text(
                old(self).source().subrange(old(self).cursor() as int, final(self).cursor() as int),
            ),
    {
        let start = self.position;
        while is_valid_number(self.ch)
            invariant
                self.wf(),
                self.input@ == old(self).input@,
                start == old(self).position,
                start <= self.position,
                digits_end(self.input@, self.position as int) == digits_end(
                    old(self).input@,
                    start as int,
                ),
            decreases self.input.len() - self.position,
        {
            self.read_char();
        }
        text_of(&self.input, start, self.position)
    }

    /// Reads the next token and moves past it.
    #[allow(non_snake_case)]
    pub fn nextToken(&mut self) -> (token: Token)
        requires
            old(self).wf(),
        ensures
            final(self).wf(),
            final(self).source() == old(self).source(),
            token@ == scan(old(self).source(), old(self).cursor() as int).token,
            final(self).cursor() == scan(old(self).source(), old(self).cursor() as int).next,
    {
        self.skip_whitespace();
        let start = self.position;
        proof {
            reveal(scan);
            lemma_spaces_end(old(self).input@, old(self).position as int);
            lemma_letters_end(self.input@, start as int);
            lemma_digits_end(self.input@, start as int);
        }
        let first = self.ch;
        let kind = if first == 0x2b {
            TokenKind::Plus
        } else if first == 0x2c {
            TokenKind::Comma
        } else if first == 0x2d {
            TokenKind::Minus
        } else if first == 0x2a {
            TokenKind::Asterisk
        } else if first == 0x2f {
            TokenKind::Slash
        } else if first == 0x21 {
            if self.peek_char() == 0x3d {
                self.read_char();
                TokenKind::NotEqual
            } else {
                TokenKind::Bang
            }
        } else if first == 0x3d {
            if self.peek_char() == 0x3d {
                self.read_char();
                TokenKind::Equal
            } else {
                TokenKind::Assign
            }
        } else if first == 0x3b {
            TokenKind::Semicolon
        } else if first == 0x28 {
            TokenKind::LParen
        } else if first == 0x29 {
            TokenKind::RParen
        } else if first == 0x7b {
            TokenKind::LBrace
        } else if first == 0x7d {
            TokenKind::RBrace
        } else if first == 0x3c {
            TokenKind::Lt
        } else if first == 0x3e {
            TokenKind::Gt
        } else if first == 0 {
            TokenKind::Eof
        } else if is_valid_letter(first) {
            let literal = self.read_identifier();
            let tokentype = token_from_identifier(literal.clone());
            return Token::new(tokentype, literal);
        } else if is_valid_number(first) {
            let literal = self.read_number();
            let value = decimal_of(&self.input, start, self.position);
            return Token::new(TokenType::INT(value), literal);
        } else {
            TokenKind::Illegal
        };
        self.read_char();
        let literal = text_of(&self.input, start, self.position);
        assert(start == self.input.len() ==> literal@ =~= Seq::<char>::empty());
        Token::new(TokenType::of_kind(kind), literal)
    }
}

} // verus!
