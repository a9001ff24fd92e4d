//! A lookup table from words to token types, filled with the keywords that
//! introduce bindings and functions.
use vstd::prelude::*;
use crate::token::{Token, TokenKind, TokenType, TokenTypeView, TokenView};

verus! {

/// The table that a list of entries stands for: a later entry replaces an
/// earlier one for the same word.
pub open spec fn table_of(entries: Seq<(String, TokenType)>) -> Map<Seq<char>, TokenTypeView>
    decreases entries.len(),
{
    if entries.len() == 0 {
        Map::empty()
    } else {
        table_of(entries.drop_last()).insert(entries.last().0@, entries.last().1@)
    }
}

/// The words of the standard table and their token types.
pub open spec fn standard_table() -> Map<Seq<char>, TokenTypeView> {
    Map::<Seq<char>, TokenTypeView>::empty().insert(
        "LET"@,
        TokenTypeView::plain(TokenKind::Let),
    ).insert("FN"@, TokenTypeView::plain(TokenKind::Function)).insert(
        "fn"@,
        TokenTypeView::plain(TokenKind::Function),
    ).insert("let"@, TokenTypeView::plain(TokenKind::Let))
}

/// The token that a table gives for `word`: the word with its token type, or
/// the illegal token with an empty literal for a word that the table lacks.
pub open spec fn lookup(table: Map<Seq<char>, TokenTypeView>, word: Seq<char>) -> TokenView {
    if table.dom().contains(word) {
        TokenView { tokentype: table[word], literal: word }
    } else {
        TokenView { tokentype: TokenTypeView::plain(TokenKind::Illegal), literal: Seq::empty() }
    }
}

/// The entries from `from` on say nothing of `word`, so the table gives for
/// it what the entries before `from` give.
proof fn lemma_later_entries(entries: Seq<(String, TokenType)>, from: int, word: Seq<char>)
    requires
        0 <= from <= entries.len(),
        forall|j: int| from <= j < entries.len() ==> entries[j].0@ != word,
    ensures
        table_of(entries).dom().contains(word) == table_of(entries.take(from)).dom().contains(
            word,
        ),
        table_of(entries).dom().contains(word) ==> table_of(entries)[word] == table_of(
            entries.take(from),
        )[word],
    decreases entries.len() - from,
{
    if from == entries.len() {
        assert(entries.take(from) == entries);
    } else {
        let front = entries.drop_last();
        assert(front.take(from) == entries.take(from));
        lemma_later_entries(front, from, word);
    }
}

/// A table from words to token types.
pub struct TokenBuilder {
    keywords: Vec<(String, TokenType)>,
}

impl View for TokenBuilder {
    type V = Map<Seq<char>, TokenTypeView>;

    closed spec fn view(&self) -> Map<Seq<char>, TokenTypeView> {
        table_of(self.keywords@)
    }
}

impl TokenBuilder {
    /// Enters `word` with the token type `tokentype`, in place of any earlier entry.
    fn insert(&mut self, word: &str, tokentype: TokenType)
        ensures
            final(self)@ == old(self)@.insert(word@, tokentype@),
    {
        self.keywords.push((String::from_str(word), tokentype));
        assert(self.keywords@.drop_last() == old(self).keywords@);
    }

    /// The table of the keywords `let` and `fn`, in lower and in upper case.
    pub fn default() -> (builder: TokenBuilder)
        ensures
            builder@ == standard_table(),
    {
        let mut my_builder = TokenBuilder { keywords: Vec::new() };
        my_builder.insert("LET", TokenType::LET);
        my_builder.insert("FN", TokenType::FUNCTION);
        my_builder.insert("fn", TokenType::FUNCTION);
        my_builder.insert("let", TokenType::LET);
        my_builder
    }

    /// The token for `identifier`: the word with the token type that the table
    /// holds for it, or the illegal token with an empty literal.
    pub fn get_token_from_identifier(self, identifier: &String) -> (token: Token)
        ensures
            token@ == lookup(self@, identifier@),
    {
        let mut i: usize = self.keywords.len();
        while i > 0
            invariant
                i <= self.keywords.len(),
                forall|j: int| i <= j < self.keywords.len() ==> self.keywords@[j].0@ != identifier@,
            decreases i,
        {
            i -= 1;
            if self.keywords[i].0 == *identifier {
                proof {
                    lemma_later_entries(self.keywords@, i + 1, identifier@);
                    assert(self.keywords@.take(i + 1).drop_last() == self.keywords@.take(i as int));
                }
                return Token::new(self.keywords[i].1.clone(), identifier.clone());
            }
        }
        proof {
            lemma_later_entries(self.keywords@, 0, identifier@);
        }
        Token::new(TokenType::ILLEGAL, String::new())
    }
}

} // verus!
