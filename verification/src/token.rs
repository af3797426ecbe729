//! The tokens that queries and fields are made of.
use vstd::prelude::*;

verus! {

/// How far apart a separator puts the words around it.
#[derive(Debug, Clone, Copy, PartialEq, Eq, Structural)]
pub enum SeparatorKind {
    /// The words belong to different sentences.
    Hard,
    /// The words belong to the same sentence.
    Soft,
}

/// What a token is.
#[derive(Debug, Clone, Copy, PartialEq, Eq, Structural)]
pub enum TokenKind {
    Word,
    StopWord,
    Separator(SeparatorKind),
    Unknown,
}

impl DeepView for TokenKind {
    type V = TokenKind;

    open spec fn deep_view(&self) -> TokenKind {
        *self
    }
}

/// A normalized piece of text.
#[derive(Debug)]
pub struct Token {
    /// The normalized text.
    pub lemma: String,
    pub kind: TokenKind,
    /// What can be searched for in place of the lemma, derived from the Japanese reading of the
    /// token. A token without a Japanese reading has none.
    pub alternates: Option<Vec<String>>,
}

/// A token by its characters.
pub struct TokenView {
    pub lemma: Seq<char>,
    pub kind: TokenKind,
    pub alternates: Option<Seq<Seq<char>>>,
}

impl DeepView for Token {
    type V = TokenView;

    open spec fn deep_view(&self) -> TokenView {
        TokenView {
            lemma: self.lemma@,
            kind: self.kind,
            alternates: self.alternates.deep_view(),
        }
    }
}

impl TokenView {
    /// A word that is neither a separator nor a stop word.
    pub open spec fn is_word(self) -> bool {
        self.kind == TokenKind::Word
    }

    pub open spec fn is_separator(self) -> bool {
        self.kind is Separator
    }
}

impl Token {
    /// The normalized text.
    pub fn lemma(&self) -> (r: &str)
        ensures
            r@ == self.deep_view().lemma,
    {
        self.lemma.as_str()
    }

    /// Whether the token is a word, and no stop word.
    pub fn is_word(&self) -> (b: bool)
        ensures
            b == self.deep_view().is_word(),
    {
        matches!(self.kind, TokenKind::Word)
    }

    /// Whether the token separates words.
    pub fn is_separator(&self) -> (b: bool)
        ensures
            b == self.deep_view().is_separator(),
    {
        matches!(self.kind, TokenKind::Separator(_))
    }
}

} // verus!
