//! The terms that a query is made of.
use vstd::prelude::*;
use crate::japanese::SearchVariants;
use crate::plain::Plain;
use crate::text::spaced;

verus! {

/// Consecutive words; a stop word keeps its place without being named.
#[derive(Debug)]
pub struct Phrase {
    pub words: Vec<Option<String>>,
}

impl DeepView for Phrase {
    type V = Seq<Option<Seq<char>>>;

    open spec fn deep_view(&self) -> Seq<Option<Seq<char>>> {
        self.words.deep_view()
    }
}

impl Plain for Phrase {
    fn duplicate(&self) -> (r: Self) {
        Phrase { words: self.words.duplicate() }
    }

    fn same(&self, other: &Self) -> (b: bool) {
        self.words.same(&other.words)
    }
}

/// The words that a phrase names.
pub open spec fn named_words(phrase: Seq<Option<Seq<char>>>) -> Seq<Seq<char>>
    decreases phrase.len(),
{
    if phrase.len() == 0 {
        Seq::empty()
    } else {
        let before = named_words(phrase.drop_last());
        match phrase.last() {
            Some(word) => before.push(word),
            None => before,
        }
    }
}

impl Phrase {
    /// The words that the phrase names, with one space between each two.
    pub fn description(&self) -> (r: String)
        ensures
            r@ == spaced(named_words(self.deep_view())),
    {
        let mut r = String::new();
        let mut first = true;
        let mut i: usize = 0;
        let ghost all = self.deep_view();
        while i < self.words.len()
            invariant
                i <= self.words.len(),
                all == self.deep_view(),
                r@ == spaced(named_words(all.take(i as int))),
                first == (named_words(all.take(i as int)).len() == 0),
            decreases self.words.len() - i,
        {
            assert(all.take(i + 1).drop_last() == all.take(i as int));
            if let Some(word) = &self.words[i] {
                let ghost before = named_words(all.take(i as int));
                assert(before.push(word@).drop_last() == before);
                if !first {
                    r.push(' ');
                }
                r.append(word.as_str());
                first = false;
            }
            i = i + 1;
        }
        assert(all.take(i as int) == all);
        r
    }
}

/// What a term stands for without any typo.
#[derive(Debug)]
pub struct ZeroTypoTerm {
    /// The original phrase, if the term is one.
    pub phrase: Option<Phrase>,
    /// The word itself, if it is indexed.
    pub exact: Option<String>,
    /// Indexed variants of the word; no word twice.
    pub alternates: Vec<String>,
    /// Phrases that stand for the term; no phrase twice.
    pub alternate_phrases: Vec<Phrase>,
    /// Indexed words that the word is a prefix of; no word twice.
    pub prefix_of: Vec<String>,
    /// Synonyms; no phrase twice.
    pub synonyms: Vec<Phrase>,
    /// The prefix to look up among the indexed prefixes.
    pub use_prefix_db: Option<String>,
}

/// What a term stands for without any typo, by characters.
pub struct ZeroTypoTermView {
    pub phrase: Option<Seq<Option<Seq<char>>>>,
    pub exact: Option<Seq<char>>,
    pub alternates: Seq<Seq<char>>,
    pub alternate_phrases: Seq<Seq<Option<Seq<char>>>>,
    pub prefix_of: Seq<Seq<char>>,
    pub synonyms: Seq<Seq<Option<Seq<char>>>>,
    pub use_prefix_db: Option<Seq<char>>,
}

impl DeepView for ZeroTypoTerm {
    type V = ZeroTypoTermView;

    open spec fn deep_view(&self) -> ZeroTypoTermView {
        ZeroTypoTermView {
            phrase: self.phrase.deep_view(),
            exact: self.exact.deep_view(),
            alternates: self.alternates.deep_view(),
            alternate_phrases: self.alternate_phrases.deep_view(),
            prefix_of: self.prefix_of.deep_view(),
            synonyms: self.synonyms.deep_view(),
            use_prefix_db: self.use_prefix_db.deep_view(),
        }
    }
}

impl Plain for ZeroTypoTerm {
    fn duplicate(&self) -> (r: Self) {
        ZeroTypoTerm {
            phrase: self.phrase.duplicate(),
            exact: self.exact.duplicate(),
            alternates: self.alternates.duplicate(),
            alternate_phrases: self.alternate_phrases.duplicate(),
            prefix_of: self.prefix_of.duplicate(),
            synonyms: self.synonyms.duplicate(),
            use_prefix_db: self.use_prefix_db.duplicate(),
        }
    }

    fn same(&self, other: &Self) -> (b: bool) {
        self.phrase.same(&other.phrase) && self.exact.same(&other.exact) && self.alternates.same(
            &other.alternates,
        ) && self.alternate_phrases.same(&other.alternate_phrases) && self.prefix_of.same(
            &other.prefix_of,
        ) && self.synonyms.same(&other.synonyms) && self.use_prefix_db.same(&other.use_prefix_db)
    }
}

impl ZeroTypoTermView {
    /// A term that stands for nothing.
    pub open spec fn nothing() -> ZeroTypoTermView {
        ZeroTypoTermView {
            phrase: None,
            exact: None,
            alternates: Seq::empty(),
            alternate_phrases: Seq::empty(),
            prefix_of: Seq::empty(),
            synonyms: Seq::empty(),
            use_prefix_db: None,
        }
    }
}

impl Default for ZeroTypoTerm {
    fn default() -> (r: Self)
        ensures
            r.deep_view() == ZeroTypoTermView::nothing(),
    {
        let r = ZeroTypoTerm {
            phrase: None,
            exact: None,
            alternates: Vec::new(),
            alternate_phrases: Vec::new(),
            prefix_of: Vec::new(),
            synonyms: Vec::new(),
            use_prefix_db: None,
        };
        assert(r.alternates.deep_view() == Seq::<Seq<char>>::empty());
        assert(r.alternate_phrases.deep_view() == Seq::<Seq<Option<Seq<char>>>>::empty());
        assert(r.prefix_of.deep_view() == Seq::<Seq<char>>::empty());
        assert(r.synonyms.deep_view() == Seq::<Seq<Option<Seq<char>>>>::empty());
        r
    }
}

/// What is computed only when it is asked for.
#[derive(Debug)]
pub enum Lazy<T> {
    Uninit,
    Init(T),
}

impl<T: DeepView> DeepView for Lazy<T> {
    type V = Lazy<T::V>;

    open spec fn deep_view(&self) -> Lazy<T::V> {
        match self {
            Lazy::Uninit => Lazy::Uninit,
            Lazy::Init(value) => Lazy::Init(value.deep_view()),
        }
    }
}

impl<T: Plain> Plain for Lazy<T> {
    fn duplicate(&self) -> (r: Self) {
        match self {
            Lazy::Uninit => Lazy::Uninit,
            Lazy::Init(value) => Lazy::Init(value.duplicate()),
        }
    }

    fn same(&self, other: &Self) -> (b: bool) {
        match (self, other) {
            (Lazy::Uninit, Lazy::Uninit) => true,
            (Lazy::Init(left), Lazy::Init(right)) => left.same(right),
            _ => false,
        }
    }
}

/// What a term stands for with one typo.
#[derive(Debug)]
pub struct OneTypoTerm {
    /// The word split in two.
    pub split_words: Option<Phrase>,
    /// Indexed words at one typo from the word.
    pub one_typo: Vec<String>,
}

/// What a term stands for with one typo, by characters.
pub struct OneTypoTermView {
    pub split_words: Option<Seq<Option<Seq<char>>>>,
    pub one_typo: Seq<Seq<char>>,
}

impl DeepView for OneTypoTerm {
    type V = OneTypoTermView;

    open spec fn deep_view(&self) -> OneTypoTermView {
        OneTypoTermView {
            split_words: self.split_words.deep_view(),
            one_typo: self.one_typo.deep_view(),
        }
    }
}

impl Plain for OneTypoTerm {
    fn duplicate(&self) -> (r: Self) {
        OneTypoTerm {
            split_words: self.split_words.duplicate(),
            one_typo: self.one_typo.duplicate(),
        }
    }

    fn same(&self, other: &Self) -> (b: bool) {
        self.split_words.same(&other.split_words) && self.one_typo.same(&other.one_typo)
    }
}

impl Default for OneTypoTerm {
    fn default() -> (r: Self)
        ensures
            r.deep_view() == (OneTypoTermView { split_words: None, one_typo: Seq::empty() }),
    {
        let r = OneTypoTerm { split_words: None, one_typo: Vec::new() };
        assert(r.one_typo.deep_view() == Seq::<Seq<char>>::empty());
        r
    }
}

/// What a term stands for with two typos.
#[derive(Debug)]
pub struct TwoTypoTerm {
    /// Indexed words at two typos from the word.
    pub two_typos: Vec<String>,
}

/// What a term stands for with two typos, by characters.
pub struct TwoTypoTermView {
    pub two_typos: Seq<Seq<char>>,
}

impl DeepView for TwoTypoTerm {
    type V = TwoTypoTermView;

    open spec fn deep_view(&self) -> TwoTypoTermView {
        TwoTypoTermView { two_typos: self.two_typos.deep_view() }
    }
}

impl Plain for TwoTypoTerm {
    fn duplicate(&self) -> (r: Self) {
        TwoTypoTerm { two_typos: self.two_typos.duplicate() }
    }

    fn same(&self, other: &Self) -> (b: bool) {
        self.two_typos.same(&other.two_typos)
    }
}

impl Default for TwoTypoTerm {
    fn default() -> (r: Self)
        ensures
            r.deep_view() == (TwoTypoTermView { two_typos: Seq::empty() }),
    {
        let r = TwoTypoTerm { two_typos: Vec::new() };
        assert(r.two_typos.deep_view() == Seq::<Seq<char>>::empty());
        r
    }
}

/// A word, an n-gram of words or a phrase to search for, with what stands for it in the index.
#[derive(Debug)]
pub struct QueryTerm {
    /// The text of the term.
    pub original: String,
    /// The words that an n-gram is made of.
    pub ngram_words: Option<Vec<String>>,
    pub max_levenshtein_distance: u8,
    pub is_prefix: bool,
    /// The number of places that the term takes when it is ranked.
    pub ranking_span_len: u8,
    pub zero_typo: ZeroTypoTerm,
    pub one_typo: Lazy<OneTypoTerm>,
    pub two_typo: Lazy<TwoTypoTerm>,
}

/// A query term by its characters.
pub struct QueryTermView {
    pub original: Seq<char>,
    pub ngram_words: Option<Seq<Seq<char>>>,
    pub max_levenshtein_distance: u8,
    pub is_prefix: bool,
    pub ranking_span_len: u8,
    pub zero_typo: ZeroTypoTermView,
    pub one_typo: Lazy<OneTypoTermView>,
    pub two_typo: Lazy<TwoTypoTermView>,
}

impl DeepView for QueryTerm {
    type V = QueryTermView;

    open spec fn deep_view(&self) -> QueryTermView {
        QueryTermView {
            original: self.original@,
            ngram_words: self.ngram_words.deep_view(),
            max_levenshtein_distance: self.max_levenshtein_distance,
            is_prefix: self.is_prefix,
            ranking_span_len: self.ranking_span_len,
            zero_typo: self.zero_typo.deep_view(),
            one_typo: self.one_typo.deep_view(),
            two_typo: self.two_typo.deep_view(),
        }
    }
}

impl Plain for QueryTerm {
    fn duplicate(&self) -> (r: Self) {
        QueryTerm {
            original: self.original.duplicate(),
            ngram_words: self.ngram_words.duplicate(),
            max_levenshtein_distance: self.max_levenshtein_distance,
            is_prefix: self.is_prefix,
            ranking_span_len: self.ranking_span_len,
            zero_typo: self.zero_typo.duplicate(),
            one_typo: self.one_typo.duplicate(),
            two_typo: self.two_typo.duplicate(),
        }
    }

    fn same(&self, other: &Self) -> (b: bool) {
        self.original.same(&other.original) && self.ngram_words.same(&other.ngram_words)
            && self.max_levenshtein_distance == other.max_levenshtein_distance && self.is_prefix
            == other.is_prefix && self.ranking_span_len == other.ranking_span_len
            && self.zero_typo.same(&other.zero_typo) && self.one_typo.same(&other.one_typo)
            && self.two_typo.same(&other.two_typo)
    }
}

impl QueryTermView {
    /// The word that the term is, if it is no n-gram.
    pub open spec fn single_word(self) -> Option<Seq<char>> {
        if self.ngram_words is Some {
            None
        } else {
            Some(self.original)
        }
    }

    /// Whether the index holds the term, or a variant of it, as it is.
    pub open spec fn is_indexed(self) -> bool {
        self.zero_typo.exact is Some || self.zero_typo.alternates.len() > 0
    }
}

impl QueryTerm {
    /// The word that the term is, if it is no n-gram.
    pub fn original_single_word(&self) -> (word: Option<&String>)
        ensures
            word.deep_view() == self.deep_view().single_word(),
    {
        if self.ngram_words.is_some() {
            None
        } else {
            Some(&self.original)
        }
    }
}

/// The first and the last place that a term takes in the query.
#[derive(Debug, Clone, Copy, PartialEq, Eq, Structural)]
pub struct Positions {
    pub start: u16,
    pub end: u16,
}

/// A query term with its place in the query and its Japanese variants.
#[derive(Debug)]
pub struct LocatedQueryTerm {
    pub value: QueryTerm,
    pub positions: Positions,
    pub japanese_variants: SearchVariants<String>,
}

/// A located query term by its characters.
pub struct LocatedQueryTermView {
    pub value: QueryTermView,
    pub positions: Positions,
    pub japanese_variants: SearchVariants<Seq<char>>,
}

impl DeepView for LocatedQueryTerm {
    type V = LocatedQueryTermView;

    open spec fn deep_view(&self) -> LocatedQueryTermView {
        LocatedQueryTermView {
            value: self.value.deep_view(),
            positions: self.positions,
            japanese_variants: self.japanese_variants.deep_view(),
        }
    }
}

} // verus!
