//! What a search knows of the index.
//!
//! The set of indexed words and the settings are read before a search. Whatever else the index
//! holds is asked for when it is needed: a function that needs an answer that the context does not
//! hold returns the question as an error. The caller answers it, adds the answer to the context and
//! calls the function again.
use vstd::prelude::*;
use vstd::utf8::encode_utf8;
use crate::plain::Plain;
use crate::query_term::{Phrase, QueryTerm, QueryTermView};
use crate::words::{set_contains, words_of};

verus! {

/// A question to the index, with its answer.
#[derive(Debug)]
pub struct Answer<Q, A> {
    pub question: Q,
    pub answer: A,
}

impl<Q: DeepView, A: DeepView> DeepView for Answer<Q, A> {
    type V = Answer<Q::V, A::V>;

    open spec fn deep_view(&self) -> Answer<Q::V, A::V> {
        Answer { question: self.question.deep_view(), answer: self.answer.deep_view() }
    }
}

/// The first answer to a question.
pub open spec fn answer_to<Q, A>(answers: Seq<Answer<Q, A>>, question: Q) -> Option<A>
    decreases answers.len(),
{
    if answers.len() == 0 {
        None
    } else if answers[0].question == question {
        Some(answers[0].answer)
    } else {
        answer_to(answers.drop_first(), question)
    }
}

/// Finds the first answer to a question.
pub fn find_answer<'a, Q: Plain, A: DeepView>(
    answers: &'a Vec<Answer<Q, A>>,
    question: &Q,
) -> (answer: Option<&'a A>)
    ensures
        answer.deep_view() == answer_to(answers.deep_view(), question.deep_view()),
{
    let ghost all = answers.deep_view();
    let mut i: usize = 0;
    assert(all.skip(0) == all);
    while i < answers.len()
        invariant
            i <= answers.len(),
            all == answers.deep_view(),
            answer_to(all, question.deep_view()) == answer_to(
                all.skip(i as int),
                question.deep_view(),
            ),
        decreases answers.len() - i,
    {
        assert(all.skip(i as int)[0] == answers[i as int].deep_view());
        assert(all.skip(i as int).drop_first() == all.skip(i + 1));
        if answers[i].question.same(question) {
            return Some(&answers[i].answer);
        }
        i = i + 1;
    }
    None
}

/// An answer that is added to others answers its question, unless that was answered before, and
/// changes no other answer.
pub proof fn added_answer_answers<Q, A>(
    answers: Seq<Answer<Q, A>>,
    added: Answer<Q, A>,
    question: Q,
)
    ensures
        answer_to(answers.push(added), question) == (match answer_to(answers, question) {
            Some(answer) => Some(answer),
            None => if added.question == question {
                Some(added.answer)
            } else {
                None
            },
        }),
    decreases answers.len(),
{
    let all = answers.push(added);
    if answers.len() == 0 {
        assert(all.drop_first() == answers);
    } else {
        assert(all.drop_first() == answers.drop_first().push(added));
        added_answer_answers(answers.drop_first(), added, question);
    }
}

/// Answers that come after others change none of them.
pub proof fn first_answers_stay<Q, A>(
    answers: Seq<Answer<Q, A>>,
    more: Seq<Answer<Q, A>>,
    question: Q,
)
    requires
        answers.is_prefix_of(more),
        answer_to(answers, question) is Some,
    ensures
        answer_to(more, question) == answer_to(answers, question),
    decreases answers.len(),
{
    if answers.len() > 0 {
        assert(more[0] == answers[0]);
        if answers[0].question != question {
            assert(answers.drop_first() =~= more.drop_first().subrange(
                0,
                answers.drop_first().len() as int,
            ));
            first_answers_stay(answers.drop_first(), more.drop_first(), question);
        }
    }
}

/// A word for which the index is asked what stands for it.
#[derive(Debug)]
pub struct WordQuery {
    pub word: String,
    /// Variants to look for beside the word.
    pub alternates: Vec<String>,
    pub max_typo: u8,
    pub is_prefix: bool,
    pub is_ngram: bool,
}

/// A word query by its characters.
pub struct WordQueryView {
    pub word: Seq<char>,
    pub alternates: Seq<Seq<char>>,
    pub max_typo: u8,
    pub is_prefix: bool,
    pub is_ngram: bool,
}

impl DeepView for WordQuery {
    type V = WordQueryView;

    open spec fn deep_view(&self) -> WordQueryView {
        WordQueryView {
            word: self.word@,
            alternates: self.alternates.deep_view(),
            max_typo: self.max_typo,
            is_prefix: self.is_prefix,
            is_ngram: self.is_ngram,
        }
    }
}

impl Plain for WordQuery {
    fn duplicate(&self) -> (r: Self) {
        WordQuery {
            word: self.word.duplicate(),
            alternates: self.alternates.duplicate(),
            max_typo: self.max_typo,
            is_prefix: self.is_prefix,
            is_ngram: self.is_ngram,
        }
    }

    fn same(&self, other: &Self) -> (b: bool) {
        self.word.same(&other.word) && self.alternates.same(&other.alternates) && self.max_typo
            == other.max_typo && self.is_prefix == other.is_prefix && self.is_ngram
            == other.is_ngram
    }
}

/// A question that the context holds no answer to.
#[derive(Debug)]
pub enum Lookup {
    /// Does some document hold the phrase?
    PhraseDocids(Phrase),
    /// Is the word indexed?
    ContainsWord(String),
    /// What stands for the word in the index?
    WordTerm(WordQuery),
    /// Which are the synonyms of these consecutive words?
    Synonyms(Vec<String>),
}

/// A question by its characters.
pub enum LookupView {
    PhraseDocids(Seq<Option<Seq<char>>>),
    ContainsWord(Seq<char>),
    WordTerm(WordQueryView),
    Synonyms(Seq<Seq<char>>),
}

impl DeepView for Lookup {
    type V = LookupView;

    open spec fn deep_view(&self) -> LookupView {
        match self {
            Lookup::PhraseDocids(phrase) => LookupView::PhraseDocids(phrase.deep_view()),
            Lookup::ContainsWord(word) => LookupView::ContainsWord(word@),
            Lookup::WordTerm(query) => LookupView::WordTerm(query.deep_view()),
            Lookup::Synonyms(words) => LookupView::Synonyms(words.deep_view()),
        }
    }
}

/// A result by its characters.
pub open spec fn outcome<T: DeepView>(result: Result<T, Lookup>) -> Result<T::V, LookupView> {
    match result {
        Ok(value) => Ok(value.deep_view()),
        Err(lookup) => Err(lookup.deep_view()),
    }
}

/// The answers of the index that a search holds.
pub struct IndexAnswers {
    pub phrase_docids: Vec<Answer<Phrase, bool>>,
    pub contains_word: Vec<Answer<String, bool>>,
    pub word_terms: Vec<Answer<WordQuery, QueryTerm>>,
    pub synonyms: Vec<Answer<Vec<String>, Vec<Vec<String>>>>,
}

impl Default for IndexAnswers {
    /// No answers.
    fn default() -> (r: IndexAnswers)
        ensures
            r.phrase_docids@.len() == 0,
            r.contains_word@.len() == 0,
            r.word_terms@.len() == 0,
            r.synonyms@.len() == 0,
    {
        IndexAnswers {
            phrase_docids: Vec::new(),
            contains_word: Vec::new(),
            word_terms: Vec::new(),
            synonyms: Vec::new(),
        }
    }
}

/// What a search knows of the index.
pub struct SearchContext<'ctx> {
    /// The words of the index.
    pub words_fst: fst::Set<&'ctx [u8]>,
    /// Whether typos are tolerated at all.
    pub authorize_typos: bool,
    /// The number of characters from which a word may have one typo.
    pub min_word_len_one_typo: u8,
    /// The number of characters from which a word may have two typos.
    pub min_word_len_two_typos: u8,
    /// The words that tolerate no typo.
    pub exact_words: Option<fst::Set<&'ctx [u8]>>,
    /// Whether the last word of a query may be the prefix of a word.
    pub prefix_search: bool,
    /// The answers of the index so far.
    pub answers: IndexAnswers,
}

impl<'ctx> SearchContext<'ctx> {
    /// The words of the index, by their bytes.
    pub open spec fn dictionary(self) -> Set<Seq<u8>> {
        words_of(self.words_fst)
    }

    /// Whether some document holds a phrase, if that is known.
    pub open spec fn phrase_answer(self, phrase: Seq<Option<Seq<char>>>) -> Option<bool> {
        answer_to(self.answers.phrase_docids.deep_view(), phrase)
    }

    /// Whether a word is indexed, if that is known.
    pub open spec fn word_answer(self, word: Seq<char>) -> Option<bool> {
        answer_to(self.answers.contains_word.deep_view(), word)
    }

    /// What stands for a word in the index, if that is known.
    pub open spec fn term_answer(self, query: WordQueryView) -> Option<QueryTermView> {
        answer_to(self.answers.word_terms.deep_view(), query)
    }

    /// The synonyms of consecutive words, if they are known.
    pub open spec fn synonyms_answer(self, words: Seq<Seq<char>>) -> Option<Seq<Seq<Seq<char>>>> {
        answer_to(self.answers.synonyms.deep_view(), words)
    }

    /// Whether a word is one that tolerates no typo.
    pub open spec fn is_exact_word(self, word: Seq<char>) -> bool {
        match self.exact_words {
            Some(set) => words_of(set).contains(encode_utf8(word)),
            None => false,
        }
    }

    /// Whether the answer to a question is known.
    pub open spec fn knows(self, lookup: LookupView) -> bool {
        match lookup {
            LookupView::PhraseDocids(phrase) => self.phrase_answer(phrase) is Some,
            LookupView::ContainsWord(word) => self.word_answer(word) is Some,
            LookupView::WordTerm(query) => self.term_answer(query) is Some,
            LookupView::Synonyms(words) => self.synonyms_answer(words) is Some,
        }
    }

    /// Whether this context has the settings of another, and all answers that the other holds.
    pub open spec fn extends(self, other: SearchContext<'ctx>) -> bool {
        &&& self.words_fst == other.words_fst
        &&& self.authorize_typos == other.authorize_typos
        &&& self.min_word_len_one_typo == other.min_word_len_one_typo
        &&& self.min_word_len_two_typos == other.min_word_len_two_typos
        &&& self.exact_words == other.exact_words
        &&& self.prefix_search == other.prefix_search
        &&& forall|phrase: Seq<Option<Seq<char>>>|
            (#[trigger] other.phrase_answer(phrase)) is Some ==> self.phrase_answer(phrase)
                == other.phrase_answer(phrase)
        &&& forall|word: Seq<char>|
            (#[trigger] other.word_answer(word)) is Some ==> self.word_answer(word)
                == other.word_answer(word)
        &&& forall|query: WordQueryView|
            (#[trigger] other.term_answer(query)) is Some ==> self.term_answer(query)
                == other.term_answer(query)
        &&& forall|words: Seq<Seq<char>>|
            (#[trigger] other.synonyms_answer(words)) is Some ==> self.synonyms_answer(words)
                == other.synonyms_answer(words)
    }

    /// Whether some document holds a phrase.
    pub open spec fn phrase_outcome(self, phrase: Seq<Option<Seq<char>>>) -> Result<
        bool,
        LookupView,
    > {
        match self.phrase_answer(phrase) {
            Some(found) => Ok(found),
            None => Err(LookupView::PhraseDocids(phrase)),
        }
    }

    /// Whether some document holds the phrase.
    pub fn has_phrase_docids(&self, phrase: &Phrase) -> (r: Result<bool, Lookup>)
        ensures
            outcome(r) == self.phrase_outcome(phrase.deep_view()),
    {
        match find_answer(&self.answers.phrase_docids, phrase) {
            Some(found) => Ok(*found),
            None => Err(Lookup::PhraseDocids(phrase.duplicate())),
        }
    }

    /// Whether a word is indexed.
    pub open spec fn word_outcome(self, word: Seq<char>) -> Result<bool, LookupView> {
        match self.word_answer(word) {
            Some(found) => Ok(found),
            None => Err(LookupView::ContainsWord(word)),
        }
    }

    /// Whether the word is indexed.
    pub fn contains_word(&self, word: &String) -> (r: Result<bool, Lookup>)
        ensures
            outcome(r) == self.word_outcome(word@),
    {
        match find_answer(&self.answers.contains_word, word) {
            Some(found) => Ok(*found),
            None => Err(Lookup::ContainsWord(word.clone())),
        }
    }

    /// What stands for a word in the index.
    pub open spec fn term_outcome(self, query: WordQueryView) -> Result<QueryTermView, LookupView> {
        match self.term_answer(query) {
            Some(term) => Ok(term),
            None => Err(LookupView::WordTerm(query)),
        }
    }

    /// What stands for the word in the index.
    pub fn term_from_word(&self, query: WordQuery) -> (r: Result<QueryTerm, Lookup>)
        ensures
            outcome(r) == self.term_outcome(query.deep_view()),
    {
        match find_answer(&self.answers.word_terms, &query) {
            Some(term) => Ok(term.duplicate()),
            None => Err(Lookup::WordTerm(query)),
        }
    }

    /// The synonyms of consecutive words.
    pub open spec fn synonyms_outcome(self, words: Seq<Seq<char>>) -> Result<
        Seq<Seq<Seq<char>>>,
        LookupView,
    > {
        match self.synonyms_answer(words) {
            Some(synonyms) => Ok(synonyms),
            None => Err(LookupView::Synonyms(words)),
        }
    }

    /// The synonyms of the consecutive words.
    pub fn synonyms_of(&self, words: &Vec<String>) -> (r: Result<Vec<Vec<String>>, Lookup>)
        ensures
            outcome(r) == self.synonyms_outcome(words.deep_view()),
    {
        match find_answer(&self.answers.synonyms, words) {
            Some(synonyms) => Ok(synonyms.duplicate()),
            None => Err(Lookup::Synonyms(words.duplicate())),
        }
    }

    /// Whether the word is one of the words of the index.
    pub fn words_fst_contains(&self, word: &str) -> (b: bool)
        ensures
            b == self.dictionary().contains(encode_utf8(word@)),
    {
        set_contains(&self.words_fst, word)
    }
}

/// A context that has the settings of another, and more answers behind the same ones, extends it.
pub proof fn more_answers_extend<'ctx>(ctx: SearchContext<'ctx>, more: SearchContext<'ctx>)
    requires
        more == (SearchContext { answers: more.answers, ..ctx }),
        ctx.answers.phrase_docids.deep_view().is_prefix_of(more.answers.phrase_docids.deep_view()),
        ctx.answers.contains_word.deep_view().is_prefix_of(more.answers.contains_word.deep_view()),
        ctx.answers.word_terms.deep_view().is_prefix_of(more.answers.word_terms.deep_view()),
        ctx.answers.synonyms.deep_view().is_prefix_of(more.answers.synonyms.deep_view()),
    ensures
        more.extends(ctx),
{
    assert forall|phrase: Seq<Option<Seq<char>>>|
        (#[trigger] ctx.phrase_answer(phrase)) is Some implies more.phrase_answer(phrase)
        == ctx.phrase_answer(phrase) by {
        first_answers_stay(
            ctx.answers.phrase_docids.deep_view(),
            more.answers.phrase_docids.deep_view(),
            phrase,
        );
    }
    assert forall|word: Seq<char>| (#[trigger] ctx.word_answer(word)) is Some implies
        more.word_answer(word) == ctx.word_answer(word) by {
        first_answers_stay(
            ctx.answers.contains_word.deep_view(),
            more.answers.contains_word.deep_view(),
            word,
        );
    }
    assert forall|query: WordQueryView| (#[trigger] ctx.term_answer(query)) is Some implies
        more.term_answer(query) == ctx.term_answer(query) by {
        first_answers_stay(
            ctx.answers.word_terms.deep_view(),
            more.answers.word_terms.deep_view(),
            query,
        );
    }
    assert forall|words: Seq<Seq<char>>| (#[trigger] ctx.synonyms_answer(words)) is Some implies
        more.synonyms_answer(words) == ctx.synonyms_answer(words) by {
        first_answers_stay(
            ctx.answers.synonyms.deep_view(),
            more.answers.synonyms.deep_view(),
            words,
        );
    }
}

} // verus!
