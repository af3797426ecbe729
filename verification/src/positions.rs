//! The positions of the words of a text.
use vstd::prelude::*;
use crate::plain::pushing_deepens;
use crate::token::{SeparatorKind, Token, TokenKind, TokenView};

verus! {

/// The distance between two words that a hard separator keeps apart.
pub const MAX_DISTANCE: u32 = 8;

/// A token at its position.
pub struct PlacedToken<'a> {
    pub position: u32,
    pub token: &'a Token,
}

/// A token, by its characters, at its position.
pub struct PlacedView {
    pub position: int,
    pub token: TokenView,
}

impl<'a> DeepView for PlacedToken<'a> {
    type V = PlacedView;

    open spec fn deep_view(&self) -> PlacedView {
        PlacedView { position: self.position as int, token: self.token.deep_view() }
    }
}

/// The tokens from the first one on that is no separator.
pub open spec fn without_leading_separators(tokens: Seq<TokenView>) -> Seq<TokenView>
    decreases tokens.len(),
{
    if tokens.len() > 0 && tokens[0].is_separator() {
        without_leading_separators(tokens.drop_first())
    } else {
        tokens
    }
}

/// Whether a token takes a position: words and stop words do, unless they are empty.
pub open spec fn takes_position(token: TokenView) -> bool {
    (token.kind == TokenKind::Word || token.kind == TokenKind::StopWord) && token.lemma.len() > 0
}

/// How far a position lies from the one before, by what stands between them: the last token that
/// takes a position, or the separator after it.
pub open spec fn distance_after(previous: Option<TokenKind>) -> int {
    match previous {
        None => 0,
        Some(kind) => if kind == TokenKind::Separator(SeparatorKind::Hard) {
            MAX_DISTANCE as int
        } else {
            1
        },
    }
}

/// What stands before the token that follows. A soft separator does not weaken a hard one.
pub open spec fn previous_after(previous: Option<TokenKind>, token: TokenView) -> Option<TokenKind> {
    let hard = TokenKind::Separator(SeparatorKind::Hard);
    if takes_position(token) || token.kind == hard {
        Some(token.kind)
    } else if token.kind == TokenKind::Separator(SeparatorKind::Soft) && previous != Some(hard) {
        Some(token.kind)
    } else {
        previous
    }
}

/// The words of some tokens with their positions, after a token at `offset`.
pub open spec fn places_from(
    tokens: Seq<TokenView>,
    offset: int,
    previous: Option<TokenKind>,
) -> Seq<PlacedView>
    decreases tokens.len(),
{
    if tokens.len() == 0 {
        Seq::empty()
    } else {
        let token = tokens[0];
        let position = if takes_position(token) {
            offset + distance_after(previous)
        } else {
            offset
        };
        let rest = places_from(tokens.drop_first(), position, previous_after(previous, token));
        if takes_position(token) && token.is_word() {
            seq![PlacedView { position, token }] + rest
        } else {
            rest
        }
    }
}

/// The words of a text with their positions. The first token that is no separator is at
/// `start_offset`, and stop words count.
pub open spec fn placed_words(start_offset: int, tokens: Seq<TokenView>) -> Seq<PlacedView> {
    places_from(without_leading_separators(tokens), start_offset, None)
}

/// The words before the first one whose position reaches the limit.
pub open spec fn words_before(words: Seq<PlacedView>, limit: int) -> Seq<PlacedView>
    decreases words.len(),
{
    if words.len() > 0 && words[0].position < limit {
        seq![words[0]] + words_before(words.drop_first(), limit)
    } else {
        Seq::empty()
    }
}

proof fn word_before_others(word: PlacedView, rest: Seq<PlacedView>, limit: int)
    ensures
        words_before(seq![word] + rest, limit) == if word.position < limit {
            seq![word] + words_before(rest, limit)
        } else {
            Seq::empty()
        },
{
    assert((seq![word] + rest).drop_first() == rest);
}

/// The words of the tokens with their positions, up to the first that reaches `max_positions`.
///
/// Two neighbouring words are 1 apart, or `MAX_DISTANCE` where a hard separator stands between
/// them.
pub fn process_tokens<'a>(start_offset: u32, tokens: &'a Vec<Token>, max_positions: u32) -> (words:
    Vec<PlacedToken<'a>>)
    ensures
        words.deep_view() == words_before(
            placed_words(start_offset as int, tokens.deep_view()),
            max_positions as int,
        ),
{
    let ghost all = tokens.deep_view();
    let mut i: usize = 0;
    assert(all.skip(0) == all);
    while i < tokens.len() && tokens[i].is_separator()
        invariant
            i <= tokens.len(),
            all == tokens.deep_view(),
            without_leading_separators(all) == without_leading_separators(all.skip(i as int)),
        decreases tokens.len() - i,
    {
        assert(all.skip(i as int).drop_first() == all.skip(i + 1));
        i = i + 1;
    }
    let ghost limit = max_positions as int;
    let ghost mut offset = start_offset as int;
    let ghost goal = words_before(placed_words(offset, all), limit);
    let mut words: Vec<PlacedToken<'a>> = Vec::new();
    let mut position: u32 = start_offset;
    let mut previous: Option<TokenKind> = None;
    proof {
        if i < tokens.len() {
            assert(all.skip(i as int)[0] == tokens[i as int].deep_view());
        }
        assert(without_leading_separators(all) == all.skip(i as int));
        assert(goal == words.deep_view() + words_before(
            places_from(all.skip(i as int), offset, previous),
            limit,
        ));
    }
    while i < tokens.len()
        invariant
            i <= tokens.len(),
            all == tokens.deep_view(),
            limit == max_positions,
            goal == words_before(placed_words(start_offset as int, all), limit),
            position == (if offset <= u32::MAX {
                offset
            } else {
                u32::MAX as int
            }),
            goal == words.deep_view() + words_before(
                places_from(all.skip(i as int), offset, previous),
                limit,
            ),
        decreases tokens.len() - i,
    {
        let token = &tokens[i];
        let ghost view = token.deep_view();
        let ghost before = words;
        let ghost from = offset;
        let ghost old_previous = previous;
        let ghost rest = all.skip(i as int);
        proof {
            assert(rest[0] == view);
            assert(rest.drop_first() == all.skip(i + 1));
        }
        let is_hard = matches!(token.kind, TokenKind::Separator(SeparatorKind::Hard));
        let is_soft = matches!(token.kind, TokenKind::Separator(SeparatorKind::Soft));
        let after_hard = match previous {
            Some(TokenKind::Separator(SeparatorKind::Hard)) => true,
            _ => false,
        };
        let is_some_word = matches!(token.kind, TokenKind::Word) || matches!(
            token.kind,
            TokenKind::StopWord
        );
        if is_some_word && token.lemma.as_str().unicode_len() > 0 {
            let distance: u32 = match previous {
                Some(TokenKind::Separator(SeparatorKind::Hard)) => MAX_DISTANCE,
                Some(_) => 1,
                None => 0,
            };
            position = position.saturating_add(distance);
            proof {
                offset = offset + distance;
            }
            previous = Some(token.kind);
            assert(takes_position(view));
            assert(distance == distance_after(old_previous));
            if token.is_word() {
                proof {
                    word_before_others(
                        PlacedView { position: offset, token: view },
                        places_from(rest.drop_first(), offset, previous),
                        limit,
                    );
                }
                if position >= max_positions {
                    assert(goal == words.deep_view());
                    return words;
                }
                let placed = PlacedToken { position, token };
                words.push(placed);
                proof {
                    pushing_deepens(before, words, placed);
                    assert(goal == words.deep_view() + words_before(
                        places_from(all.skip(i + 1), offset, previous),
                        limit,
                    ));
                }
            }
        } else if is_hard || (is_soft && !after_hard) {
            previous = Some(token.kind);
        }
        assert(previous == previous_after(old_previous, view));
        i = i + 1;
    }
    assert(all.skip(i as int).len() == 0);
    words
}

proof fn places_grow(tokens: Seq<TokenView>, offset: int, previous: Option<TokenKind>)
    ensures
        forall|i: int|
            0 <= i < places_from(tokens, offset, previous).len() ==> offset + (if previous is Some {
                1int
            } else {
                0int
            }) <= (#[trigger] places_from(tokens, offset, previous)[i]).position,
        forall|i: int, j: int|
            0 <= i < j < places_from(tokens, offset, previous).len() ==> (
            #[trigger] places_from(tokens, offset, previous)[i]).position < (
            #[trigger] places_from(tokens, offset, previous)[j]).position,
    decreases tokens.len(),
{
    if tokens.len() > 0 {
        let token = tokens[0];
        let position = if takes_position(token) {
            offset + distance_after(previous)
        } else {
            offset
        };
        places_grow(tokens.drop_first(), position, previous_after(previous, token));
    }
}

/// The positions of the words of a text start at the start offset or behind it, and each word is
/// behind the ones before it.
pub proof fn positions_grow(start_offset: int, tokens: Seq<TokenView>)
    ensures
        forall|i: int|
            0 <= i < placed_words(start_offset, tokens).len() ==> start_offset <= (
            #[trigger] placed_words(start_offset, tokens)[i]).position,
        forall|i: int, j: int|
            0 <= i < j < placed_words(start_offset, tokens).len() ==> (
            #[trigger] placed_words(start_offset, tokens)[i]).position < (#[trigger] placed_words(
                start_offset,
                tokens,
            )[j]).position,
{
    places_grow(without_leading_separators(tokens), start_offset, None);
}

/// The words before a limit are the first words of the text, and their positions are under the
/// limit. Where there are others, the first of them is not under the limit.
pub proof fn words_before_are_first(words: Seq<PlacedView>, limit: int)
    ensures
        words_before(words, limit).is_prefix_of(words),
        forall|i: int|
            0 <= i < words_before(words, limit).len() ==> (#[trigger] words_before(
                words,
                limit,
            )[i]).position < limit,
        words_before(words, limit).len() < words.len() ==> words[words_before(
            words,
            limit,
        ).len() as int].position >= limit,
    decreases words.len(),
{
    if words.len() > 0 && words[0].position < limit {
        let rest = words.drop_first();
        words_before_are_first(rest, limit);
        let kept = words_before(rest, limit);
        assert(words_before(words, limit) == seq![words[0]] + kept);
        assert forall|i: int| 0 <= i < words_before(words, limit).len() implies words_before(
            words,
            limit,
        )[i] == words[i] by {
            if i > 0 {
                assert(kept[i - 1] == rest[i - 1]);
            }
        }
        assert(words_before(words, limit) =~= words.subrange(
            0,
            words_before(words, limit).len() as int,
        ));
    }
}

/// Separators at the start of a text move none of its words.
pub proof fn leading_separators_are_skipped(
    start_offset: int,
    separator: TokenView,
    tokens: Seq<TokenView>,
)
    requires
        separator.is_separator(),
    ensures
        placed_words(start_offset, seq![separator] + tokens) == placed_words(start_offset, tokens),
{
    assert((seq![separator] + tokens).drop_first() == tokens);
}

/// Two words are `MAX_DISTANCE` apart where a hard separator stands between them, and 1 apart
/// where a soft one or nothing does.
pub proof fn hard_separators_keep_words_apart(
    start_offset: int,
    first: TokenView,
    between: Seq<TokenView>,
    second: TokenView,
)
    requires
        takes_position(first) && first.is_word(),
        takes_position(second) && second.is_word(),
        forall|i: int| 0 <= i < between.len() ==> (#[trigger] between[i]).is_separator(),
    ensures
        placed_words(start_offset, seq![first] + between + seq![second]) == seq![
            PlacedView { position: start_offset, token: first },
            PlacedView {
                position: start_offset + if exists|i: int|
                    0 <= i < between.len() && (#[trigger] between[i]).kind == TokenKind::Separator(
                        SeparatorKind::Hard,
                    ) {
                    MAX_DISTANCE as int
                } else {
                    1
                },
                token: second,
            },
        ],
{
    let tokens = seq![first] + between + seq![second];
    assert(tokens[0] == first);
    assert(tokens.drop_first() == between + seq![second]);
    separators_then_word(between, second, start_offset, Some(TokenKind::Word));
}

proof fn separators_then_word(
    between: Seq<TokenView>,
    second: TokenView,
    offset: int,
    previous: Option<TokenKind>,
)
    requires
        previous is Some,
        takes_position(second) && second.is_word(),
        forall|i: int| 0 <= i < between.len() ==> (#[trigger] between[i]).is_separator(),
    ensures
        places_from(between + seq![second], offset, previous) == seq![
            PlacedView {
                position: offset + if previous == Some(TokenKind::Separator(SeparatorKind::Hard))
                    || exists|i: int|
                    0 <= i < between.len() && (#[trigger] between[i]).kind == TokenKind::Separator(
                        SeparatorKind::Hard,
                    ) {
                    MAX_DISTANCE as int
                } else {
                    1
                },
                token: second,
            },
        ],
    decreases between.len(),
{
    let hard = TokenKind::Separator(SeparatorKind::Hard);
    let tokens = between + seq![second];
    if between.len() == 0 {
        assert(tokens[0] == second);
        assert(tokens.drop_first().len() == 0);
        assert(places_from(tokens.drop_first(), offset + distance_after(previous), previous_after(previous, second)).len() == 0);
        assert(places_from(tokens, offset, previous) == seq![PlacedView { position: offset + distance_after(previous), token: second }]);
    } else {
        let rest = between.drop_first();
        let next = previous_after(previous, between[0]);
        assert(tokens[0] == between[0]);
        assert(tokens.drop_first() == rest + seq![second]);
        assert forall|i: int| 0 <= i < rest.len() implies (#[trigger] rest[i]).is_separator() by {
            assert(rest[i] == between[i + 1]);
        }
        separators_then_word(rest, second, offset, next);
        assert((next == Some(hard) || exists|i: int|
            0 <= i < rest.len() && (#[trigger] rest[i]).kind == hard) == (previous == Some(hard)
            || exists|i: int| 0 <= i < between.len() && (#[trigger] between[i]).kind == hard)) by {
            if exists|i: int| 0 <= i < rest.len() && (#[trigger] rest[i]).kind == hard {
                let i = choose|i: int| 0 <= i < rest.len() && (#[trigger] rest[i]).kind == hard;
                assert(between[i + 1].kind == hard);
            }
            if exists|i: int| 0 <= i < between.len() && (#[trigger] between[i]).kind == hard {
                let i = choose|i: int|
                    0 <= i < between.len() && (#[trigger] between[i]).kind == hard;
                if i > 0 {
                    assert(rest[i - 1].kind == hard);
                }
            }
        }
    }
}

/// The offset and what stands before the next token, after some tokens.
spec fn state_after(
    tokens: Seq<TokenView>,
    offset: int,
    previous: Option<TokenKind>,
) -> (int, Option<TokenKind>)
    decreases tokens.len(),
{
    if tokens.len() == 0 {
        (offset, previous)
    } else {
        let position = if takes_position(tokens[0]) {
            offset + distance_after(previous)
        } else {
            offset
        };
        state_after(tokens.drop_first(), position, previous_after(previous, tokens[0]))
    }
}

proof fn state_after_one_more(
    tokens: Seq<TokenView>,
    token: TokenView,
    offset: int,
    previous: Option<TokenKind>,
)
    ensures
        ({
            let (before, kind) = state_after(tokens, offset, previous);
            &&& state_after(tokens.push(token), offset, previous) == (
                if takes_position(token) {
                    before + distance_after(kind)
                } else {
                    before
                },
                previous_after(kind, token),
            )
            &&& places_from(tokens.push(token), offset, previous) == (if takes_position(token)
                && token.is_word() {
                places_from(tokens, offset, previous).push(
                    PlacedView { position: before + distance_after(kind), token },
                )
            } else {
                places_from(tokens, offset, previous)
            })
        }),
    decreases tokens.len(),
{
    let all = tokens.push(token);
    if tokens.len() == 0 {
        assert(all.drop_first() == tokens);
        let position = if takes_position(token) {
            offset + distance_after(previous)
        } else {
            offset
        };
        let next = previous_after(previous, token);
        assert(places_from(all.drop_first(), position, next) == Seq::<PlacedView>::empty());
        assert(state_after(all.drop_first(), position, next) == (position, next));
        assert(places_from(all, offset, previous) =~= (if takes_position(token) && token.is_word() {
            Seq::<PlacedView>::empty().push(PlacedView { position, token })
        } else {
            Seq::empty()
        }));
    } else {
        assert(all[0] == tokens[0]);
        assert(all.drop_first() == tokens.drop_first().push(token));
        let position = if takes_position(tokens[0]) {
            offset + distance_after(previous)
        } else {
            offset
        };
        let next = previous_after(previous, tokens[0]);
        state_after_one_more(tokens.drop_first(), token, position, next);
        assert(places_from(all, offset, previous) =~= (if takes_position(token) && token.is_word() {
            let (before, kind) = state_after(tokens, offset, previous);
            places_from(tokens, offset, previous).push(
                PlacedView { position: before + distance_after(kind), token },
            )
        } else {
            places_from(tokens, offset, previous)
        }));
    }
}

proof fn leading_separators_of_more(tokens: Seq<TokenView>, token: TokenView)
    ensures
        (exists|i: int| 0 <= i < tokens.len() && !(#[trigger] tokens[i]).is_separator())
            ==> without_leading_separators(tokens.push(token)) == without_leading_separators(
            tokens,
        ).push(token),
        (forall|i: int| 0 <= i < tokens.len() ==> (#[trigger] tokens[i]).is_separator())
            ==> without_leading_separators(tokens).len() == 0 && without_leading_separators(
            tokens.push(token),
        ) == (if token.is_separator() {
            Seq::empty()
        } else {
            seq![token]
        }),
    decreases tokens.len(),
{
    let all = tokens.push(token);
    if tokens.len() == 0 {
        assert(all.drop_first() == tokens);
        assert(without_leading_separators(all.drop_first()) == Seq::<TokenView>::empty());
        assert(all =~= seq![token]);
    } else {
        assert(all[0] == tokens[0]);
        let rest = tokens.drop_first();
        assert(all.drop_first() == rest.push(token));
        leading_separators_of_more(rest, token);
        if exists|i: int| 0 <= i < tokens.len() && !(#[trigger] tokens[i]).is_separator() {
            let i = choose|i: int| 0 <= i < tokens.len() && !(#[trigger] tokens[i]).is_separator();
            if i > 0 {
                assert(rest[i - 1] == tokens[i]);
            }
        } else {
            assert forall|i: int| 0 <= i < rest.len() implies (#[trigger] rest[i]).is_separator() by {
                assert(rest[i] == tokens[i + 1]);
            }
        }
    }
}

/// Whether a token is a word or a stop word with a text.
pub open spec fn is_some_word(token: TokenView) -> bool {
    (token.kind == TokenKind::Word || token.kind == TokenKind::StopWord) && token.lemma.len() != 0
}

/// Only words with a text are placed.
pub proof fn only_words_are_placed(start_offset: int, tokens: Seq<TokenView>, token: TokenView)
    requires
        token.kind != TokenKind::Word || token.lemma.len() == 0,
    ensures
        placed_words(start_offset, tokens.push(token)) == placed_words(start_offset, tokens),
{
    leading_separators_of_more(tokens, token);
    if exists|i: int| 0 <= i < tokens.len() && !(#[trigger] tokens[i]).is_separator() {
        state_after_one_more(without_leading_separators(tokens), token, start_offset, None);
    } else {
        let none = Seq::<TokenView>::empty();
        assert(without_leading_separators(tokens) =~= none);
        if !token.is_separator() {
            state_after_one_more(none, token, start_offset, None);
            assert(none.push(token) =~= seq![token]);
        }
    }
}

/// A word that nothing but separators stands before is at the start.
pub proof fn first_words_are_at_the_start(
    start_offset: int,
    tokens: Seq<TokenView>,
    word: TokenView,
)
    requires
        word.kind == TokenKind::Word && word.lemma.len() > 0,
        forall|i: int| 0 <= i < tokens.len() ==> (#[trigger] tokens[i]).is_separator(),
    ensures
        placed_words(start_offset, tokens.push(word)) == seq![
            PlacedView { position: start_offset, token: word },
        ],
{
    leading_separators_of_more(tokens, word);
    let none = Seq::<TokenView>::empty();
    state_after_one_more(none, word, start_offset, None);
    assert(none.push(word) =~= seq![word]);
    assert(places_from(none, start_offset, None) == Seq::<PlacedView>::empty());
    assert(placed_words(start_offset, tokens.push(word)) =~= seq![
        PlacedView { position: start_offset, token: word },
    ]);
}

proof fn state_after_separators(
    tokens: Seq<TokenView>,
    between: Seq<TokenView>,
    offset: int,
    previous: Option<TokenKind>,
)
    requires
        forall|i: int| 0 <= i < between.len() ==> !takes_position(#[trigger] between[i]),
        state_after(tokens, offset, previous).1 matches Some(kind) && !(kind is Separator),
    ensures
        state_after(tokens + between, offset, previous).0 == state_after(
            tokens,
            offset,
            previous,
        ).0,
        distance_after(state_after(tokens + between, offset, previous).1) == (if exists|i: int|
            0 <= i < between.len() && (#[trigger] between[i]).kind == TokenKind::Separator(
                SeparatorKind::Hard,
            ) {
            MAX_DISTANCE as int
        } else {
            1
        }),
        state_after(tokens + between, offset, previous).1 is Some,
    decreases between.len(),
{
    let hard = TokenKind::Separator(SeparatorKind::Hard);
    if between.len() == 0 {
        assert(tokens + between == tokens);
    } else {
        let first = between.drop_last();
        assert forall|i: int| 0 <= i < first.len() implies !takes_position(#[trigger] first[i]) by {
            assert(first[i] == between[i]);
        }
        state_after_separators(tokens, first, offset, previous);
        assert((tokens + first).push(between.last()) == tokens + between);
        state_after_one_more(tokens + first, between.last(), offset, previous);
        assert(between.last() == between[between.len() - 1]);
        if exists|i: int| 0 <= i < first.len() && (#[trigger] first[i]).kind == hard {
            let i = choose|i: int| 0 <= i < first.len() && (#[trigger] first[i]).kind == hard;
            assert(between[i].kind == hard);
        } else if between.last().kind != hard {
            assert forall|i: int| 0 <= i < between.len() implies (#[trigger] between[i]).kind
                != hard by {
                if i < first.len() {
                    assert(first[i] == between[i]);
                }
            }
        }
    }
}

/// A word that follows another word or stop word is 8 behind it where a hard separator stands
/// between them, whatever else does, and 1 behind it where none does. A stop word takes the
/// position that a word in its place would take.
pub proof fn words_follow_words(
    start_offset: int,
    tokens: Seq<TokenView>,
    some: TokenView,
    between: Seq<TokenView>,
    word: TokenView,
)
    requires
        is_some_word(some),
        forall|i: int| 0 <= i < between.len() ==> !is_some_word(#[trigger] between[i]),
        word.kind == TokenKind::Word && word.lemma.len() > 0,
    ensures
        ({
            let as_word = TokenView { kind: TokenKind::Word, ..some };
            let here = placed_words(start_offset, tokens.push(as_word));
            let before = placed_words(start_offset, tokens.push(some) + between);
            let all = placed_words(start_offset, (tokens.push(some) + between).push(word));
            let gap: int = if exists|i: int|
                0 <= i < between.len() && (#[trigger] between[i]).kind == TokenKind::Separator(
                    SeparatorKind::Hard,
                ) {
                8
            } else {
                1
            };
            &&& here.len() > 0
            &&& here.last().token == as_word
            &&& all == before.push(
                PlacedView { position: here.last().position + gap, token: word },
            )
        }),
{
    let as_word = TokenView { kind: TokenKind::Word, ..some };
    let with_some = tokens.push(some);
    let with_word = tokens.push(as_word);
    leading_separators_of_more(tokens, some);
    leading_separators_of_more(tokens, as_word);
    let lead = without_leading_separators(tokens);
    let none = Seq::<TokenView>::empty();
    assert(none.push(some) =~= seq![some]);
    assert(none.push(as_word) =~= seq![as_word]);
    if !(exists|i: int| 0 <= i < tokens.len() && !(#[trigger] tokens[i]).is_separator()) {
        assert(lead =~= none);
    }
    assert(without_leading_separators(with_some) == lead.push(some));
    assert(without_leading_separators(with_word) == lead.push(as_word));
    state_after_one_more(lead, some, start_offset, None);
    state_after_one_more(lead, as_word, start_offset, None);
    more_after_a_word(with_some, between);
    more_after_a_word(with_some, between.push(word));
    assert((with_some + between).push(word) == with_some + between.push(word));
    assert forall|i: int| 0 <= i < between.len() implies !takes_position(#[trigger] between[i]) by {
        assert(!is_some_word(between[i]));
    }
    state_after_separators(lead.push(some), between, start_offset, None);
    state_after_one_more(lead.push(some) + between, word, start_offset, None);
    assert((lead.push(some) + between).push(word) == lead.push(some) + between.push(word));
    assert(with_some[tokens.len() as int] == some);
}

proof fn more_after_a_word(tokens: Seq<TokenView>, more: Seq<TokenView>)
    requires
        tokens.len() > 0,
        !tokens.last().is_separator(),
    ensures
        without_leading_separators(tokens + more) == without_leading_separators(tokens) + more,
    decreases tokens.len(),
{
    if tokens[0].is_separator() {
        assert((tokens + more).drop_first() == tokens.drop_first() + more);
        more_after_a_word(tokens.drop_first(), more);
    }
}

proof fn state_after_nothing(tokens: Seq<TokenView>, offset: int)
    requires
        forall|i: int| 0 <= i < tokens.len() ==> !takes_position(#[trigger] tokens[i]),
    ensures
        state_after(tokens, offset, None).0 == offset,
        distance_after(state_after(tokens, offset, None).1) == (if exists|i: int|
            0 <= i < tokens.len() && (#[trigger] tokens[i]).kind == TokenKind::Separator(
                SeparatorKind::Hard,
            ) {
            MAX_DISTANCE as int
        } else if exists|i: int| 0 <= i < tokens.len() && (#[trigger] tokens[i]).is_separator() {
            1
        } else {
            0
        }),
        (forall|i: int| 0 <= i < tokens.len() ==> !(#[trigger] tokens[i]).is_separator())
            ==> state_after(tokens, offset, None).1 is None,
    decreases tokens.len(),
{
    let hard = TokenKind::Separator(SeparatorKind::Hard);
    if tokens.len() > 0 {
        let first = tokens.drop_last();
        assert forall|i: int| 0 <= i < first.len() implies !takes_position(#[trigger] first[i]) by {
            assert(first[i] == tokens[i]);
        }
        state_after_nothing(first, offset);
        assert(first.push(tokens.last()) == tokens);
        state_after_one_more(first, tokens.last(), offset, None);
        assert(tokens.last() == tokens[tokens.len() - 1]);
        assert(forall|i: int| 0 <= i < first.len() ==> #[trigger] first[i] == tokens[i]);
        if exists|i: int| 0 <= i < first.len() && (#[trigger] first[i]).kind == hard {
            let i = choose|i: int| 0 <= i < first.len() && (#[trigger] first[i]).kind == hard;
            assert(tokens[i].kind == hard);
        } else if exists|i: int| 0 <= i < first.len() && (#[trigger] first[i]).is_separator() {
            let i = choose|i: int| 0 <= i < first.len() && (#[trigger] first[i]).is_separator();
            assert(tokens[i].is_separator());
        }
    }
}

/// A word before which no other word stands, but a token that is no separator, is as far behind the
/// start as the separators behind that token say: 8 where one of them is hard, 1 where all are
/// soft, and not at all where there are none.
pub proof fn words_follow_other_tokens(
    start_offset: int,
    leading: Seq<TokenView>,
    other: TokenView,
    between: Seq<TokenView>,
    word: TokenView,
)
    requires
        forall|i: int| 0 <= i < leading.len() ==> (#[trigger] leading[i]).is_separator(),
        !other.is_separator() && !is_some_word(other),
        forall|i: int| 0 <= i < between.len() ==> !is_some_word(#[trigger] between[i]),
        word.kind == TokenKind::Word && word.lemma.len() > 0,
    ensures
        placed_words(start_offset, (leading.push(other) + between).push(word)) == seq![
            PlacedView {
                position: start_offset + if exists|i: int|
                    0 <= i < between.len() && (#[trigger] between[i]).kind == TokenKind::Separator(
                        SeparatorKind::Hard,
                    ) {
                    8int
                } else if exists|i: int|
                    0 <= i < between.len() && (#[trigger] between[i]).is_separator() {
                    1
                } else {
                    0
                },
                token: word,
            },
        ],
{
    let lead = leading.push(other);
    leading_separators_of_more(leading, other);
    more_after_a_word(lead, between.push(word));
    assert((lead + between).push(word) == lead + between.push(word));
    let rest = seq![other] + between;
    assert(seq![other] + between.push(word) == rest.push(word));
    assert forall|i: int| 0 <= i < rest.len() implies !takes_position(#[trigger] rest[i]) by {
        if i > 0 {
            assert(rest[i] == between[i - 1]);
            assert(!is_some_word(between[i - 1]));
        }
    }
    state_after_nothing(rest, start_offset);
    state_after_one_more(rest, word, start_offset, None);
    nothing_is_placed(rest, start_offset, None);
    let hard = TokenKind::Separator(SeparatorKind::Hard);
    assert(rest[0] == other);
    if exists|i: int| 0 <= i < between.len() && (#[trigger] between[i]).kind == hard {
        let i = choose|i: int| 0 <= i < between.len() && (#[trigger] between[i]).kind == hard;
        assert(rest[i + 1].kind == hard);
    }
    if exists|i: int| 0 <= i < between.len() && (#[trigger] between[i]).is_separator() {
        let i = choose|i: int| 0 <= i < between.len() && (#[trigger] between[i]).is_separator();
        assert(rest[i + 1].is_separator());
    }
    assert forall|i: int| 0 < i < rest.len() implies #[trigger] rest[i] == between[i - 1] by {}
    assert(placed_words(start_offset, (lead + between).push(word)) =~= places_from(
        rest,
        start_offset,
        None,
    ).push(
        PlacedView {
            position: start_offset + distance_after(state_after(rest, start_offset, None).1),
            token: word,
        },
    ));
}

proof fn nothing_is_placed(tokens: Seq<TokenView>, offset: int, previous: Option<TokenKind>)
    requires
        forall|i: int| 0 <= i < tokens.len() ==> !takes_position(#[trigger] tokens[i]),
    ensures
        places_from(tokens, offset, previous) == Seq::<PlacedView>::empty(),
    decreases tokens.len(),
{
    if tokens.len() > 0 {
        let rest = tokens.drop_first();
        assert forall|i: int| 0 <= i < rest.len() implies !takes_position(#[trigger] rest[i]) by {
            assert(rest[i] == tokens[i + 1]);
        }
        nothing_is_placed(rest, offset, previous_after(previous, tokens[0]));
    }
}

} // verus!
