//! WordPiece: how a word is cut into tokens of the vocabulary.
use crate::model;
use vstd::prelude::*;

verus! {

/// What the characters `start` to `end` of a word are called in the vocabulary: behind the start
/// of the word they carry the prefix of continuing tokens.
pub open spec fn key(m: model::Model, word: Seq<char>, start: int, end: int) -> Seq<char> {
    if start == 0 {
        word.subrange(0, end)
    } else {
        m.continuing_subword_prefix + word.subrange(start, end)
    }
}

/// The end of the longest token that starts at `start` and ends at `end` or before.
pub open spec fn longest_end(m: model::Model, word: Seq<char>, start: int, end: int) -> Option<int>
    decreases end - start,
{
    if end <= start {
        None
    } else if m.vocab.contains_key(key(m, word, start, end)) {
        Some(end)
    } else {
        longest_end(m, word, start, end - 1)
    }
}

/// The ids of the tokens that make up the word from `start` on, each the longest that fits; `None`
/// if at some place no token fits.
pub open spec fn subwords_from(m: model::Model, word: Seq<char>, start: int) -> Option<Seq<u32>>
    decreases word.len() - start,
{
    if start >= word.len() {
        Some(seq![])
    } else {
        match longest_end(m, word, start, word.len() as int) {
            Some(end) => if start < end <= word.len() {
                match subwords_from(m, word, end) {
                    Some(rest) => Some(seq![m.vocab[key(m, word, start, end)]] + rest),
                    None => None,
                }
            } else {
                None
            },
            None => None,
        }
    }
}

/// The id of the unknown token, if there is one.
pub open spec fn unknown(m: model::Model) -> Seq<u32> {
    match m.unk_id {
        Some(id) => seq![id],
        None => seq![],
    }
}

/// The ids of a word. A word that is too long, or that tokens of the vocabulary do not make up, is
/// one unknown token.
pub open spec fn word_ids(m: model::Model, word: Seq<char>) -> Seq<u32> {
    if word.len() > m.max_input_chars_per_word {
        unknown(m)
    } else {
        match subwords_from(m, word, 0) {
            Some(ids) => ids,
            None => unknown(m),
        }
    }
}

/// What a buffer for keys holds once the word has been looked up from `start` on: the last
/// continuing key that was tried, or else what it held before.
pub open spec fn buffer_from(
    m: model::Model,
    word: Seq<char>,
    start: int,
    buffer: Seq<char>,
) -> Seq<char>
    decreases word.len() - start,
{
    if start >= word.len() {
        buffer
    } else {
        match longest_end(m, word, start, word.len() as int) {
            Some(end) => if start < end <= word.len() {
                buffer_from(
                    m,
                    word,
                    end,
                    if start == 0 {
                        buffer
                    } else {
                        key(m, word, start, end)
                    },
                )
            } else {
                buffer
            },
            None => if start == 0 {
                buffer
            } else {
                key(m, word, start, start + 1)
            },
        }
    }
}

/// What a buffer for keys holds once the word has been looked up.
pub open spec fn buffer_after(m: model::Model, word: Seq<char>, buffer: Seq<char>) -> Seq<char> {
    if word.len() > m.max_input_chars_per_word {
        buffer
    } else {
        buffer_from(m, word, 0, buffer)
    }
}

// --- Laws --------------------------------------------------------------------
/// The end that is found is that of a token, and no longer token fits; if none is found, no token
/// fits.
pub proof fn lemma_longest_end_is_longest(m: model::Model, word: Seq<char>, start: int, end: int)
    ensures
        match longest_end(m, word, start, end) {
            Some(e) => {
                &&& start < e <= end
                &&& m.vocab.contains_key(key(m, word, start, e))
                &&& forall|d: int|
                    e < d <= end ==> !m.vocab.contains_key(#[trigger] key(m, word, start, d))
            },
            None => forall|d: int|
                start < d <= end ==> !m.vocab.contains_key(#[trigger] key(m, word, start, d)),
        },
    decreases end - start,
{
    if start < end && !m.vocab.contains_key(key(m, word, start, end)) {
        lemma_longest_end_is_longest(m, word, start, end - 1);
    }
}

/// `id` is that of the longest token that fits at `start`, and that token ends at `end`.
pub open spec fn is_longest_token(
    m: model::Model,
    word: Seq<char>,
    start: int,
    end: int,
    id: u32,
) -> bool {
    &&& longest_end(m, word, start, word.len() as int) == Some(end)
    &&& m.vocab.contains_key(key(m, word, start, end))
    &&& id == m.vocab[key(m, word, start, end)]
}

/// `cuts` are the places, the start and the end of the word among them, at which it is cut into
/// the tokens `ids`: each the longest token of the vocabulary that fits there.
pub open spec fn is_segmentation(
    m: model::Model,
    word: Seq<char>,
    cuts: Seq<int>,
    ids: Seq<u32>,
) -> bool {
    &&& cuts.len() == ids.len() + 1
    &&& cuts.last() == word.len()
    &&& forall|i: int|
        0 <= i < ids.len() ==> is_longest_token(m, word, cuts[i], cuts[i + 1], #[trigger] ids[i])
}

proof fn lemma_subwords_from_segment(m: model::Model, word: Seq<char>, start: int) -> (cuts: Seq<
    int,
>)
    requires
        0 <= start <= word.len(),
        subwords_from(m, word, start) is Some,
    ensures
        cuts.len() > 0,
        cuts[0] == start,
        is_segmentation(m, word, cuts, subwords_from(m, word, start)->0),
    decreases word.len() - start,
{
    if start == word.len() {
        assert(is_segmentation(m, word, seq![start], Seq::<u32>::empty()));
        seq![start]
    } else {
        lemma_longest_end_is_longest(m, word, start, word.len() as int);
        let end = longest_end(m, word, start, word.len() as int)->0;
        let later = lemma_subwords_from_segment(m, word, end);
        let rest = subwords_from(m, word, end)->0;
        let ids = subwords_from(m, word, start)->0;
        let cuts = seq![start] + later;
        assert(ids == seq![m.vocab[key(m, word, start, end)]] + rest);
        assert forall|i: int| 0 <= i < ids.len() implies is_longest_token(
            m,
            word,
            cuts[i],
            cuts[i + 1],
            #[trigger] ids[i],
        ) by {
            if i > 0 {
                assert(ids[i] == rest[i - 1]);
                assert(cuts[i] == later[i - 1]);
                assert(cuts[i + 1] == later[i]);
            }
        }
        assert(cuts.last() == later.last());
        assert(is_segmentation(m, word, cuts, ids));
        cuts
    }
}

/// A word is its tokens, cut greedily from left to right, or else one unknown token.
pub proof fn lemma_word_ids_segment_or_unknown(m: model::Model, word: Seq<char>)
    ensures
        word_ids(m, word) == unknown(m) || exists|cuts: Seq<int>|
            cuts.len() > 0 && cuts[0] == 0 && #[trigger] is_segmentation(
                m,
                word,
                cuts,
                word_ids(m, word),
            ),
        word.len() > m.max_input_chars_per_word ==> word_ids(m, word) == unknown(m),
{
    if word.len() <= m.max_input_chars_per_word && subwords_from(m, word, 0) is Some {
        let cuts = lemma_subwords_from_segment(m, word, 0);
        assert(is_segmentation(m, word, cuts, word_ids(m, word)));
    }
}

proof fn lemma_segmentation_is_subwords(
    m: model::Model,
    word: Seq<char>,
    cuts: Seq<int>,
    ids: Seq<u32>,
)
    requires
        is_segmentation(m, word, cuts, ids),
    ensures
        subwords_from(m, word, cuts[0]) == Some(ids),
    decreases ids.len(),
{
    if ids.len() == 0 {
        assert(ids == Seq::<u32>::empty());
    } else {
        let later = cuts.drop_first();
        let rest = ids.drop_first();
        assert(is_longest_token(m, word, cuts[0], cuts[1], ids[0]));
        lemma_longest_end_is_longest(m, word, cuts[0], word.len() as int);
        assert forall|i: int| 0 <= i < rest.len() implies is_longest_token(
            m,
            word,
            later[i],
            later[i + 1],
            #[trigger] rest[i],
        ) by {
            assert(rest[i] == ids[i + 1]);
        }
        lemma_segmentation_is_subwords(m, word, later, rest);
        assert(ids == seq![ids[0]] + rest);
    }
}

/// A word that can be cut greedily into tokens, and is not too long, is those tokens: there is
/// only one way to cut it, and it is not unknown.
pub proof fn lemma_segmentation_is_word_ids(
    m: model::Model,
    word: Seq<char>,
    cuts: Seq<int>,
    ids: Seq<u32>,
)
    requires
        word.len() <= m.max_input_chars_per_word,
        is_segmentation(m, word, cuts, ids),
        cuts[0] == 0,
    ensures
        word_ids(m, word) == ids,
{
    lemma_segmentation_is_subwords(m, word, cuts, ids);
}

/// A word that is itself a token, and not too long, has the id of that token.
pub proof fn lemma_token_is_its_own_word(m: model::Model, word: Seq<char>)
    requires
        0 < word.len() <= m.max_input_chars_per_word,
        m.vocab.contains_key(word),
    ensures
        word_ids(m, word) == seq![m.vocab[word]],
{
    assert(key(m, word, 0, word.len() as int) == word);
    assert(subwords_from(m, word, word.len() as int) == Some(Seq::<u32>::empty()));
}

/// The buffer is not used for a word of one character.
pub(crate) proof fn lemma_single_character_buffer(m: model::Model, c: char, buffer: Seq<char>)
    ensures
        buffer_after(m, seq![c], buffer) == buffer,
{
    let word = seq![c];
    assert(longest_end(m, word, 0, 0) is None);
    lemma_longest_end_is_longest(m, word, 0, 1);
    assert(buffer_from(m, word, 1, buffer) == buffer);
}

/// A word of one character is the token of that name or else unknown: no other lookup is made.
pub proof fn lemma_single_character_word(m: model::Model, c: char)
    requires
        m.max_input_chars_per_word > 0,
    ensures
        word_ids(m, seq![c]) == if m.vocab.contains_key(seq![c]) {
            seq![m.vocab[seq![c]]]
        } else {
            unknown(m)
        },
{
    let word = seq![c];
    if m.vocab.contains_key(word) {
        lemma_token_is_its_own_word(m, word);
    } else {
        assert(key(m, word, 0, 1) == word);
        assert(longest_end(m, word, 0, 0) is None);
        assert(longest_end(m, word, 0, 1) is None);
    }
}

/// The name of the part of `word` from `start` to `end`, where it is part `i` of the word.
spec fn part_name(m: model::Model, word: Seq<char>, i: int, start: int, end: int) -> Seq<char> {
    if i == 0 {
        word.subrange(start, end)
    } else {
        m.continuing_subword_prefix + word.subrange(start, end)
    }
}

/// The word is cut greedily up to its last cut.
spec fn is_greedy(m: model::Model, word: Seq<char>, cuts: Seq<int>, ids: Seq<u32>) -> bool {
    &&& cuts.len() == ids.len() + 1
    &&& cuts[0] == 0
    &&& cuts.last() <= word.len()
    &&& forall|i: int, j: int|
        0 <= i < j <= ids.len() ==> #[trigger] cuts[i] < #[trigger] cuts[j]
    &&& forall|i: int|
        0 <= i < ids.len() ==> m.vocab.contains_pair(
            part_name(m, word, i, cuts[i], cuts[i + 1]),
            #[trigger] ids[i],
        )
    &&& forall|i: int, d: int|
        0 <= i < ids.len() && cuts[i + 1] < d <= word.len() ==> !m.vocab.contains_key(
            #[trigger] part_name(m, word, i, cuts[i], d),
        )
}

/// Part `i` of a greedy cut is the longest token that fits at its start.
proof fn lemma_greedy_part(
    m: model::Model,
    word: Seq<char>,
    cuts: Seq<int>,
    ids: Seq<u32>,
    i: int,
)
    requires
        is_greedy(m, word, cuts, ids),
        0 <= i < ids.len(),
    ensures
        is_longest_token(m, word, cuts[i], cuts[i + 1], ids[i]),
        forall|d: int| key(m, word, cuts[i], d) == #[trigger] part_name(m, word, i, cuts[i], d),
{
    let start = cuts[i];
    let end = cuts[i + 1];
    assert(m.vocab.contains_pair(part_name(m, word, i, start, end), ids[i]));
    assert(i == 0 <==> start == 0);
    assert(start < end <= cuts[ids.len() as int]);
    assert(key(m, word, start, end) == part_name(m, word, i, start, end));
    lemma_longest_end_is_longest(m, word, start, word.len() as int);
    match longest_end(m, word, start, word.len() as int) {
        Some(e) => {
            assert(key(m, word, start, e) == part_name(m, word, i, start, e));
            if e < end {
                assert(!m.vocab.contains_key(key(m, word, start, end)));
            }
        },
        None => {
            assert(!m.vocab.contains_key(key(m, word, start, end)));
        },
    }
}

/// A greedy cut that goes to the end of the word is what a segmentation is.
proof fn lemma_greedy_is_segmentation(
    m: model::Model,
    word: Seq<char>,
    cuts: Seq<int>,
    ids: Seq<u32>,
)
    requires
        cuts.len() > 0,
        cuts[0] == 0,
        cuts.last() == word.len(),
    ensures
        is_greedy(m, word, cuts, ids) <==> is_segmentation(m, word, cuts, ids),
{
    if is_greedy(m, word, cuts, ids) {
        assert forall|i: int| 0 <= i < ids.len() implies is_longest_token(
            m,
            word,
            cuts[i],
            cuts[i + 1],
            #[trigger] ids[i],
        ) by {
            lemma_greedy_part(m, word, cuts, ids, i);
        }
    }
    if is_segmentation(m, word, cuts, ids) {
        assert forall|i: int, j: int| 0 <= i < j <= ids.len() implies #[trigger] cuts[i]
            < #[trigger] cuts[j] by {
            lemma_segmentation_rises_between(m, word, cuts, ids, i, j);
        }
        assert forall|i: int| 0 <= i < ids.len() implies m.vocab.contains_pair(
            part_name(m, word, i, cuts[i], cuts[i + 1]),
            #[trigger] ids[i],
        ) by {
            lemma_segmentation_rises(m, word, cuts, ids, i);
            assert(is_longest_token(m, word, cuts[i], cuts[i + 1], ids[i]));
        }
        assert forall|i: int, d: int|
            0 <= i < ids.len() && cuts[i + 1] < d <= word.len() implies !m.vocab.contains_key(
            #[trigger] part_name(m, word, i, cuts[i], d),
        ) by {
            lemma_segmentation_rises(m, word, cuts, ids, i);
            assert(is_longest_token(m, word, cuts[i], cuts[i + 1], ids[i]));
            lemma_longest_end_is_longest(m, word, cuts[i], word.len() as int);
            assert(part_name(m, word, i, cuts[i], d) == key(m, word, cuts[i], d));
        }
    }
}

proof fn lemma_segmentation_rises(
    m: model::Model,
    word: Seq<char>,
    cuts: Seq<int>,
    ids: Seq<u32>,
    i: int,
)
    requires
        is_segmentation(m, word, cuts, ids),
        cuts[0] == 0,
        0 <= i < ids.len(),
    ensures
        i <= cuts[i] < cuts[i + 1] <= word.len(),
    decreases i,
{
    if i > 0 {
        lemma_segmentation_rises(m, word, cuts, ids, i - 1);
    }
    assert(is_longest_token(m, word, cuts[i], cuts[i + 1], ids[i]));
    lemma_longest_end_is_longest(m, word, cuts[i], word.len() as int);
}

proof fn lemma_segmentation_rises_between(
    m: model::Model,
    word: Seq<char>,
    cuts: Seq<int>,
    ids: Seq<u32>,
    i: int,
    j: int,
)
    requires
        is_segmentation(m, word, cuts, ids),
        cuts[0] == 0,
        0 <= i < j <= ids.len(),
    ensures
        cuts[i] < cuts[j],
    decreases j - i,
{
    lemma_segmentation_rises(m, word, cuts, ids, j - 1);
    if i < j - 1 {
        lemma_segmentation_rises_between(m, word, cuts, ids, i, j - 1);
    }
}

proof fn lemma_written_is_greedy(
    m: model::Model,
    word: Seq<char>,
    cuts: Seq<int>,
    ids: Seq<u32>,
)
    requires
        cuts.len() == ids.len() + 1,
        cuts[0] == 0,
        cuts[ids.len() as int] <= word.len(),
        forall|i: int, j: int| 0 <= i < j <= ids.len() ==> #[trigger] cuts[i] < #[trigger] cuts[j],
        forall|i: int|
            0 <= i < ids.len() ==> {
                let part = word.subrange(cuts[i], cuts[i + 1]);
                m.vocab.contains_pair(
                    if i == 0 {
                        part
                    } else {
                        m.continuing_subword_prefix + part
                    },
                    #[trigger] ids[i],
                )
            },
        forall|i: int, d: int|
            0 <= i < ids.len() && cuts[i + 1] < d <= word.len() ==> {
                let longer = #[trigger] word.subrange(cuts[i], d);
                !m.vocab.contains_key(
                    if i == 0 {
                        longer
                    } else {
                        m.continuing_subword_prefix + longer
                    },
                )
            },
    ensures
        is_greedy(m, word, cuts, ids),
{
    assert(cuts.last() == cuts[ids.len() as int]);
    assert forall|i: int, d: int|
        0 <= i < ids.len() && cuts[i + 1] < d <= word.len() implies !m.vocab.contains_key(
        #[trigger] part_name(m, word, i, cuts[i], d),
    ) by {
        let longer = word.subrange(cuts[i], d);
        assert(part_name(m, word, i, cuts[i], d) == if i == 0 {
            longer
        } else {
            m.continuing_subword_prefix + longer
        });
    }
}

/// A word that is not too long and is cut into tokens as follows gives the ids of these tokens. Its
/// first part stands in the vocabulary as it is, and every later part behind the prefix of
/// continuing tokens; no part could be longer and still stand there.
pub proof fn lemma_greedy_cut_gives_the_ids(
    m: model::Model,
    word: Seq<char>,
    cuts: Seq<int>,
    ids: Seq<u32>,
)
    requires
        word.len() <= m.max_input_chars_per_word,
        cuts.len() == ids.len() + 1,
        cuts[0] == 0,
        cuts[ids.len() as int] == word.len(),
        forall|i: int, j: int| 0 <= i < j <= ids.len() ==> #[trigger] cuts[i] < #[trigger] cuts[j],
        forall|i: int|
            0 <= i < ids.len() ==> {
                let part = word.subrange(cuts[i], cuts[i + 1]);
                m.vocab.contains_pair(
                    if i == 0 {
                        part
                    } else {
                        m.continuing_subword_prefix + part
                    },
                    #[trigger] ids[i],
                )
            },
        forall|i: int, d: int|
            0 <= i < ids.len() && cuts[i + 1] < d <= word.len() ==> {
                let longer = #[trigger] word.subrange(cuts[i], d);
                !m.vocab.contains_key(
                    if i == 0 {
                        longer
                    } else {
                        m.continuing_subword_prefix + longer
                    },
                )
            },
    ensures
        word_ids(m, word) == ids,
{
    lemma_written_is_greedy(m, word, cuts, ids);
    lemma_greedy_is_segmentation(m, word, cuts, ids);
    lemma_segmentation_is_word_ids(m, word, cuts, ids);
}

/// The ids of a word are those of such a cut, or else the word is unknown and gives the id of the
/// unknown token, or nothing where there is no such token. A word that is too long is unknown.
pub proof fn lemma_ids_are_a_greedy_cut_or_unknown(m: model::Model, word: Seq<char>)
    ensures
        word_ids(m, word) == (match m.unk_id {
            Some(id) => seq![id],
            None => Seq::<u32>::empty(),
        }) || exists|cuts: Seq<int>|
            ({
                let ids = word_ids(m, word);
                &&& #[trigger] cuts.len() == ids.len() + 1
                &&& cuts[0] == 0
                &&& cuts[ids.len() as int] == word.len()
                &&& forall|i: int, j: int| 0 <= i < j <= ids.len() ==> #[trigger] cuts[i] < #[trigger] cuts[j]
                &&& forall|i: int|
                    0 <= i < ids.len() ==> {
                        let part = word.subrange(cuts[i], cuts[i + 1]);
                        m.vocab.contains_pair(
                            if i == 0 {
                                part
                            } else {
                                m.continuing_subword_prefix + part
                            },
                            #[trigger] ids[i],
                        )
                    }
                &&& forall|i: int, d: int|
                    0 <= i < ids.len() && cuts[i + 1] < d <= word.len() ==> {
                        let longer = #[trigger] word.subrange(cuts[i], d);
                        !m.vocab.contains_key(
                            if i == 0 {
                                longer
                            } else {
                                m.continuing_subword_prefix + longer
                            },
                        )
                    }
            }),
        word.len() > m.max_input_chars_per_word ==> word_ids(m, word) == (match m.unk_id {
            Some(id) => seq![id],
            None => Seq::<u32>::empty(),
        }),
{
    if word.len() <= m.max_input_chars_per_word && subwords_from(m, word, 0) is Some {
        let ids = word_ids(m, word);
        let cuts = lemma_subwords_from_segment(m, word, 0);
        lemma_greedy_is_segmentation(m, word, cuts, ids);
        assert(cuts.len() == ids.len() + 1);
        assert forall|i: int| 0 <= i < ids.len() implies {
            let part = word.subrange(cuts[i], cuts[i + 1]);
            m.vocab.contains_pair(
                if i == 0 {
                    part
                } else {
                    m.continuing_subword_prefix + part
                },
                #[trigger] ids[i],
            )
        } by {
            assert(m.vocab.contains_pair(part_name(m, word, i, cuts[i], cuts[i + 1]), ids[i]));
        }
        assert forall|i: int, d: int|
            0 <= i < ids.len() && cuts[i + 1] < d <= word.len() implies {
            let longer = #[trigger] word.subrange(cuts[i], d);
            !m.vocab.contains_key(
                if i == 0 {
                    longer
                } else {
                    m.continuing_subword_prefix + longer
                },
            )
        } by {
            assert(!m.vocab.contains_key(part_name(m, word, i, cuts[i], d)));
        }
    }
}

/// No cut is possible where at one of its places no token fits: the word is then unknown, however
/// its start was cut.
pub proof fn lemma_stuck_word_is_unknown(
    m: model::Model,
    word: Seq<char>,
    cuts: Seq<int>,
    ids: Seq<u32>,
)
    requires
        cuts.len() == ids.len() + 1,
        cuts[0] == 0,
        cuts[ids.len() as int] < word.len(),
        forall|i: int, j: int| 0 <= i < j <= ids.len() ==> #[trigger] cuts[i] < #[trigger] cuts[j],
        forall|i: int|
            0 <= i < ids.len() ==> {
                let part = word.subrange(cuts[i], cuts[i + 1]);
                m.vocab.contains_pair(
                    if i == 0 {
                        part
                    } else {
                        m.continuing_subword_prefix + part
                    },
                    #[trigger] ids[i],
                )
            },
        forall|i: int, d: int|
            0 <= i < ids.len() && cuts[i + 1] < d <= word.len() ==> {
                let longer = #[trigger] word.subrange(cuts[i], d);
                !m.vocab.contains_key(
                    if i == 0 {
                        longer
                    } else {
                        m.continuing_subword_prefix + longer
                    },
                )
            },
        forall|d: int|
            cuts[ids.len() as int] < d <= word.len() ==> {
                let part = #[trigger] word.subrange(cuts[ids.len() as int], d);
                !m.vocab.contains_key(
                    if ids.len() == 0 {
                        part
                    } else {
                        m.continuing_subword_prefix + part
                    },
                )
            },
    ensures
        word_ids(m, word) == (match m.unk_id {
            Some(id) => seq![id],
            None => Seq::<u32>::empty(),
        }),
        forall|buffer: Seq<char>| #[trigger]
            buffer_after(m, word, buffer) == if ids.len() == 0 || word.len()
                > m.max_input_chars_per_word {
                buffer
            } else {
                m.continuing_subword_prefix + word.subrange(
                    cuts[ids.len() as int],
                    cuts[ids.len() as int] + 1,
                )
            },
{
    let n = ids.len() as int;
    lemma_written_is_greedy(m, word, cuts, ids);
    let start = cuts[n];
    assert forall|d: int| start < d <= word.len() implies !m.vocab.contains_key(
        #[trigger] key(m, word, start, d),
    ) by {
        let part = word.subrange(start, d);
        assert(n == 0 <==> start == 0);
        assert(key(m, word, start, d) == if n == 0 {
            part
        } else {
            m.continuing_subword_prefix + part
        });
    }
    lemma_longest_end_is_longest(m, word, start, word.len() as int);
    assert(longest_end(m, word, start, word.len() as int) is None);
    assert(subwords_from(m, word, start) is None);
    lemma_greedy_reaches(m, word, cuts, ids, n);
    assert forall|buffer: Seq<char>| #[trigger]
        buffer_after(m, word, buffer) == if ids.len() == 0 || word.len()
            > m.max_input_chars_per_word {
            buffer
        } else {
            m.continuing_subword_prefix + word.subrange(start, start + 1)
        } by {
        lemma_greedy_buffer(m, word, cuts, ids, n, buffer);
    }
}

/// Cutting from the start gets to each cut of a greedy cut.
proof fn lemma_greedy_reaches(
    m: model::Model,
    word: Seq<char>,
    cuts: Seq<int>,
    ids: Seq<u32>,
    i: int,
)
    requires
        is_greedy(m, word, cuts, ids),
        0 <= i <= ids.len(),
    ensures
        subwords_from(m, word, cuts[i]) is None ==> subwords_from(m, word, 0) is None,
    decreases i,
{
    if i > 0 {
        lemma_greedy_reaches(m, word, cuts, ids, i - 1);
        lemma_greedy_part(m, word, cuts, ids, i - 1);
    }
}

/// What the buffer holds at each cut of a greedy cut.
proof fn lemma_greedy_buffer(
    m: model::Model,
    word: Seq<char>,
    cuts: Seq<int>,
    ids: Seq<u32>,
    i: int,
    buffer: Seq<char>,
)
    requires
        is_greedy(m, word, cuts, ids),
        0 <= i <= ids.len(),
    ensures
        buffer_from(m, word, 0, buffer) == buffer_from(
            m,
            word,
            cuts[i],
            if i <= 1 {
                buffer
            } else {
                m.continuing_subword_prefix + word.subrange(cuts[i - 1], cuts[i])
            },
        ),
    decreases i,
{
    if i > 0 {
        lemma_greedy_buffer(m, word, cuts, ids, i - 1, buffer);
        lemma_greedy_part(m, word, cuts, ids, i - 1);
        let id = ids[i - 1];
        assert(is_longest_token(m, word, cuts[i - 1], cuts[i], id));
    }
}

/// The buffer is left with the name of the last token of a word that was cut, where that carries
/// the prefix; a word of one token, or of more characters than are allowed, leaves it alone.
pub proof fn lemma_buffer_holds_the_last_name(
    m: model::Model,
    word: Seq<char>,
    cuts: Seq<int>,
    ids: Seq<u32>,
    buffer: Seq<char>,
)
    requires
        cuts.len() == ids.len() + 1,
        cuts[0] == 0,
        cuts[ids.len() as int] == word.len(),
        forall|i: int, j: int| 0 <= i < j <= ids.len() ==> #[trigger] cuts[i] < #[trigger] cuts[j],
        forall|i: int|
            0 <= i < ids.len() ==> {
                let part = word.subrange(cuts[i], cuts[i + 1]);
                m.vocab.contains_pair(
                    if i == 0 {
                        part
                    } else {
                        m.continuing_subword_prefix + part
                    },
                    #[trigger] ids[i],
                )
            },
        forall|i: int, d: int|
            0 <= i < ids.len() && cuts[i + 1] < d <= word.len() ==> {
                let longer = #[trigger] word.subrange(cuts[i], d);
                !m.vocab.contains_key(
                    if i == 0 {
                        longer
                    } else {
                        m.continuing_subword_prefix + longer
                    },
                )
            },
    ensures
        buffer_after(m, word, buffer) == if ids.len() <= 1 || word.len()
            > m.max_input_chars_per_word {
            buffer
        } else {
            m.continuing_subword_prefix + word.subrange(
                cuts[ids.len() - 1],
                word.len() as int,
            )
        },
{
    let n = ids.len() as int;
    lemma_written_is_greedy(m, word, cuts, ids);
    lemma_greedy_buffer(m, word, cuts, ids, n, buffer);
}

/// What an unknown word gives.
pub proof fn lemma_unknown_ids(m: model::Model)
    ensures
        m.unk_id is None ==> unknown(m).len() == 0,
        m.unk_id is Some ==> unknown(m).len() == 1 && m.unk_id == Some(unknown(m)[0]),
{
}

} // verus!
