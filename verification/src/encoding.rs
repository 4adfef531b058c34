//! From text to ids.
use crate::added_tokens;
use crate::model;
use crate::normalizer;
use crate::pre_tokenizer;
use crate::subwords;
use crate::unicode;
use vstd::prelude::*;

verus! {

/// The ids of text without added tokens: it is normalized, split into words, and each word is cut
/// into tokens.
pub open spec fn text_ids(m: model::Model, s: Seq<char>) -> Seq<u32> {
    pre_tokenizer::words(normalizer::normal_form(m, s)).flat_map(
        |w: Seq<char>| subwords::word_ids(m, w),
    )
}

/// The ids of a piece: an added token is its id.
pub open spec fn piece_ids(m: model::Model, piece: added_tokens::PieceView) -> Seq<u32> {
    match piece {
        added_tokens::PieceView::Added(id) => seq![id],
        added_tokens::PieceView::Text(t) => text_ids(m, t),
    }
}

/// The ids of a text.
pub open spec fn encode(m: model::Model, s: Seq<char>) -> Seq<u32> {
    added_tokens::split(m.added_tokens, s).flat_map(
        |p: added_tokens::PieceView| piece_ids(m, p),
    )
}

// --- Laws --------------------------------------------------------------------
/// An id that the model has: of the vocabulary, of the unknown token or of an added token.
pub open spec fn is_known(m: model::Model, id: u32) -> bool {
    ||| m.vocab.contains_value(id)
    ||| m.unk_id == Some(id)
    ||| exists|j: int| 0 <= j < m.added_tokens.len() && (#[trigger] m.added_tokens[j]).1 == id
}

proof fn lemma_subwords_known(m: model::Model, word: Seq<char>, start: int)
    ensures
        subwords::subwords_from(m, word, start) matches Some(ids) ==> forall|i: int|
            0 <= i < ids.len() ==> is_known(m, #[trigger] ids[i]),
    decreases word.len() - start,
{
    if start < word.len() {
        subwords::lemma_longest_end_is_longest(m, word, start, word.len() as int);
        if let Some(end) = subwords::longest_end(m, word, start, word.len() as int) {
            lemma_subwords_known(m, word, end);
            let key = subwords::key(m, word, start, end);
            assert(m.vocab.contains_value(m.vocab[key]));
            if let Some(rest) = subwords::subwords_from(m, word, end) {
                let ids = seq![m.vocab[key]] + rest;
                assert forall|i: int| 0 <= i < ids.len() implies is_known(
                    m,
                    #[trigger] ids[i],
                ) by {
                    if i > 0 {
                        assert(ids[i] == rest[i - 1]);
                    }
                }
            }
        }
    }
}

proof fn lemma_flat_map_all<A>(s: Seq<A>, f: spec_fn(A) -> Seq<u32>, m: model::Model)
    requires
        forall|i: int, j: int|
            0 <= i < s.len() && 0 <= j < f(s[i]).len() ==> is_known(m, #[trigger] f(s[i])[j]),
    ensures
        forall|i: int| 0 <= i < s.flat_map(f).len() ==> is_known(m, #[trigger] s.flat_map(f)[i]),
    decreases s.len(),
{
    if s.len() == 0 {
        assert(s.map_values(f) == Seq::<Seq<u32>>::empty());
    } else {
        let head = s.drop_last();
        assert forall|i: int, j: int|
            0 <= i < head.len() && 0 <= j < f(head[i]).len() implies is_known(
            m,
            #[trigger] f(head[i])[j],
        ) by {
            assert(is_known(m, f(s[i])[j]));
        }
        lemma_flat_map_all(head, f, m);
        assert(s == head.push(s.last()));
        head.lemma_flat_map_push(f, s.last());
        let before = head.flat_map(f);
        let here = f(s.last());
        assert(s.last() == s[s.len() - 1]);
        assert forall|i: int| 0 <= i < s.flat_map(f).len() implies is_known(
            m,
            #[trigger] s.flat_map(f)[i],
        ) by {
            if i < before.len() {
                assert(s.flat_map(f)[i] == before[i]);
            } else {
                assert(s.flat_map(f)[i] == here[i - before.len()]);
                assert(is_known(m, f(s[s.len() - 1])[i - before.len()]));
            }
        }
    }
}

/// Encoding gives no id but those that the model has.
pub proof fn lemma_encode_gives_known_ids(m: model::Model, s: Seq<char>)
    ensures
        forall|i: int| 0 <= i < encode(m, s).len() ==> is_known(m, #[trigger] encode(m, s)[i]),
{
    let g = |w: Seq<char>| subwords::word_ids(m, w);
    let f = |p: added_tokens::PieceView| piece_ids(m, p);
    assert forall|w: Seq<char>, j: int| 0 <= j < g(w).len() implies is_known(
        m,
        #[trigger] g(w)[j],
    ) by {
        lemma_subwords_known(m, w, 0);
    }
    let pieces = added_tokens::split(m.added_tokens, s);
    added_tokens::lemma_split_keeps_text(m.added_tokens, s);
    let contents = choose|contents: Seq<Seq<char>>| #[trigger]
        added_tokens::spells(m.added_tokens, pieces, contents) && contents.flatten() == s;
    assert forall|i: int, j: int|
        0 <= i < pieces.len() && 0 <= j < f(pieces[i]).len() implies is_known(
        m,
        #[trigger] f(pieces[i])[j],
    ) by {
        match pieces[i] {
            added_tokens::PieceView::Added(id) => {
                let token = (contents[i], id);
                assert(m.added_tokens.contains(token));
                let at = choose|at: int|
                    0 <= at < m.added_tokens.len() && m.added_tokens[at] == token;
                assert(m.added_tokens[at].1 == id);
            },
            added_tokens::PieceView::Text(t) => {
                lemma_flat_map_all(
                    pre_tokenizer::words(normalizer::normal_form(m, t)),
                    g,
                    m,
                );
            },
        }
    }
    lemma_flat_map_all(pieces, f, m);
}

proof fn lemma_empty_text_has_no_words(m: model::Model, s: Seq<char>)
    requires
        s.len() == 0,
    ensures
        text_ids(m, s) == Seq::<u32>::empty(),
{
    normalizer::lemma_normal_form_of_empty(m, s);
    let words = pre_tokenizer::words(Seq::<char>::empty());
    assert(words == Seq::<Seq<char>>::empty());
    assert(words.map_values(|w: Seq<char>| subwords::word_ids(m, w)) == Seq::<Seq<u32>>::empty());
}

/// An added token gives its id wherever it stands, whatever the normalizer would make of its
/// letters: where `before` is the text up to the first place at which an added token stands, the
/// ids are those of `before`, the id of the token, and the ids of what follows it.
pub proof fn lemma_added_token_gives_its_id(
    m: model::Model,
    before: Seq<char>,
    token: (Seq<char>, u32),
    after: Seq<char>,
)
    requires
        added_tokens::none_between(
            m.added_tokens,
            before + (token.0 + after),
            0,
            before.len() as int,
        ),
        added_tokens::first_match(m.added_tokens, token.0 + after) == Some(token),
    ensures
        encode(m, before + (token.0 + after)) == text_ids(m, before) + seq![token.1] + encode(
            m,
            after,
        ),
{
    let f = |p: added_tokens::PieceView| piece_ids(m, p);
    let s = token.0 + after;
    added_tokens::lemma_first_match_matches(m.added_tokens, s);
    added_tokens::lemma_split_from_skips(m.added_tokens, seq![], before, s);
    assert(Seq::<char>::empty() + before == before);
    assert(s.skip(token.0.len() as int) == after);
    let head = added_tokens::flush_text(before);
    let here = seq![added_tokens::PieceView::Added(token.1)];
    let tail = added_tokens::split(m.added_tokens, after);
    assert(added_tokens::split(m.added_tokens, before + s) == head + here + tail);
    assert((head + here + tail).map_values(f) == head.map_values(f) + here.map_values(f)
        + tail.map_values(f));
    vstd::seq_lib::lemma_flatten_concat(head.map_values(f) + here.map_values(f), tail.map_values(f));
    vstd::seq_lib::lemma_flatten_concat(head.map_values(f), here.map_values(f));
    here.lemma_flat_map_singleton(f);
    if before.len() == 0 {
        assert(head.map_values(f) == Seq::<Seq<u32>>::empty());
        lemma_empty_text_has_no_words(m, before);
    } else {
        head.lemma_flat_map_singleton(f);
    }
}

/// Text in which no added token stands is normalized, split and cut as a whole.
pub proof fn lemma_text_without_added_tokens(m: model::Model, s: Seq<char>)
    requires
        added_tokens::holds_none(m.added_tokens, s),
    ensures
        encode(m, s) == text_ids(m, s),
{
    let f = |p: added_tokens::PieceView| piece_ids(m, p);
    if m.added_tokens.len() == 0 {
        seq![added_tokens::PieceView::Text(s)].lemma_flat_map_singleton(f);
    } else {
        added_tokens::lemma_split_from_without_match(m.added_tokens, seq![], s);
        assert(Seq::<char>::empty() + s == s);
        if s.len() == 0 {
            lemma_empty_text_has_no_words(m, s);
            assert(added_tokens::split(m.added_tokens, s).map_values(f) == Seq::<
                Seq<u32>,
            >::empty());
        } else {
            assert(added_tokens::split(m.added_tokens, s) == seq![
                added_tokens::PieceView::Text(s),
            ]);
            seq![added_tokens::PieceView::Text(s)].lemma_flat_map_singleton(f);
        }
    }
}

/// Empty text gives no ids.
pub proof fn lemma_empty_text_gives_no_ids(m: model::Model)
    ensures
        encode(m, seq![]) == Seq::<u32>::empty(),
{
    let s = Seq::<char>::empty();
    lemma_text_without_added_tokens(m, s);
    lemma_empty_text_has_no_words(m, s);
}

proof fn lemma_words_of_trimmed_start(s: Seq<char>)
    ensures
        pre_tokenizer::words(normalizer::trim_start(s, |c: char| unicode::white_space(c)))
            == pre_tokenizer::words(s),
    decreases s.len(),
{
    if s.len() > 0 && unicode::white_space(s[0]) {
        lemma_words_of_trimmed_start(s.drop_first());
        pre_tokenizer::lemma_leading_white_space(s[0], s.drop_first());
        assert(s == seq![s[0]] + s.drop_first());
    }
}

proof fn lemma_words_of_trimmed_end(s: Seq<char>)
    ensures
        pre_tokenizer::words(normalizer::trim_end(s, |c: char| unicode::white_space(c)))
            == pre_tokenizer::words(s),
    decreases s.len(),
{
    if s.len() > 0 && unicode::white_space(s.last()) {
        lemma_words_of_trimmed_end(s.drop_last());
        pre_tokenizer::lemma_trailing_white_space(s.drop_last(), s.last());
        assert(s == s.drop_last() + seq![s.last()]);
    }
}

/// Trimming makes no difference to the words of a text.
proof fn lemma_words_of_trimmed(s: Seq<char>)
    ensures
        pre_tokenizer::words(normalizer::trim(s)) == pre_tokenizer::words(s),
{
    lemma_words_of_trimmed_start(s);
    lemma_words_of_trimmed_end(normalizer::trim_start(s, |c: char| unicode::white_space(c)));
}

/// In text without added tokens, a space separates: what stands before it and what stands behind it
/// give their ids by themselves.
pub proof fn lemma_space_separates_text(m: model::Model, a: Seq<char>, b: Seq<char>)
    requires
        normalizer::decomposes_at_spaces(m, a + seq![' '] + b),
    ensures
        text_ids(m, a + seq![' '] + b) == text_ids(m, a) + text_ids(m, b),
{
    let g = |w: Seq<char>| subwords::word_ids(m, w);
    let fa = normalizer::folded(m, normalizer::cleaned(m, a));
    let fb = normalizer::folded(m, normalizer::cleaned(m, b));
    normalizer::lemma_folded_at_space(m, a, b);
    lemma_words_of_trimmed(fa + seq![' '] + fb);
    lemma_words_of_trimmed(fa);
    lemma_words_of_trimmed(fb);
    pre_tokenizer::lemma_white_space_separates(fa, ' ', fb);
    normalizer::lemma_flat_map_concat(pre_tokenizer::words(fa), pre_tokenizer::words(fb), g);
}

/// The texts among the pieces are such that decomposing them leaves their spaces where they are.
pub open spec fn pieces_decompose(m: model::Model, pieces: Seq<added_tokens::PieceView>) -> bool {
    forall|j: int|
        0 <= j < pieces.len() ==> match #[trigger] pieces[j] {
            added_tokens::PieceView::Text(t) => normalizer::decomposes_at_spaces(m, t),
            added_tokens::PieceView::Added(_) => true,
        }
}

/// Each space of `s` separates: what stands before it and what stands behind it give their ids by
/// themselves.
pub open spec fn spaces_separate(m: model::Model, s: Seq<char>) -> bool {
    forall|i: int|
        0 <= i < s.len() && #[trigger] s[i] == ' ' ==> encode(m, s) == encode(m, s.take(i))
            + encode(m, s.skip(i + 1))
}

spec fn pieces_ids(m: model::Model, pieces: Seq<added_tokens::PieceView>) -> Seq<u32> {
    pieces.flat_map(|p: added_tokens::PieceView| piece_ids(m, p))
}

proof fn lemma_pieces_ids_concat(
    m: model::Model,
    a: Seq<added_tokens::PieceView>,
    b: Seq<added_tokens::PieceView>,
)
    ensures
        pieces_ids(m, a + b) == pieces_ids(m, a) + pieces_ids(m, b),
{
    normalizer::lemma_flat_map_concat(a, b, |p: added_tokens::PieceView| piece_ids(m, p));
}

proof fn lemma_flushed_ids(m: model::Model, s: Seq<char>)
    ensures
        pieces_ids(m, added_tokens::flush_text(s)) == text_ids(m, s),
{
    let f = |p: added_tokens::PieceView| piece_ids(m, p);
    let pieces = added_tokens::flush_text(s);
    if s.len() == 0 {
        lemma_empty_text_has_no_words(m, s);
        assert(pieces.map_values(f) == Seq::<Seq<u32>>::empty());
    } else {
        pieces.lemma_flat_map_singleton(f);
    }
}

proof fn lemma_pieces_decompose_parts(
    m: model::Model,
    a: Seq<added_tokens::PieceView>,
    b: Seq<added_tokens::PieceView>,
)
    requires
        pieces_decompose(m, a + b),
    ensures
        pieces_decompose(m, a),
        pieces_decompose(m, b),
{
    assert(forall|j: int| 0 <= j < a.len() ==> (a + b)[j] == #[trigger] a[j]);
    assert(forall|j: int| 0 <= j < b.len() ==> (a + b)[a.len() + j] == #[trigger] b[j]);
}

/// `pending`, a space and `later` have been read as text; the rest is still to be split.
proof fn lemma_space_separates_pending(
    m: model::Model,
    pending: Seq<char>,
    later: Seq<char>,
    rest: Seq<char>,
)
    requires
        pieces_decompose(
            m,
            added_tokens::split_from(m.added_tokens, pending + seq![' '] + later, rest),
        ),
    ensures
        pieces_ids(
            m,
            added_tokens::split_from(m.added_tokens, pending + seq![' '] + later, rest),
        ) == text_ids(m, pending) + pieces_ids(
            m,
            added_tokens::split_from(m.added_tokens, later, rest),
        ),
    decreases rest.len(),
{
    let tokens = m.added_tokens;
    let whole = pending + seq![' '] + later;
    let head = added_tokens::flush_text(whole);
    let found = added_tokens::first_match(tokens, rest);
    if rest.len() > 0 && found is None {
        assert(whole.push(rest[0]) == pending + seq![' '] + later.push(rest[0]));
        lemma_space_separates_pending(m, pending, later.push(rest[0]), rest.drop_first());
    } else {
        lemma_flushed_ids(m, whole);
        lemma_flushed_ids(m, later);
        let tail = if rest.len() == 0 {
            Seq::<added_tokens::PieceView>::empty()
        } else {
            added_tokens::lemma_first_match_matches(tokens, rest);
            let token = found->0;
            seq![added_tokens::PieceView::Added(token.1)] + added_tokens::split_from(
                tokens,
                seq![],
                rest.skip(token.0.len() as int),
            )
        };
        let before = added_tokens::flush_text(later);
        assert(added_tokens::split_from(tokens, whole, rest) == head + tail);
        assert(added_tokens::split_from(tokens, later, rest) == before + tail);
        lemma_pieces_decompose_parts(m, head, tail);
        assert(head[0] == added_tokens::PieceView::Text(whole));
        lemma_space_separates_text(m, pending, later);
        lemma_pieces_ids_concat(m, head, tail);
        lemma_pieces_ids_concat(m, before, tail);
    }
}

proof fn lemma_space_separates_from(
    m: model::Model,
    pending: Seq<char>,
    a: Seq<char>,
    b: Seq<char>,
)
    requires
        added_tokens::none_holds(m.added_tokens, ' '),
        pieces_decompose(
            m,
            added_tokens::split_from(m.added_tokens, pending, a + seq![' '] + b),
        ),
    ensures
        pieces_ids(m, added_tokens::split_from(m.added_tokens, pending, a + seq![' '] + b))
            == pieces_ids(m, added_tokens::split_from(m.added_tokens, pending, a)) + pieces_ids(
            m,
            added_tokens::split_from(m.added_tokens, seq![], b),
        ),
    decreases a.len(),
{
    let tokens = m.added_tokens;
    let s = a + seq![' '] + b;
    added_tokens::lemma_first_match_stops(tokens, a, ' ', b);
    added_tokens::lemma_first_match_matches(tokens, a);
    if a.len() == 0 {
        assert(s[0] == ' ');
        assert(s.drop_first() == b);
        assert(pending.push(' ') == pending + seq![' '] + Seq::<char>::empty());
        lemma_space_separates_pending(m, pending, seq![], b);
        lemma_flushed_ids(m, pending);
    } else {
        match added_tokens::first_match(tokens, a) {
            Some(token) => {
                let n = token.0.len() as int;
                let head = added_tokens::flush_text(pending) + seq![
                    added_tokens::PieceView::Added(token.1),
                ];
                assert(s.skip(n) == a.skip(n) + seq![' '] + b);
                let tail = added_tokens::split_from(tokens, seq![], s.skip(n));
                let shorter = added_tokens::split_from(tokens, seq![], a.skip(n));
                assert(added_tokens::split_from(tokens, pending, s) == head + tail);
                assert(added_tokens::split_from(tokens, pending, a) == head + shorter);
                lemma_pieces_decompose_parts(m, head, tail);
                lemma_space_separates_from(m, seq![], a.skip(n), b);
                lemma_pieces_ids_concat(m, head, tail);
                lemma_pieces_ids_concat(m, head, shorter);
            },
            None => {
                assert(s[0] == a[0]);
                assert(s.drop_first() == a.drop_first() + seq![' '] + b);
                lemma_space_separates_from(m, pending.push(a[0]), a.drop_first(), b);
            },
        }
    }
}

/// Where no added token holds a space, a space separates: the ids of `a`, a space and `b` are those
/// of `a` and then those of `b`. Where accents are stripped, this takes that decomposing the texts
/// between added tokens leaves their spaces where they are; `encode_ids` states that of what it
/// encodes.
pub proof fn lemma_space_separates(m: model::Model, a: Seq<char>, b: Seq<char>)
    requires
        added_tokens::none_holds(m.added_tokens, ' '),
        pieces_decompose(m, added_tokens::split(m.added_tokens, a + seq![' '] + b)),
    ensures
        encode(m, a + seq![' '] + b) == encode(m, a) + encode(m, b),
{
    let s = a + seq![' '] + b;
    if m.added_tokens.len() == 0 {
        assert(added_tokens::split(m.added_tokens, s)[0] == added_tokens::PieceView::Text(s));
        lemma_text_without_added_tokens(m, s);
        lemma_text_without_added_tokens(m, a);
        lemma_text_without_added_tokens(m, b);
        lemma_space_separates_text(m, a, b);
    } else {
        lemma_space_separates_from(m, seq![], a, b);
    }
}

/// Where no added token holds a space, every space of a text separates.
pub(crate) proof fn lemma_spaces_separate(m: model::Model, s: Seq<char>)
    requires
        added_tokens::none_holds(m.added_tokens, ' '),
        pieces_decompose(m, added_tokens::split(m.added_tokens, s)),
    ensures
        spaces_separate(m, s),
{
    assert forall|i: int| 0 <= i < s.len() && #[trigger] s[i] == ' ' implies encode(m, s) == encode(
        m,
        s.take(i),
    ) + encode(m, s.skip(i + 1)) by {
        assert(s == s.take(i) + seq![' '] + s.skip(i + 1));
        lemma_space_separates(m, s.take(i), s.skip(i + 1));
    }
}

/// No word is lost, added or moved. Where no part of the text is the content of an added token, its
/// ids are blocks, one for each word of the normalized text and in their order, and each block is
/// what its word gives. A text of one word gives the ids of that word.
pub proof fn lemma_every_word_gives_its_ids(m: model::Model, s: Seq<char>)
    requires
        forall|p: int, q: int, j: int|
            #![trigger s.subrange(p, q), m.added_tokens[j]]
            0 <= p < q <= s.len() && 0 <= j < m.added_tokens.len() ==> s.subrange(p, q)
                != m.added_tokens[j].0,
    ensures
        exists|blocks: Seq<Seq<u32>>|
            ({
                let words = pre_tokenizer::words(normalizer::normal_form(m, s));
                &&& encode(m, s) == #[trigger] blocks.flatten()
                &&& blocks.len() == words.len()
                &&& forall|i: int|
                    0 <= i < words.len() ==> #[trigger] blocks[i] == subwords::word_ids(
                        m,
                        words[i],
                    )
            }),
        forall|w: Seq<char>|
            pre_tokenizer::words(normalizer::normal_form(m, s)) == seq![w] ==> encode(m, s)
                == #[trigger] subwords::word_ids(m, w),
{
    let g = |w: Seq<char>| subwords::word_ids(m, w);
    let words = pre_tokenizer::words(normalizer::normal_form(m, s));
    added_tokens::lemma_no_part_is_a_token(m.added_tokens, s, s.len() as int);
    lemma_text_without_added_tokens(m, s);
    let blocks = words.map_values(g);
    assert(encode(m, s) == blocks.flatten());
    assert forall|w: Seq<char>| words == seq![w] implies encode(m, s)
        == #[trigger] subwords::word_ids(m, w) by {
        seq![w].lemma_flat_map_singleton(g);
    }
}

/// The content of an added token gives the id of that token, wherever it stands and whatever stands
/// around it: the ids are those of the text before the first such place, the id, and the ids of
/// what follows. Where several tokens stand there, it is the first of the list.
pub proof fn lemma_first_token_parts_the_ids(
    m: model::Model,
    before: Seq<char>,
    at: int,
    after: Seq<char>,
)
    requires
        0 <= at < m.added_tokens.len(),
        m.added_tokens[at].0.len() > 0,
        ({
            let rest = m.added_tokens[at].0 + after;
            let s = before + rest;
            &&& forall|p: int, q: int, j: int|
                #![trigger s.subrange(p, q), m.added_tokens[j]]
                0 <= p < before.len() && p < q <= s.len() && 0 <= j < m.added_tokens.len()
                    ==> s.subrange(p, q) != m.added_tokens[j].0
            &&& forall|q: int, j: int|
                #![trigger rest.subrange(0, q), m.added_tokens[j]]
                0 < q <= rest.len() && 0 <= j < at ==> rest.subrange(0, q) != m.added_tokens[j].0
        }),
    ensures
        encode(m, before + (m.added_tokens[at].0 + after)) == encode(m, before) + seq![
            m.added_tokens[at].1,
        ] + encode(m, after),
{
    let tokens = m.added_tokens;
    let token = tokens[at];
    let s = before + (token.0 + after);
    added_tokens::lemma_no_part_is_a_token(tokens, s, before.len() as int);
    added_tokens::lemma_taken(tokens, at, after);
    lemma_added_token_gives_its_id(m, before, token, after);
    assert forall|p: int, j: int|
        #![trigger added_tokens::token_matches(tokens[j], before.skip(p))]
        0 <= p < before.len() && 0 <= j < tokens.len() implies !added_tokens::token_matches(
        tokens[j],
        before.skip(p),
    ) by {
        added_tokens::lemma_stands(tokens[j], before, p);
        added_tokens::lemma_stands(tokens[j], s, p);
        let q = p + tokens[j].0.len();
        if q <= before.len() {
            assert(before.subrange(p, q) == s.subrange(p, q));
        }
        assert(!added_tokens::token_matches(tokens[j], s.skip(p)));
    }
    lemma_text_without_added_tokens(m, before);
}

} // verus!
