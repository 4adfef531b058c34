//! Added tokens: literal text that stands for one id, such as `[MASK]`.
use crate::text;
use vstd::prelude::*;

verus! {

/// A part of a text: an added token, known by its id, or text between added tokens.
#[derive(Debug, Clone, Copy)]
pub enum Piece<'a> {
    Added(u32),
    Text(&'a str),
}

/// What a [`Piece`] holds.
pub enum PieceView {
    Added(u32),
    Text(Seq<char>),
}

impl<'a> View for Piece<'a> {
    type V = PieceView;

    open spec fn view(&self) -> PieceView {
        match *self {
            Piece::Added(id) => PieceView::Added(id),
            Piece::Text(t) => PieceView::Text(t@),
        }
    }
}

/// What the pieces of a list hold.
pub open spec fn pieces_view(list: Seq<Piece<'_>>) -> Seq<PieceView> {
    list.map_values(|p: Piece<'_>| p@)
}

/// What a list of added tokens holds: the content and the id of each.
pub open spec fn tokens_view(list: Seq<(String, u32)>) -> Seq<(Seq<char>, u32)> {
    list.map_values(|t: (String, u32)| (t.0@, t.1))
}

// --- Order -------------------------------------------------------------------
/// `sorted` with `token` put behind all tokens that are at least as long in bytes.
pub open spec fn insert_longest_first(
    sorted: Seq<(Seq<char>, u32)>,
    token: (Seq<char>, u32),
) -> Seq<(Seq<char>, u32)>
    decreases sorted.len(),
{
    if sorted.len() == 0 || text::byte_len(sorted.last().0) >= text::byte_len(token.0) {
        sorted.push(token)
    } else {
        insert_longest_first(sorted.drop_last(), token).push(sorted.last())
    }
}

/// The tokens, longest first; tokens of the same length in bytes keep their order.
pub open spec fn longest_first(tokens: Seq<(Seq<char>, u32)>) -> Seq<(Seq<char>, u32)>
    decreases tokens.len(),
{
    if tokens.len() == 0 {
        tokens
    } else {
        insert_longest_first(longest_first(tokens.drop_last()), tokens.last())
    }
}

/// No token is shorter in bytes than one behind it.
pub open spec fn is_longest_first(tokens: Seq<(Seq<char>, u32)>) -> bool {
    forall|i: int, j: int|
        0 <= i <= j < tokens.len() ==> text::byte_len(#[trigger] tokens[i].0) >= text::byte_len(
            #[trigger] tokens[j].0,
        )
}

/// Those of the tokens that take `n` bytes.
pub open spec fn of_byte_len(tokens: Seq<(Seq<char>, u32)>, n: nat) -> Seq<(Seq<char>, u32)> {
    tokens.filter(|t: (Seq<char>, u32)| text::byte_len(t.0) == n)
}

/// Puts a token into a list that is ordered longest first.
pub(crate) fn insert_token(list: &mut Vec<(String, u32)>, content: String, id: u32)
    ensures
        tokens_view(final(list)@) == insert_longest_first(tokens_view(old(list)@), (content@, id)),
{
    let n: usize = text::str_len(content.as_str());
    let mut at: usize = list.len();
    let ghost all = tokens_view(list@);
    let ghost token = (content@, id);
    assert(all.take(at as int) + Seq::<(Seq<char>, u32)>::empty() == all);
    assert(all.skip(at as int) == Seq::<(Seq<char>, u32)>::empty());
    assert(all.take(at as int) == all);
    assert(insert_longest_first(all, token) == insert_longest_first(all.take(at as int), token)
        + all.skip(at as int));
    while at > 0 && text::str_len(list[at - 1].0.as_str()) < n
        invariant
            at <= list@.len(),
            list@ == old(list)@,
            all == tokens_view(list@),
            token == (content@, id),
            n == text::byte_len(content@),
            insert_longest_first(all, token) == insert_longest_first(all.take(at as int), token)
                + all.skip(at as int),
        decreases at,
    {
        proof {
            let head = all.take(at as int);
            assert(head.last() == all[at - 1]);
            assert(head.drop_last() == all.take(at - 1));
            assert(all.skip(at - 1) == seq![all[at - 1]] + all.skip(at as int));
            let smaller = insert_longest_first(all.take(at - 1), token);
            assert(smaller.push(all[at - 1]) + all.skip(at as int) == smaller + all.skip(at - 1));
        }
        at = at - 1;
    }
    proof {
        let head = all.take(at as int);
        if at > 0 {
            assert(head.last() == all[at - 1]);
        }
        assert(insert_longest_first(head, token) == head.push(token));
    }
    list.insert(at, (content, id));
    assert(tokens_view(list@) == all.take(at as int).push(token) + all.skip(at as int));
}

// --- Matching ----------------------------------------------------------------
/// Whether `token` stands at the start of `rest`, character for character.
pub open spec fn token_matches(token: (Seq<char>, u32), rest: Seq<char>) -> bool {
    token.0.len() > 0 && text::starts_with(rest, token.0)
}

/// Whether one of the tokens starts with the byte `b`.
pub open spec fn is_first_byte(tokens: Seq<(Seq<char>, u32)>, b: int) -> bool {
    exists|j: int|
        0 <= j < tokens.len() && vstd::utf8::encode_utf8((#[trigger] tokens[j]).0)[0] == b
}

/// The first of the tokens that stands at the start of `rest`.
pub open spec fn first_match(tokens: Seq<(Seq<char>, u32)>, rest: Seq<char>) -> Option<
    (Seq<char>, u32),
>
    decreases tokens.len(),
{
    if tokens.len() == 0 {
        None
    } else if token_matches(tokens[0], rest) {
        Some(tokens[0])
    } else {
        first_match(tokens.drop_first(), rest)
    }
}

/// The text that ends here, if there is any.
pub open spec fn flush_text(pending: Seq<char>) -> Seq<PieceView> {
    if pending.len() == 0 {
        seq![]
    } else {
        seq![PieceView::Text(pending)]
    }
}

/// The pieces of `rest`, where `pending` is the text read since the last added token.
pub open spec fn split_from(
    tokens: Seq<(Seq<char>, u32)>,
    pending: Seq<char>,
    rest: Seq<char>,
) -> Seq<PieceView>
    decreases rest.len(),
{
    if rest.len() == 0 {
        flush_text(pending)
    } else {
        match first_match(tokens, rest) {
            Some(token) => if 0 < token.0.len() <= rest.len() {
                flush_text(pending) + seq![PieceView::Added(token.1)] + split_from(
                    tokens,
                    seq![],
                    rest.skip(token.0.len() as int),
                )
            } else {
                seq![]
            },
            None => split_from(tokens, pending.push(rest[0]), rest.drop_first()),
        }
    }
}

/// The pieces of `s`: from left to right, wherever one of the tokens stands, the first of them
/// that does is taken; what lies between is text. Without tokens, all of `s` is one text.
pub open spec fn split(tokens: Seq<(Seq<char>, u32)>, s: Seq<char>) -> Seq<PieceView> {
    if tokens.len() == 0 {
        seq![PieceView::Text(s)]
    } else {
        split_from(tokens, seq![], s)
    }
}

// --- Laws --------------------------------------------------------------------
proof fn lemma_insert_keeps_order(sorted: Seq<(Seq<char>, u32)>, token: (Seq<char>, u32), n: nat)
    requires
        is_longest_first(sorted),
    ensures
        is_longest_first(insert_longest_first(sorted, token)),
        sorted.len() > 0 ==> text::byte_len(insert_longest_first(sorted, token).last().0) == if
            text::byte_len(sorted.last().0) >= text::byte_len(token.0) {
            text::byte_len(token.0)
        } else {
            text::byte_len(sorted.last().0)
        },
        insert_longest_first(sorted, token).len() == sorted.len() + 1,
        of_byte_len(insert_longest_first(sorted, token), n) == if text::byte_len(token.0) == n {
            of_byte_len(sorted, n).push(token)
        } else {
            of_byte_len(sorted, n)
        },
    decreases sorted.len(),
{
    let out = insert_longest_first(sorted, token);
    reveal(Seq::filter);
    if sorted.len() == 0 || text::byte_len(sorted.last().0) >= text::byte_len(token.0) {
        assert(out.drop_last() == sorted);
    } else {
        let shorter = insert_longest_first(sorted.drop_last(), token);
        lemma_insert_keeps_order(sorted.drop_last(), token, n);
        assert(out.drop_last() == shorter);
        assert forall|i: int, j: int| 0 <= i <= j < out.len() implies text::byte_len(
            #[trigger] out[i].0,
        ) >= text::byte_len(#[trigger] out[j].0) by {
            if j == out.len() - 1 && i < j {
                assert(text::byte_len(shorter[i].0) >= text::byte_len(
                    shorter[shorter.len() - 1].0,
                ));
            }
        }
    }
}

proof fn lemma_insert_members(sorted: Seq<(Seq<char>, u32)>, token: (Seq<char>, u32))
    ensures
        forall|x: (Seq<char>, u32)| #[trigger]
            insert_longest_first(sorted, token).contains(x) <==> sorted.contains(x) || x == token,
    decreases sorted.len(),
{
    let out = insert_longest_first(sorted, token);
    if sorted.len() == 0 || text::byte_len(sorted.last().0) >= text::byte_len(token.0) {
        assert forall|x: (Seq<char>, u32)| #[trigger] out.contains(x) <==> sorted.contains(x) || x
            == token by {
            if sorted.contains(x) {
                let i = choose|i: int| 0 <= i < sorted.len() && sorted[i] == x;
                assert(out[i] == x);
            }
            assert(out[sorted.len() as int] == token);
        }
    } else {
        let head = sorted.drop_last();
        let shorter = insert_longest_first(head, token);
        lemma_insert_members(head, token);
        assert forall|x: (Seq<char>, u32)| #[trigger] out.contains(x) <==> sorted.contains(x) || x
            == token by {
            if out.contains(x) {
                let i = choose|i: int| 0 <= i < out.len() && out[i] == x;
                if i < shorter.len() {
                    assert(shorter[i] == x);
                    assert(shorter.contains(x));
                    if head.contains(x) {
                        let j = choose|j: int| 0 <= j < head.len() && head[j] == x;
                        assert(sorted[j] == x);
                    }
                } else {
                    assert(sorted[sorted.len() - 1] == x);
                }
            }
            if sorted.contains(x) || x == token {
                if x == token {
                    assert(shorter.contains(x));
                } else {
                    let j = choose|j: int| 0 <= j < sorted.len() && sorted[j] == x;
                    if j < head.len() {
                        assert(head[j] == x);
                        assert(shorter.contains(x));
                    } else {
                        assert(out[shorter.len() as int] == x);
                    }
                }
                if shorter.contains(x) {
                    let i = choose|i: int| 0 <= i < shorter.len() && shorter[i] == x;
                    assert(out[i] == x);
                }
            }
        }
    }
}

/// Ordering neither adds a token nor loses one.
pub(crate) proof fn lemma_longest_first_members(tokens: Seq<(Seq<char>, u32)>)
    ensures
        forall|x: (Seq<char>, u32)| #[trigger]
            longest_first(tokens).contains(x) <==> tokens.contains(x),
    decreases tokens.len(),
{
    if tokens.len() > 0 {
        let head = tokens.drop_last();
        lemma_longest_first_members(head);
        lemma_insert_members(longest_first(head), tokens.last());
        assert forall|x: (Seq<char>, u32)| #[trigger]
            longest_first(tokens).contains(x) <==> tokens.contains(x) by {
            if tokens.contains(x) {
                let i = choose|i: int| 0 <= i < tokens.len() && tokens[i] == x;
                if i < head.len() {
                    assert(head[i] == x);
                }
            }
            if head.contains(x) {
                let i = choose|i: int| 0 <= i < head.len() && head[i] == x;
                assert(tokens[i] == x);
            }
            assert(tokens[tokens.len() - 1] == tokens.last());
        }
    }
}

/// The order of the added tokens is that of a stable sort: none is shorter than one behind it,
/// and the tokens of each length are those that were given, in the order that they were given in.
pub proof fn lemma_longest_first_is_stable_sort(tokens: Seq<(Seq<char>, u32)>)
    ensures
        is_longest_first(longest_first(tokens)),
        longest_first(tokens).len() == tokens.len(),
        forall|n: nat| #[trigger]
            of_byte_len(longest_first(tokens), n) == of_byte_len(tokens, n),
    decreases tokens.len(),
{
    if tokens.len() > 0 {
        lemma_longest_first_is_stable_sort(tokens.drop_last());
        lemma_insert_keeps_order(longest_first(tokens.drop_last()), tokens.last(), 0);
    }
    assert forall|n: nat| #[trigger]
        of_byte_len(longest_first(tokens), n) == of_byte_len(tokens, n) by {
        reveal(Seq::filter);
        if tokens.len() > 0 {
            lemma_insert_keeps_order(longest_first(tokens.drop_last()), tokens.last(), n);
        }
    }
}

/// What is taken stands at the start of the text, and no token before it in the list does; `at` is
/// its place there. If nothing is taken, no token stands there.
pub(crate) proof fn lemma_first_match_matches(tokens: Seq<(Seq<char>, u32)>, rest: Seq<char>) -> (at:
    int)
    ensures
        match first_match(tokens, rest) {
            Some(token) => {
                &&& tokens.contains(token)
                &&& token_matches(token, rest)
                &&& 0 <= at < tokens.len()
                &&& tokens[at] == token
                &&& forall|j: int| 0 <= j < at ==> !token_matches(#[trigger] tokens[j], rest)
            },
            None => forall|j: int|
                0 <= j < tokens.len() ==> !token_matches(#[trigger] tokens[j], rest),
        },
    decreases tokens.len(),
{
    if tokens.len() == 0 {
        0
    } else if token_matches(tokens[0], rest) {
        assert(tokens.contains(tokens[0]));
        0
    } else {
        let tail = tokens.drop_first();
        let later = lemma_first_match_matches(tail, rest);
        assert forall|j: int| 0 <= j < tokens.len() && j > 0 implies #[trigger] tokens[j]
            == tail[j - 1] by {}
        if first_match(tail, rest) is Some {
            assert(tokens[later + 1] == tail[later]);
        }
        later + 1
    }
}

/// Where tokens stand longest first, the token that is taken is the longest of those that stand
/// at the start of the text: a shorter one cannot shadow it. If none is taken, none stands there.
pub proof fn lemma_first_match_is_longest(tokens: Seq<(Seq<char>, u32)>, rest: Seq<char>)
    requires
        is_longest_first(tokens),
    ensures
        match first_match(tokens, rest) {
            Some(token) => {
                &&& tokens.contains(token)
                &&& token_matches(token, rest)
                &&& forall|j: int|
                    0 <= j < tokens.len() && token_matches(#[trigger] tokens[j], rest)
                        ==> tokens[j].0.len() <= token.0.len()
            },
            None => forall|j: int|
                0 <= j < tokens.len() ==> !token_matches(#[trigger] tokens[j], rest),
        },
{
    let at = lemma_first_match_matches(tokens, rest);
    if let Some(token) = first_match(tokens, rest) {
        assert forall|j: int|
            0 <= j < tokens.len() && token_matches(
                #[trigger] tokens[j],
                rest,
            ) implies tokens[j].0.len() <= token.0.len() by {
            assert(text::byte_len(tokens[at].0) >= text::byte_len(tokens[j].0));
            if tokens[j].0.len() > token.0.len() {
                text::lemma_byte_pos_order(rest, token.0.len() as int, tokens[j].0.len() as int);
            }
        }
    }
}

pub(crate) proof fn lemma_first_match_none(tokens: Seq<(Seq<char>, u32)>, rest: Seq<char>)
    requires
        forall|j: int| 0 <= j < tokens.len() ==> !token_matches(#[trigger] tokens[j], rest),
    ensures
        first_match(tokens, rest) is None,
{
    lemma_first_match_matches(tokens, rest);
    if let Some(token) = first_match(tokens, rest) {
        let at = choose|at: int| 0 <= at < tokens.len() && tokens[at] == token;
        assert(token_matches(tokens[at], rest));
    }
}

/// None of the tokens stands at one of the places `from` to `to` of `s`; one that does may run past
/// `to`.
pub open spec fn none_between(
    tokens: Seq<(Seq<char>, u32)>,
    s: Seq<char>,
    from: int,
    to: int,
) -> bool {
    forall|p: int, j: int|
        #![trigger token_matches(tokens[j], s.skip(p))]
        from <= p < to && 0 <= j < tokens.len() ==> !token_matches(tokens[j], s.skip(p))
}

/// None of the tokens stands anywhere in `s`.
pub open spec fn holds_none(tokens: Seq<(Seq<char>, u32)>, s: Seq<char>) -> bool {
    none_between(tokens, s, 0, s.len() as int)
}

/// `contents` is the text that the pieces stand for, piece by piece.
pub open spec fn spells(
    tokens: Seq<(Seq<char>, u32)>,
    pieces: Seq<PieceView>,
    contents: Seq<Seq<char>>,
) -> bool {
    &&& contents.len() == pieces.len()
    &&& forall|i: int|
        0 <= i < pieces.len() ==> match #[trigger] pieces[i] {
            PieceView::Added(id) => tokens.contains((contents[i], id)),
            PieceView::Text(t) => contents[i] == t,
        }
}

/// The place at which piece `i` starts.
pub open spec fn place_of(contents: Seq<Seq<char>>, i: int) -> int {
    contents.take(i).flatten().len() as int
}

/// No text piece is empty, and none of the tokens stands at a place of `s` that one covers.
pub open spec fn texts_are_clear(
    tokens: Seq<(Seq<char>, u32)>,
    s: Seq<char>,
    pieces: Seq<PieceView>,
    contents: Seq<Seq<char>>,
) -> bool {
    forall|i: int|
        0 <= i < pieces.len() ==> match #[trigger] pieces[i] {
            PieceView::Added(_) => true,
            PieceView::Text(t) => t.len() > 0 && none_between(
                tokens,
                s,
                place_of(contents, i),
                place_of(contents, i) + t.len(),
            ),
        }
}

/// The contents up to piece `i`, piece `i` and the contents behind it make up the text.
proof fn lemma_place_of(contents: Seq<Seq<char>>, i: int)
    requires
        0 <= i < contents.len(),
    ensures
        place_of(contents, i) + contents[i].len() <= contents.flatten().len(),
        contents.flatten().subrange(
            place_of(contents, i),
            place_of(contents, i) + contents[i].len(),
        ) == contents[i],
{
    let head = contents.take(i);
    let tail = contents.skip(i + 1);
    assert(contents == head.push(contents[i]) + tail);
    head.lemma_flatten_push(contents[i]);
    vstd::seq_lib::lemma_flatten_concat(head.push(contents[i]), tail);
}

proof fn lemma_split_from_spells(
    tokens: Seq<(Seq<char>, u32)>,
    pending: Seq<char>,
    rest: Seq<char>,
) -> (contents: Seq<Seq<char>>)
    requires
        none_between(tokens, pending + rest, 0, pending.len() as int),
    ensures
        spells(tokens, split_from(tokens, pending, rest), contents),
        contents.flatten() == pending + rest,
        texts_are_clear(tokens, pending + rest, split_from(tokens, pending, rest), contents),
    decreases rest.len(),
{
    let head: Seq<Seq<char>> = if pending.len() == 0 {
        seq![]
    } else {
        seq![pending]
    };
    assert(head.flatten() == pending) by {
        if pending.len() == 0 {
            assert(pending == Seq::<char>::empty());
        } else {
            head.lemma_flatten_singleton();
        }
    }
    let s = pending + rest;
    let pieces = split_from(tokens, pending, rest);
    if rest.len() == 0 {
        assert(s == pending);
        assert(head.take(0).flatten() == Seq::<char>::empty());
        head
    } else {
        lemma_first_match_matches(tokens, rest);
        match first_match(tokens, rest) {
            Some(token) => {
                let after = rest.skip(token.0.len() as int);
                assert(Seq::<char>::empty() + after == after);
                let tail = lemma_split_from_spells(tokens, seq![], after);
                let front = head.push(token.0);
                let contents = front + tail;
                head.lemma_flatten_push(token.0);
                vstd::seq_lib::lemma_flatten_concat(front, tail);
                assert(rest == token.0 + after);
                assert(s == pending + token.0 + after);
                let later = split_from(tokens, seq![], after);
                let n = front.len() as int;
                let width = front.flatten().len() as int;
                assert forall|i: int| 0 <= i < pieces.len() implies match #[trigger] pieces[i] {
                    PieceView::Added(id) => tokens.contains((contents[i], id)),
                    PieceView::Text(t) => contents[i] == t,
                } by {
                    if i >= n {
                        assert(pieces[i] == later[i - n]);
                        assert(contents[i] == tail[i - n]);
                    } else if i == n - 1 {
                        assert(pieces[i] == PieceView::Added(token.1));
                        assert(contents[i] == token.0);
                    }
                }
                assert forall|i: int| 0 <= i < pieces.len() implies match #[trigger] pieces[i] {
                    PieceView::Added(_) => true,
                    PieceView::Text(t) => t.len() > 0 && none_between(
                        tokens,
                        s,
                        place_of(contents, i),
                        place_of(contents, i) + t.len(),
                    ),
                } by {
                    if i >= n {
                        assert(pieces[i] == later[i - n]);
                        assert(contents.take(i) == front + tail.take(i - n));
                        vstd::seq_lib::lemma_flatten_concat(front, tail.take(i - n));
                        assert(place_of(contents, i) == width + place_of(tail, i - n));
                        if let PieceView::Text(t) = pieces[i] {
                            let from = place_of(contents, i);
                            lemma_place_of(tail, i - n);
                            assert forall|p: int, j: int|
                                #![trigger token_matches(tokens[j], s.skip(p))]
                                from <= p < from + t.len() && 0 <= j
                                    < tokens.len() implies !token_matches(
                                tokens[j],
                                s.skip(p),
                            ) by {
                                assert(s.skip(p) == after.skip(p - width));
                                assert(!token_matches(tokens[j], after.skip(p - width)));
                            }
                        }
                    } else if i == n - 1 {
                        assert(pieces[i] == PieceView::Added(token.1));
                    } else {
                        assert(pieces[i] == PieceView::Text(pending));
                        assert(contents.take(0).flatten() == Seq::<char>::empty());
                    }
                }
                contents
            },
            None => {
                let more = pending.push(rest[0]);
                assert(more + rest.drop_first() == s);
                assert forall|p: int, j: int|
                    #![trigger token_matches(tokens[j], s.skip(p))]
                    0 <= p < more.len() && 0 <= j < tokens.len() implies !token_matches(
                    tokens[j],
                    s.skip(p),
                ) by {
                    if p == pending.len() {
                        assert(s.skip(p) == rest);
                    }
                }
                lemma_split_from_spells(tokens, more, rest.drop_first())
            },
        }
    }
}

/// Splitting loses nothing: the pieces, each text as it is and each id as the content of an added
/// token of that id, spell the text.
pub proof fn lemma_split_keeps_text(tokens: Seq<(Seq<char>, u32)>, s: Seq<char>)
    ensures
        exists|contents: Seq<Seq<char>>| #[trigger]
            spells(tokens, split(tokens, s), contents) && contents.flatten() == s,
{
    if tokens.len() == 0 {
        let contents = seq![s];
        contents.lemma_flatten_singleton();
        assert(spells(tokens, split(tokens, s), contents));
    } else {
        assert(Seq::<char>::empty() + s == s);
        let contents = lemma_split_from_spells(tokens, seq![], s);
        assert(spells(tokens, split(tokens, s), contents));
    }
}

/// An added token is never left in the text for the normalizer. Where the pieces spell the text, no
/// text piece is empty, and at no place that one covers does one of the tokens stand, not even one
/// that would run past the end of the piece; so none stands in the piece by itself either.
pub proof fn lemma_text_holds_no_added_token(tokens: Seq<(Seq<char>, u32)>, s: Seq<char>)
    requires
        tokens.len() > 0 || s.len() > 0,
    ensures
        exists|contents: Seq<Seq<char>>| #[trigger]
            spells(tokens, split(tokens, s), contents) && contents.flatten() == s
                && texts_are_clear(tokens, s, split(tokens, s), contents),
        forall|i: int|
            0 <= i < split(tokens, s).len() ==> match #[trigger] split(tokens, s)[i] {
                PieceView::Text(t) => t.len() > 0 && holds_none(tokens, t),
                _ => true,
            },
{
    let pieces = split(tokens, s);
    if tokens.len() == 0 {
        let contents = seq![s];
        contents.lemma_flatten_singleton();
        assert(spells(tokens, pieces, contents));
    } else {
        assert(Seq::<char>::empty() + s == s);
        let contents = lemma_split_from_spells(tokens, seq![], s);
        assert(spells(tokens, pieces, contents));
        assert forall|i: int| 0 <= i < pieces.len() implies match #[trigger] pieces[i] {
            PieceView::Text(t) => t.len() > 0 && holds_none(tokens, t),
            _ => true,
        } by {
            if let PieceView::Text(t) = pieces[i] {
                lemma_place_of(contents, i);
                let from = place_of(contents, i);
                assert forall|p: int, j: int|
                    #![trigger token_matches(tokens[j], t.skip(p))]
                    0 <= p < t.len() && 0 <= j < tokens.len() implies !token_matches(
                    tokens[j],
                    t.skip(p),
                ) by {
                    if token_matches(tokens[j], t.skip(p)) {
                        let n = tokens[j].0.len() as int;
                        assert forall|d: int| 0 <= d < n implies s.skip(from + p).take(n)[d]
                            == t.skip(p).take(n)[d] by {
                            assert(s.subrange(from, from + t.len())[p + d] == t[p + d]);
                        }
                        assert(s.skip(from + p).take(n) =~= t.skip(p).take(n));
                        assert(token_matches(tokens[j], s.skip(from + p)));
                    }
                }
            }
        }
    }
}

/// Characters at which no token stands go to the text that is being read.
pub(crate) proof fn lemma_split_from_skips(
    tokens: Seq<(Seq<char>, u32)>,
    pending: Seq<char>,
    a: Seq<char>,
    rest: Seq<char>,
)
    requires
        none_between(tokens, a + rest, 0, a.len() as int),
    ensures
        split_from(tokens, pending, a + rest) == split_from(tokens, pending + a, rest),
    decreases a.len(),
{
    if a.len() == 0 {
        assert(a + rest == rest);
        assert(pending + a == pending);
    } else {
        let s = a + rest;
        let tail = a.drop_first();
        assert forall|j: int| 0 <= j < tokens.len() implies !token_matches(
            #[trigger] tokens[j],
            s,
        ) by {
            assert(s.skip(0) == s);
            assert(!token_matches(tokens[j], s.skip(0)));
        }
        lemma_first_match_none(tokens, s);
        assert(s.drop_first() == tail + rest);
        assert forall|p: int, j: int|
            #![trigger token_matches(tokens[j], (tail + rest).skip(p))]
            0 <= p < tail.len() && 0 <= j < tokens.len() implies !token_matches(
            tokens[j],
            (tail + rest).skip(p),
        ) by {
            assert((tail + rest).skip(p) == s.skip(p + 1));
            assert(!token_matches(tokens[j], s.skip(p + 1)));
        }
        lemma_split_from_skips(tokens, pending.push(a[0]), tail, rest);
        assert(pending.push(a[0]) + tail == pending + a);
    }
}

/// None of the tokens holds the character `c`.
pub open spec fn none_holds(tokens: Seq<(Seq<char>, u32)>, c: char) -> bool {
    forall|j: int| 0 <= j < tokens.len() ==> !(#[trigger] tokens[j]).0.contains(c)
}

/// A character that no token holds ends the search for one: what stands from there on makes no
/// difference.
pub(crate) proof fn lemma_first_match_stops(
    tokens: Seq<(Seq<char>, u32)>,
    a: Seq<char>,
    c: char,
    b: Seq<char>,
)
    requires
        none_holds(tokens, c),
    ensures
        first_match(tokens, a + seq![c] + b) == first_match(tokens, a),
    decreases tokens.len(),
{
    if tokens.len() > 0 {
        let s = a + seq![c] + b;
        let content = tokens[0].0;
        if token_matches(tokens[0], s) {
            assert(s[a.len() as int] == c);
            if content.len() > a.len() {
                assert(s.take(content.len() as int)[a.len() as int] == c);
                assert(content.contains(c));
            }
            assert(a.take(content.len() as int) == s.take(content.len() as int));
        }
        if token_matches(tokens[0], a) {
            assert(a.take(content.len() as int) == s.take(content.len() as int));
        }
        let tail = tokens.drop_first();
        assert forall|j: int| 0 <= j < tail.len() implies !(#[trigger] tail[j]).0.contains(c) by {
            assert(!tokens[j + 1].0.contains(c));
        }
        lemma_first_match_stops(tail, a, c, b);
    }
}

pub(crate) proof fn lemma_split_from_without_match(
    tokens: Seq<(Seq<char>, u32)>,
    pending: Seq<char>,
    rest: Seq<char>,
)
    requires
        holds_none(tokens, rest),
    ensures
        split_from(tokens, pending, rest) == flush_text(pending + rest),
    decreases rest.len(),
{
    if rest.len() == 0 {
        assert(pending + rest == pending);
    } else {
        assert forall|j: int| 0 <= j < tokens.len() implies !token_matches(
            #[trigger] tokens[j],
            rest,
        ) by {
            assert(rest.skip(0) == rest);
            assert(!token_matches(tokens[j], rest.skip(0)));
        }
        lemma_first_match_none(tokens, rest);
        let tail = rest.drop_first();
        assert forall|p: int, j: int|
            #![trigger token_matches(tokens[j], tail.skip(p))]
            0 <= p < tail.len() && 0 <= j < tokens.len() implies !token_matches(
            tokens[j],
            tail.skip(p),
        ) by {
            assert(tail.skip(p) == rest.skip(p + 1));
            assert(!token_matches(tokens[j], rest.skip(p + 1)));
        }
        lemma_split_from_without_match(tokens, pending.push(rest[0]), tail);
        assert(pending.push(rest[0]) + tail == pending + rest);
    }
}

/// A token stands at place `p` exactly if its content is the part of the text that starts there.
pub(crate) proof fn lemma_stands(token: (Seq<char>, u32), s: Seq<char>, p: int)
    requires
        0 <= p <= s.len(),
    ensures
        token_matches(token, s.skip(p)) <==> token.0.len() > 0 && p + token.0.len() <= s.len()
            && s.subrange(p, p + token.0.len()) == token.0,
{
    let n = token.0.len() as int;
    if p + n <= s.len() {
        assert(s.skip(p).take(n) == s.subrange(p, p + n));
    }
}

/// Where no part that starts at one of the first `n` places of `s` is the content of a token, no
/// token stands at one of them.
pub(crate) proof fn lemma_no_part_is_a_token(tokens: Seq<(Seq<char>, u32)>, s: Seq<char>, n: int)
    requires
        n <= s.len(),
        forall|p: int, q: int, j: int|
            #![trigger s.subrange(p, q), tokens[j]]
            0 <= p < n && p < q <= s.len() && 0 <= j < tokens.len() ==> s.subrange(p, q)
                != tokens[j].0,
    ensures
        none_between(tokens, s, 0, n),
{
    assert forall|p: int, j: int|
        #![trigger token_matches(tokens[j], s.skip(p))]
        0 <= p < n && 0 <= j < tokens.len() implies !token_matches(tokens[j], s.skip(p)) by {
        lemma_stands(tokens[j], s, p);
        assert(token_matches(tokens[j], s.skip(p)) ==> s.subrange(p, p + tokens[j].0.len())
            != tokens[j].0);
    }
}

/// The token at `at` is taken where its content is how the text starts and no earlier token's
/// content is.
pub(crate) proof fn lemma_taken(tokens: Seq<(Seq<char>, u32)>, at: int, after: Seq<char>)
    requires
        0 <= at < tokens.len(),
        tokens[at].0.len() > 0,
        forall|q: int, j: int|
            #![trigger (tokens[at].0 + after).subrange(0, q), tokens[j]]
            0 < q <= tokens[at].0.len() + after.len() && 0 <= j < at ==> (tokens[at].0
                + after).subrange(0, q) != tokens[j].0,
    ensures
        first_match(tokens, tokens[at].0 + after) == Some(tokens[at]),
{
    let s = tokens[at].0 + after;
    assert(s.skip(0) == s);
    lemma_stands(tokens[at], s, 0);
    assert(s.subrange(0, tokens[at].0.len() as int) == tokens[at].0);
    let found = lemma_first_match_matches(tokens, s);
    assert(first_match(tokens, s) is Some) by {
        assert(token_matches(tokens[at], s));
    }
    if found < at {
        lemma_stands(tokens[found], s, 0);
        let n = tokens[found].0.len() as int;
        assert(s.subrange(0, n) == tokens[found].0);
        assert(false);
    }
    assert(!(at < found));
}

/// Text no part of which is the content of an added token is one piece, unchanged.
pub proof fn lemma_text_without_tokens_is_one_piece(tokens: Seq<(Seq<char>, u32)>, s: Seq<char>)
    requires
        forall|p: int, q: int, j: int|
            #![trigger s.subrange(p, q), tokens[j]]
            0 <= p < q <= s.len() && 0 <= j < tokens.len() ==> s.subrange(p, q) != tokens[j].0,
    ensures
        s.len() > 0 || tokens.len() == 0 ==> split(tokens, s) == seq![PieceView::Text(s)],
        s.len() == 0 && tokens.len() > 0 ==> split(tokens, s) == Seq::<PieceView>::empty(),
{
    if tokens.len() > 0 {
        lemma_no_part_is_a_token(tokens, s, s.len() as int);
        lemma_split_from_without_match(tokens, seq![], s);
        assert(Seq::<char>::empty() + s == s);
    }
}

/// The first place at which the content of an added token stands is where the text is cut, however
/// long that content is: the pieces are the text before it, if there is any, the token, and the
/// pieces of what follows. Where several tokens stand there, it is the first of the list.
pub proof fn lemma_split_at_first_token(
    tokens: Seq<(Seq<char>, u32)>,
    before: Seq<char>,
    at: int,
    after: Seq<char>,
)
    requires
        0 <= at < tokens.len(),
        tokens[at].0.len() > 0,
        ({
            let s = before + (tokens[at].0 + after);
            &&& forall|p: int, q: int, j: int|
                #![trigger s.subrange(p, q), tokens[j]]
                0 <= p < before.len() && p < q <= s.len() && 0 <= j < tokens.len() ==> s.subrange(
                    p,
                    q,
                ) != tokens[j].0
            &&& forall|q: int, j: int|
                #![trigger (tokens[at].0 + after).subrange(0, q), tokens[j]]
                0 < q <= tokens[at].0.len() + after.len() && 0 <= j < at ==> (tokens[at].0
                    + after).subrange(0, q) != tokens[j].0
        }),
    ensures
        split(tokens, before + (tokens[at].0 + after)) == (if before.len() > 0 {
            seq![PieceView::Text(before)]
        } else {
            Seq::<PieceView>::empty()
        }) + seq![PieceView::Added(tokens[at].1)] + split(tokens, after),
{
    let rest = tokens[at].0 + after;
    let s = before + rest;
    lemma_no_part_is_a_token(tokens, s, before.len() as int);
    lemma_taken(tokens, at, after);
    lemma_split_from_skips(tokens, seq![], before, rest);
    assert(Seq::<char>::empty() + before == before);
    assert(rest.skip(tokens[at].0.len() as int) == after);
}

/// The content of an added token is that token and nothing else, where no earlier token of the list
/// starts it.
pub proof fn lemma_content_is_its_token(tokens: Seq<(Seq<char>, u32)>, at: int)
    requires
        0 <= at < tokens.len(),
        tokens[at].0.len() > 0,
        forall|q: int, j: int|
            #![trigger tokens[at].0.subrange(0, q), tokens[j]]
            0 < q <= tokens[at].0.len() && 0 <= j < at ==> tokens[at].0.subrange(0, q)
                != tokens[j].0,
    ensures
        split(tokens, tokens[at].0) == seq![PieceView::Added(tokens[at].1)],
{
    let t = tokens[at].0;
    let none = Seq::<char>::empty();
    assert(t + none == t);
    assert(none + (t + none) == t);
    lemma_split_at_first_token(tokens, none, at, none);
    lemma_text_without_tokens_is_one_piece(tokens, none);
}

/// No text piece covers a place at which the content of an added token starts, even one whose end
/// lies behind the piece. The pieces spell the text: each text as it is, and each id as the content
/// of a token with that id.
pub proof fn lemma_no_text_covers_a_token(tokens: Seq<(Seq<char>, u32)>, s: Seq<char>)
    requires
        tokens.len() > 0 || s.len() > 0,
    ensures
        exists|contents: Seq<Seq<char>>|
            ({
                let pieces = split(tokens, s);
                &&& #[trigger] contents.flatten() == s
                &&& contents.len() == pieces.len()
                &&& forall|i: int|
                    0 <= i < pieces.len() ==> match #[trigger] pieces[i] {
                        PieceView::Added(id) => tokens.contains((contents[i], id)),
                        PieceView::Text(t) => contents[i] == t && t.len() > 0,
                    }
                &&& forall|i: int, p: int, q: int, j: int|
                    #![trigger pieces[i], s.subrange(p, q), tokens[j]]
                    0 <= i < pieces.len() && pieces[i] is Text && contents.take(i).flatten().len()
                        <= p < contents.take(i).flatten().len() + contents[i].len() && p < q
                        <= s.len() && 0 <= j < tokens.len() ==> s.subrange(p, q) != tokens[j].0
            }),
{
    lemma_text_holds_no_added_token(tokens, s);
    let pieces = split(tokens, s);
    let contents = choose|contents: Seq<Seq<char>>| #[trigger]
        spells(tokens, pieces, contents) && contents.flatten() == s && texts_are_clear(
            tokens,
            s,
            pieces,
            contents,
        );
    assert(contents.flatten() == s);
    assert forall|i: int, p: int, q: int, j: int|
        #![trigger pieces[i], s.subrange(p, q), tokens[j]]
        0 <= i < pieces.len() && pieces[i] is Text && contents.take(i).flatten().len() <= p
            < contents.take(i).flatten().len() + contents[i].len() && p < q <= s.len() && 0 <= j
            < tokens.len() implies s.subrange(p, q) != tokens[j].0 by {
        lemma_stands(tokens[j], s, p);
        let from = place_of(contents, i);
        assert(none_between(tokens, s, from, from + contents[i].len()));
        if s.subrange(p, q) == tokens[j].0 {
            assert(tokens[j].0.len() == q - p);
            assert(token_matches(tokens[j], s.skip(p)));
        }
    }
}

/// Added tokens are ordered by the length of their UTF-8 form, the longest first, and those of each
/// length are the ones that were given, in the order in which they were given.
pub proof fn lemma_order_of_added_tokens(tokens: Seq<(Seq<char>, u32)>, n: nat)
    ensures
        longest_first(tokens).len() == tokens.len(),
        forall|i: int, j: int|
            0 <= i <= j < tokens.len() ==> vstd::utf8::encode_utf8(
                (#[trigger] longest_first(tokens)[i]).0,
            ).len() >= vstd::utf8::encode_utf8((#[trigger] longest_first(tokens)[j]).0).len(),
        longest_first(tokens).filter(
            |t: (Seq<char>, u32)| vstd::utf8::encode_utf8(t.0).len() == n,
        ) == tokens.filter(|t: (Seq<char>, u32)| vstd::utf8::encode_utf8(t.0).len() == n),
{
    lemma_longest_first_is_stable_sort(tokens);
    let sorted = longest_first(tokens);
    assert forall|i: int, j: int| 0 <= i <= j < tokens.len() implies vstd::utf8::encode_utf8(
        (#[trigger] sorted[i]).0,
    ).len() >= vstd::utf8::encode_utf8((#[trigger] sorted[j]).0).len() by {
        assert(text::byte_len(sorted[i].0) >= text::byte_len(sorted[j].0));
    }
    let a = |t: (Seq<char>, u32)| vstd::utf8::encode_utf8(t.0).len() == n;
    let b = |t: (Seq<char>, u32)| text::byte_len(t.0) == n;
    assert(a =~= b);
    assert(of_byte_len(sorted, n) == of_byte_len(tokens, n));
}

} // verus!
