//! Splitting a text at its added tokens.
use super::FastWordPiece;
use crate::added_tokens;
use crate::added_tokens::Piece;
use crate::text;
use vstd::prelude::*;

verus! {

impl FastWordPiece {
    /// The first of the added tokens that stands at byte `i` of `s`, which is where character `k`
    /// starts: its place in the list.
    fn find_added(&self, s: &str, i: usize, Ghost(k): Ghost<int>) -> (found: Option<usize>)
        requires
            0 <= k < s@.len(),
            i == text::byte_pos(s@, k),
        ensures
            match found {
                Some(j) => {
                    &&& j < self.added_tokens@.len()
                    &&& added_tokens::first_match(self@.added_tokens, s@.skip(k)) == Some(
                        self@.added_tokens[j as int],
                    )
                    &&& added_tokens::token_matches(self@.added_tokens[j as int], s@.skip(k))
                },
                None => added_tokens::first_match(self@.added_tokens, s@.skip(k)) is None,
            },
    {
        let ghost tokens = self@.added_tokens;
        let ghost rest = s@.skip(k);
        proof {
            use_type_invariant(self);
            assert(tokens.skip(0) == tokens);
        }
        let mut j: usize = 0;
        while j < self.added_tokens.len()
            invariant
                0 <= k < s@.len(),
                i == text::byte_pos(s@, k),
                tokens == self@.added_tokens,
                rest == s@.skip(k),
                j <= self.added_tokens@.len(),
                self.tables_agree(),
                added_tokens::first_match(tokens, rest) == added_tokens::first_match(
                    tokens.skip(j as int),
                    rest,
                ),
            decreases self.added_tokens@.len() - j,
        {
            let yes = text::starts_with_at(s, i, self.added_tokens[j].0.as_str(), Ghost(k));
            proof {
                assert(self.added_tokens@[j as int].0@.len() > 0);
                assert(tokens[j as int] == (self.added_tokens@[j as int].0@, self.added_tokens@[j as int].1));
                assert(tokens.skip(j as int)[0] == tokens[j as int]);
                assert(tokens.skip(j as int).drop_first() == tokens.skip(j + 1));
            }
            if yes {
                return Some(j);
            }
            j = j + 1;
        }
        None
    }

    /// Splits `s` at the literal, case-sensitive occurrences of the added tokens, from left to
    /// right and the longest first, and leaves all else as text.
    pub fn split_added_tokens<'a>(&self, s: &'a str) -> (pieces: Vec<Piece<'a>>)
        ensures
            added_tokens::pieces_view(pieces@) == added_tokens::split(self@.added_tokens, s@),
            added_tokens::is_longest_first(self@.added_tokens),
            pieces@.len() == added_tokens::split(self@.added_tokens, s@).len(),
            forall|i: int|
                0 <= i < pieces@.len() ==> added_tokens::split(self@.added_tokens, s@)[i] == (
                match #[trigger] pieces@[i] {
                    Piece::Added(id) => added_tokens::PieceView::Added(id),
                    Piece::Text(t) => added_tokens::PieceView::Text(t@),
                }),
    {
        proof {
            use_type_invariant(self);
        }
        let ghost tokens = self@.added_tokens;
        let mut pieces: Vec<Piece<'a>> = Vec::new();
        if self.added_tokens.is_empty() {
            pieces.push(Piece::Text(s));
            assert(added_tokens::pieces_view(pieces@) == seq![
                added_tokens::PieceView::Text(s@),
            ]);
            assert(pieces@[0]@ == added_tokens::PieceView::Text(s@));
            return pieces;
        }
        let bytes = s.as_bytes();
        let n: usize = bytes.len();
        let mut start: usize = 0;
        let mut i: usize = 0;
        let ghost mut first: int = 0;
        let ghost mut k: int = 0;
        proof {
            text::lemma_byte_pos_ends(s@);
            assert(s@.skip(0) == s@);
            assert(s@.subrange(0, 0) == Seq::<char>::empty());
            assert(added_tokens::pieces_view(pieces@) == Seq::<
                added_tokens::PieceView,
            >::empty());
        }
        while i < n
            invariant
                bytes@ == vstd::utf8::encode_utf8(s@),
                n == text::byte_len(s@),
                tokens == self@.added_tokens,
                tokens.len() > 0,
                0 <= first <= k <= s@.len(),
                start == text::byte_pos(s@, first),
                i == text::byte_pos(s@, k),
                added_tokens::pieces_view(pieces@) + added_tokens::split_from(
                    tokens,
                    s@.subrange(first, k),
                    s@.skip(k),
                ) == added_tokens::split(tokens, s@),
            decreases n - i,
        {
            let ghost rest = s@.skip(k);
            proof {
                use_type_invariant(self);
                if k == s@.len() {
                    text::lemma_byte_pos_ends(s@);
                }
                text::lemma_first_byte(s@, k);
                text::lemma_byte_pos_step(s@, k);
                text::lemma_byte_pos_order(s@, k + 1, s@.len() as int);
            }
            let found: Option<usize> = if self.added_token_first_bytes[bytes[i] as usize] {
                self.find_added(s, i, Ghost(k))
            } else {
                proof {
                    self.lemma_no_match_by_first_byte(rest);
                    text::lemma_split_bytes(s@, k);
                }
                None
            };
            let ghost before = pieces@;
            match found {
                Some(j) => {
                    let ghost token = tokens[j as int];
                    let ghost pending = s@.subrange(first, k);
                    proof {
                        if first < k {
                            text::lemma_byte_pos_order(s@, first, k);
                        }
                    }
                    if start < i {
                        pieces.push(Piece::Text(text::slice(s, start, i, Ghost(first), Ghost(k))));
                        assert(added_tokens::pieces_view(pieces@) == added_tokens::pieces_view(
                            before,
                        ).push(added_tokens::PieceView::Text(pending)));
                    }
                    assert(added_tokens::pieces_view(pieces@) == added_tokens::pieces_view(before)
                        + added_tokens::flush_text(pending));
                    let ghost middle = pieces@;
                    pieces.push(Piece::Added(self.added_tokens[j].1));
                    assert(added_tokens::pieces_view(pieces@) == added_tokens::pieces_view(
                        middle,
                    ).push(added_tokens::PieceView::Added(token.1)));
                    proof {
                        let next = k + token.0.len();
                        assert(s@.take(next) == s@.take(k) + token.0) by {
                            assert(rest.take(token.0.len() as int) == token.0);
                        }
                        text::lemma_encode_concat(s@.take(k), token.0);
                        text::lemma_byte_pos_order(s@, next, s@.len() as int);
                        text::lemma_byte_pos_order(s@, k, next);
                        assert(rest.skip(token.0.len() as int) == s@.skip(next));
                        assert(s@.subrange(next, next) == Seq::<char>::empty());
                        first = next;
                        k = next;
                    }
                    i = i + text::str_len(self.added_tokens[j].0.as_str());
                    start = i;
                },
                None => {
                    proof {
                        assert(rest[0] == s@[k]);
                        assert(rest.drop_first() == s@.skip(k + 1));
                        assert(s@.subrange(first, k).push(s@[k]) == s@.subrange(first, k + 1));
                    }
                    i = i + text::char_width(text::char_at(s, i, Ghost(k)));
                    proof {
                        k = k + 1;
                    }
                },
            }
        }
        proof {
            if k < s@.len() {
                text::lemma_byte_pos_order(s@, k, s@.len() as int);
            }
            text::lemma_byte_pos_ends(s@);
            text::lemma_byte_pos_order(s@, first, s@.len() as int);
        }
        let ghost before = pieces@;
        if start < n {
            pieces.push(Piece::Text(text::slice(s, start, n, Ghost(first), Ghost(k))));
            assert(added_tokens::pieces_view(pieces@) == added_tokens::pieces_view(before).push(
                added_tokens::PieceView::Text(s@.subrange(first, k)),
            ));
        }
        assert(added_tokens::pieces_view(pieces@) == added_tokens::split(tokens, s@));
        assert forall|i: int| 0 <= i < pieces@.len() implies added_tokens::split(tokens, s@)[i] == (
        match #[trigger] pieces@[i] {
            Piece::Added(id) => added_tokens::PieceView::Added(id),
            Piece::Text(t) => added_tokens::PieceView::Text(t@),
        }) by {
            assert(added_tokens::pieces_view(pieces@)[i] == pieces@[i]@);
        }
        pieces
    }

    /// Where the byte table says no, no added token stands.
    proof fn lemma_no_match_by_first_byte(&self, rest: Seq<char>)
        requires
            self.tables_agree(),
            rest.len() > 0,
            !self.added_token_first_bytes@[vstd::utf8::encode_utf8(rest)[0] as int],
        ensures
            added_tokens::first_match(self@.added_tokens, rest) is None,
    {
        let tokens = self@.added_tokens;
        assert forall|j: int| 0 <= j < tokens.len() implies !added_tokens::token_matches(
            #[trigger] tokens[j],
            rest,
        ) by {
            let content = self.added_tokens@[j].0@;
            assert(tokens[j].0 == content);
            if added_tokens::token_matches(tokens[j], rest) {
                text::lemma_starts_with_bytes(rest, content);
                text::lemma_len_at_most_byte_len(content);
                assert(vstd::utf8::encode_utf8(rest).subrange(
                    0,
                    text::byte_len(content) as int,
                )[0] == vstd::utf8::encode_utf8(content)[0]);
            }
        }
        added_tokens::lemma_first_match_none(tokens, rest);
    }
}

} // verus!
