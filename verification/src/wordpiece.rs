//! The tokenizer.
use crate::added_tokens;
use crate::added_tokens::Piece;
use crate::encoding;
use crate::model;
use crate::pre_tokenizer;
use crate::subwords;
use crate::text;
use vstd::prelude::*;

mod load;
mod normalize;
mod split;

verus! {

/// IDs-only WordPiece tokenizer for the BERT pipeline.
pub struct FastWordPiece {
    vocab: vstd::hash_map::StringHashMap<u32>,
    /// Ids of the single-ASCII-character tokens, so that isolated punctuation words skip the map
    /// lookup.
    single_byte: [Option<u32>; 128],
    unk_id: Option<u32>,
    max_input_chars_per_word: usize,
    continuing_subword_prefix: String,
    // Settings of the normalizer
    clean_text: bool,
    handle_chinese_chars: bool,
    strip_accents: bool,
    lowercase: bool,
    /// Content and id of the added tokens, longest content first.
    added_tokens: Vec<(String, u32)>,
    /// The bytes that added tokens start with, so that other places of a text skip the search.
    added_token_first_bytes: [bool; 256],
}

impl View for FastWordPiece {
    type V = model::Model;

    closed spec fn view(&self) -> model::Model {
        model::Model {
            vocab: self.vocab@,
            unk_id: self.unk_id,
            max_input_chars_per_word: self.max_input_chars_per_word,
            continuing_subword_prefix: self.continuing_subword_prefix@,
            clean_text: self.clean_text,
            handle_chinese_chars: self.handle_chinese_chars,
            strip_accents: self.strip_accents,
            lowercase: self.lowercase,
            added_tokens: added_tokens::tokens_view(self.added_tokens@),
        }
    }
}

impl FastWordPiece {
    /// The table of the ids of single-ASCII-character tokens.
    pub closed spec fn single_byte_ids(&self) -> Seq<Option<u32>> {
        self.single_byte@
    }

    /// The table of the bytes that added tokens start with.
    pub closed spec fn first_byte_marks(&self) -> Seq<bool> {
        self.added_token_first_bytes@
    }

    /// The two tables hold just what the vocabulary and the added tokens say: the id of each
    /// single-ASCII-character token that there is, and a mark for each byte that an added token
    /// starts with.
    pub open spec fn tables_hold(&self) -> bool {
        &&& self.single_byte_ids().len() == 128
        &&& forall|b: int|
            0 <= b < 128 ==> #[trigger] self.single_byte_ids()[b] == model::lookup(
                self@.vocab,
                seq![b as char],
            )
        &&& self.first_byte_marks().len() == 256
        &&& forall|b: int|
            0 <= b < 256 ==> (#[trigger] self.first_byte_marks()[b] <==> added_tokens::is_first_byte(
                self@.added_tokens,
                b,
            ))
    }

    /// The added tokens are ordered and not empty, and the tables agree with the rest.
    #[verifier::type_invariant]
    spec fn tables_agree(&self) -> bool {
        &&& added_tokens::is_longest_first(self@.added_tokens)
        &&& forall|j: int|
            0 <= j < self@.added_tokens.len() ==> (#[trigger] self@.added_tokens[j]).0.len() > 0
        &&& self.tables_hold()
    }

    /// Appends the id of the unknown token, if there is one.
    pub fn push_unk(&self, out: &mut Vec<u32>)
        ensures
            final(out)@ == old(out)@ + subwords::unknown(self@),
    {
        if let Some(u) = self.unk_id {
            out.push(u);
        }
    }

    /// The longest token that starts at byte `start` of `word`, which is where character `k`
    /// starts: its id and the byte at which it ends.
    fn longest_token(&self, word: &str, start: usize, scratch: &mut String, Ghost(k): Ghost<int>)
        -> (found: Option<(u32, usize)>)
        requires
            0 <= k < word@.len(),
            start == text::byte_pos(word@, k),
        ensures
            match subwords::longest_end(self@, word@, k, word@.len() as int) {
                Some(e) => {
                    &&& found == Some(
                        (
                            self@.vocab[subwords::key(self@, word@, k, e)],
                            text::byte_pos(word@, e) as usize,
                        ),
                    )
                    &&& final(scratch)@ == if k == 0 {
                        old(scratch)@
                    } else {
                        subwords::key(self@, word@, k, e)
                    }
                },
                None => {
                    &&& found is None
                    &&& final(scratch)@ == if k == 0 {
                        old(scratch)@
                    } else {
                        subwords::key(self@, word@, k, k + 1)
                    }
                },
            },
    {
        let mut end: usize = text::str_len(word);
        let ghost n: int = word@.len() as int;
        let ghost mut e: int = n;
        proof {
            text::lemma_byte_pos_ends(word@);
            text::lemma_byte_pos_order(word@, k, n);
            if k > 0 {
                text::lemma_byte_pos_order(word@, 0, k);
            }
        }
        while end > start
            invariant
                0 <= k <= e <= n == word@.len(),
                k < n,
                start == text::byte_pos(word@, k),
                end == text::byte_pos(word@, e),
                start == 0 <==> k == 0,
                subwords::longest_end(self@, word@, k, n) == subwords::longest_end(
                    self@,
                    word@,
                    k,
                    e,
                ),
                scratch@ == if k == 0 || e == n {
                    old(scratch)@
                } else {
                    subwords::key(self@, word@, k, e + 1)
                },
            decreases end,
        {
            let sub = text::slice(word, start, end, Ghost(k), Ghost(e));
            let id: Option<u32> = if start == 0 {
                match self.vocab.get(sub) {
                    Some(id) => Some(*id),
                    None => None,
                }
            } else {
                scratch.clear();
                scratch.append(self.continuing_subword_prefix.as_str());
                scratch.append(sub);
                assert(scratch@ == subwords::key(self@, word@, k, e));
                match self.vocab.get(scratch.as_str()) {
                    Some(id) => Some(*id),
                    None => None,
                }
            };
            if let Some(id) = id {
                return Some((id, end));
            }
            // Step back one character.
            proof {
                text::lemma_byte_pos_step(word@, e - 1);
                text::lemma_byte_pos_order(word@, k, e - 1);
                text::lemma_boundary(word@, e - 1);
            }
            end = end - 1;
            while !word.is_char_boundary(end)
                invariant
                    0 <= k < e <= word@.len(),
                    text::byte_pos(word@, e - 1) <= end < text::byte_pos(word@, e),
                    vstd::utf8::is_char_boundary(
                        vstd::utf8::encode_utf8(word@),
                        text::byte_pos(word@, e - 1) as int,
                    ),
                decreases end,
            {
                end = end - 1;
            }
            proof {
                if end > text::byte_pos(word@, e - 1) {
                    text::lemma_no_boundary_inside(word@, e - 1, end as int);
                }
                e = e - 1;
            }
        }
        proof {
            if k < e {
                text::lemma_byte_pos_order(word@, k, e);
            }
        }
        None
    }

    /// Appends the ids of `word`: greedy longest-match-first. A word that tokens do not make up, or
    /// that has more than `max_input_chars_per_word` characters, is a single unknown token.
    /// `scratch` is a buffer for keys.
    pub fn word_to_ids(&self, word: &str, out: &mut Vec<u32>, scratch: &mut String)
        ensures
            final(out)@ == old(out)@ + subwords::word_ids(self@, word@),
            final(scratch)@ == subwords::buffer_after(self@, word@, old(scratch)@),
    {
        let n: usize = text::str_len(word);
        proof {
            text::lemma_len_at_most_byte_len(word@);
        }
        // There are no more characters than bytes, so short words skip the count.
        if n > self.max_input_chars_per_word && word.unicode_len() > self.max_input_chars_per_word {
            self.push_unk(out);
            return ;
        }
        if n == 1 {
            proof {
                use_type_invariant(self);
                text::lemma_byte_pos_ends(word@);
                text::lemma_first_byte(word@, 0);
                text::lemma_byte_pos_step(word@, 0);
                assert(word@ == seq![word@[0]]);
                subwords::lemma_single_character_word(self@, word@[0]);
                subwords::lemma_single_character_buffer(self@, word@[0], scratch@);
            }
            let b: u8 = word.as_bytes()[0];
            match self.single_byte[b as usize] {
                Some(id) => out.push(id),
                None => self.push_unk(out),
            }
            return ;
        }
        let mark: usize = out.len();
        let mut start: usize = 0;
        let ghost mut k: int = 0;
        let ghost mut ids: Seq<u32> = seq![];
        proof {
            text::lemma_byte_pos_ends(word@);
        }
        while start < n
            invariant
                mark == old(out)@.len(),
                n == text::byte_len(word@),
                word@.len() <= self@.max_input_chars_per_word,
                0 <= k <= word@.len(),
                start == text::byte_pos(word@, k),
                out@ == old(out)@ + ids,
                subwords::subwords_from(self@, word@, 0) == (match subwords::subwords_from(
                    self@,
                    word@,
                    k,
                ) {
                    Some(rest) => Some(ids + rest),
                    None => None,
                }),
                subwords::buffer_from(self@, word@, 0, old(scratch)@) == subwords::buffer_from(
                    self@,
                    word@,
                    k,
                    scratch@,
                ),
            decreases n - start,
        {
            proof {
                if k == word@.len() {
                    text::lemma_byte_pos_ends(word@);
                }
                subwords::lemma_longest_end_is_longest(self@, word@, k, word@.len() as int);
            }
            match self.longest_token(word, start, scratch, Ghost(k)) {
                Some((id, end)) => {
                    out.push(id);
                    proof {
                        let e = subwords::longest_end(self@, word@, k, word@.len() as int)->0;
                        text::lemma_byte_pos_order(word@, k, e);
                        if let Some(rest) = subwords::subwords_from(self@, word@, e) {
                            assert(ids + (seq![id] + rest) == ids.push(id) + rest);
                        }
                        ids = ids.push(id);
                        k = e;
                    }
                    start = end;
                },
                None => {
                    out.truncate(mark);
                    assert(out@ == old(out)@);
                    self.push_unk(out);
                    return ;
                },
            }
        }
        proof {
            if k < word@.len() {
                text::lemma_byte_pos_order(word@, k, word@.len() as int);
            }
        }
    }

    /// The ids of `s`. Added tokens are found first; what lies between is normalized, split into
    /// words and cut into tokens. An unknown word gives the id of the unknown token.
    pub fn encode_ids(&self, s: &str) -> (out: Vec<u32>)
        ensures
            out@ == encoding::encode(self@, s@),
            encoding::pieces_decompose(self@, added_tokens::split(self@.added_tokens, s@)),
            added_tokens::none_holds(self@.added_tokens, ' ') ==> encoding::spaces_separate(
                self@,
                s@,
            ),
    {
        let ghost m = self@;
        let ghost f = |p: added_tokens::PieceView| encoding::piece_ids(m, p);
        let ghost g = |w: Seq<char>| subwords::word_ids(m, w);
        let mut out: Vec<u32> = Vec::new();
        let mut scratch = String::new();
        let pieces = self.split_added_tokens(s);
        let ghost parts = added_tokens::pieces_view(pieces@);
        proof {
            assert(parts.take(0).map_values(f) == Seq::<Seq<u32>>::empty());
        }
        let mut i: usize = 0;
        while i < pieces.len()
            invariant
                m == self@,
                f == |p: added_tokens::PieceView| encoding::piece_ids(m, p),
                g == |w: Seq<char>| subwords::word_ids(m, w),
                parts == added_tokens::pieces_view(pieces@),
                i <= pieces@.len(),
                out@ == parts.take(i as int).flat_map(f),
                encoding::pieces_decompose(m, parts.take(i as int)),
            decreases pieces@.len() - i,
        {
            proof {
                parts.lemma_flat_map_take_append(f, i as int);
            }
            let ghost before = out@;
            match pieces[i] {
                Piece::Added(id) => {
                    out.push(id);
                    assert(out@ == before + seq![id]);
                },
                Piece::Text(t) => {
                    let normalized = self.normalize(t);
                    let list = pre_tokenizer::pre_tokenize(normalized.as_str());
                    let ghost words = pre_tokenizer::views(list@);
                    proof {
                        assert(words.take(0).map_values(g) == Seq::<Seq<u32>>::empty());
                        assert(before + words.take(0).flat_map(g) == before);
                    }
                    let mut j: usize = 0;
                    while j < list.len()
                        invariant
                            m == self@,
                            g == |w: Seq<char>| subwords::word_ids(m, w),
                            words == pre_tokenizer::views(list@),
                            j <= list@.len(),
                            out@ == before + words.take(j as int).flat_map(g),
                        decreases list@.len() - j,
                    {
                        proof {
                            words.lemma_flat_map_take_append(g, j as int);
                        }
                        self.word_to_ids(list[j], &mut out, &mut scratch);
                        j = j + 1;
                    }
                    assert(words.take(j as int) == words);
                    assert(out@ == before + encoding::text_ids(m, t@));
                },
            }
            proof {
                let done = parts.take(i as int);
                assert(parts.take(i + 1) == done.push(parts[i as int]));
                assert(forall|j: int|
                    0 <= j < done.len() ==> done[j] == #[trigger] done.push(parts[i as int])[j]);
            }
            i = i + 1;
        }
        assert(parts.take(i as int) == parts);
        proof {
            if added_tokens::none_holds(m.added_tokens, ' ') {
                encoding::lemma_spaces_separate(m, s@);
            }
        }
        out
    }
}

} // verus!
