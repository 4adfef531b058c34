//! The BERT pre-tokenizer: white space is dropped, each punctuation character is a word.
use crate::text;
use crate::unicode;
use vstd::prelude::*;

verus! {

/// The class of a character: 0 for one of a word, 1 for white space, 2 for punctuation.
pub open spec fn char_class(c: char) -> u8 {
    if unicode::white_space(c) {
        1
    } else if unicode::ascii_punctuation(c) || unicode::punctuation(c) {
        2
    } else {
        0
    }
}

/// The word that ends here, if one was begun.
pub open spec fn flush(pending: Seq<char>) -> Seq<Seq<char>> {
    if pending.len() == 0 {
        seq![]
    } else {
        seq![pending]
    }
}

/// The words of `rest`, where `pending` is what has been read of a word already.
pub open spec fn words_from(pending: Seq<char>, rest: Seq<char>) -> Seq<Seq<char>>
    decreases rest.len(),
{
    if rest.len() == 0 {
        flush(pending)
    } else if char_class(rest[0]) == 1 {
        flush(pending) + words_from(seq![], rest.drop_first())
    } else if char_class(rest[0]) == 2 {
        flush(pending) + seq![seq![rest[0]]] + words_from(seq![], rest.drop_first())
    } else {
        words_from(pending.push(rest[0]), rest.drop_first())
    }
}

/// The words of `s`: white space is dropped, each punctuation character is a word of its own, and
/// every other run of characters is a word.
pub open spec fn words(s: Seq<char>) -> Seq<Seq<char>> {
    words_from(seq![], s)
}

/// What the strings of a list hold.
pub open spec fn views(list: Seq<&str>) -> Seq<Seq<char>> {
    list.map_values(|w: &str| w@)
}

/// ASCII byte class: 0 for a byte of a word, 1 for white space, 2 for punctuation. Below 0x80 it
/// is the class of the character.
pub fn ascii_class(b: u8) -> (class: u8)
    ensures
        class == (if b == 0x20 || 0x09 <= b <= 0x0d {
            1u8
        } else if 0x21 <= b <= 0x2f || 0x3a <= b <= 0x40 || 0x5b <= b <= 0x60 || 0x7b <= b <= 0x7e {
            2u8
        } else {
            0u8
        }),
        b < 0x80 ==> class == char_class(b as char),
{
    match b {
        0x20 | 0x09 | 0x0a | 0x0b | 0x0c | 0x0d => 1,
        0x21..=0x2f | 0x3a..=0x40 | 0x5b..=0x60 | 0x7b..=0x7e => 2,
        _ => 0,
    }
}

/// Splits `s` into words: white space is dropped, and each punctuation character is a word of its
/// own. The words are parts of `s`, not copies.
pub fn pre_tokenize(s: &str) -> (list: Vec<&str>)
    ensures
        views(list@) == words(s@),
        list@.len() == words(s@).len(),
        forall|i: int| 0 <= i < list@.len() ==> (#[trigger] list@[i])@ == words(s@)[i],
{
    let bytes = s.as_bytes();
    let n: usize = bytes.len();
    let mut list: Vec<&str> = Vec::with_capacity(n / 4 + 1);
    // The start of the word that is being read, if one is.
    let mut start: Option<usize> = None;
    let mut i: usize = 0;
    let ghost mut k: int = 0;
    let ghost mut first: int = 0;
    let ghost mut pending: Seq<char> = seq![];
    proof {
        text::lemma_byte_pos_ends(s@);
        assert(s@.skip(0) == s@);
        assert(views(list@) == Seq::<Seq<char>>::empty());
    }
    while i < n
        invariant
            bytes@ == vstd::utf8::encode_utf8(s@),
            n == text::byte_len(s@),
            0 <= k <= s@.len(),
            i == text::byte_pos(s@, k),
            match start {
                Some(at) => 0 <= first < k && at == text::byte_pos(s@, first) && pending
                    == s@.subrange(first, k),
                None => pending == Seq::<char>::empty(),
            },
            views(list@) + words_from(pending, s@.skip(k)) == words(s@),
        decreases n - i,
    {
        proof {
            if k == s@.len() {
                text::lemma_byte_pos_ends(s@);
            }
            text::lemma_first_byte(s@, k);
            text::lemma_byte_pos_step(s@, k);
            text::lemma_byte_pos_order(s@, k + 1, s@.len() as int);
            assert(s@.skip(k)[0] == s@[k]);
            assert(s@.skip(k).drop_first() == s@.skip(k + 1));
        }
        let class: u8;
        let size: usize;
        if bytes[i] < 0x80 {
            class = ascii_class(bytes[i]);
            size = 1;
        } else {
            let c = text::char_at(s, i, Ghost(k));
            class =
            if unicode::is_whitespace(c) {
                1
            } else if unicode::is_punctuation(c) {
                2
            } else {
                0
            };
            size = text::char_width(c);
        }
        assert(class == char_class(s@[k]));
        assert(i + size == text::byte_pos(s@, k + 1));
        let ghost before = list@;
        if class == 1 || class == 2 {
            if let Some(at) = start {
                list.push(text::slice(s, at, i, Ghost(first), Ghost(k)));
                start = None;
                assert(views(list@) == views(before).push(pending));
            }
            assert(views(list@) == views(before) + flush(pending));
            if class == 2 {
                let ghost so_far = list@;
                list.push(text::slice(s, i, i + size, Ghost(k), Ghost(k + 1)));
                assert(s@.subrange(k, k + 1) == seq![s@[k]]);
                assert(views(list@) == views(so_far).push(seq![s@[k]]));
            }
            proof {
                pending = seq![];
            }
        } else {
            if start.is_none() {
                start = Some(i);
                proof {
                    first = k;
                }
            }
            assert(pending.push(s@[k]) == s@.subrange(first, k + 1));
            proof {
                pending = pending.push(s@[k]);
            }
        }
        i = i + size;
        proof {
            k = k + 1;
        }
    }
    proof {
        if k < s@.len() {
            text::lemma_byte_pos_order(s@, k, s@.len() as int);
            text::lemma_byte_pos_ends(s@);
        }
    }
    let ghost before = list@;
    if let Some(at) = start {
        list.push(text::slice(s, at, n, Ghost(first), Ghost(k)));
        assert(views(list@) == views(before).push(pending));
    }
    assert(views(list@) == words(s@));
    assert forall|i: int| 0 <= i < list@.len() implies (#[trigger] list@[i])@ == words(s@)[i] by {
        assert(views(list@)[i] == list@[i]@);
    }
    list
}

// --- Laws ----------------------------------------------------------------------
/// A word as the pre-tokenizer makes it: one punctuation character, or a run of characters that
/// are neither punctuation nor white space.
pub open spec fn is_word(w: Seq<char>) -> bool {
    &&& w.len() > 0
    &&& (w.len() == 1 && char_class(w[0]) == 2) || forall|i: int|
        0 <= i < w.len() ==> char_class(#[trigger] w[i]) == 0
}

proof fn lemma_words_from_are_words(pending: Seq<char>, rest: Seq<char>)
    requires
        forall|i: int| 0 <= i < pending.len() ==> char_class(#[trigger] pending[i]) == 0,
    ensures
        forall|i: int|
            0 <= i < words_from(pending, rest).len() ==> is_word(
                #[trigger] words_from(pending, rest)[i],
            ),
    decreases rest.len(),
{
    assert(pending.len() > 0 ==> is_word(pending));
    if rest.len() > 0 {
        if char_class(rest[0]) == 0 {
            lemma_words_from_are_words(pending.push(rest[0]), rest.drop_first());
            assert(words_from(pending, rest) == words_from(
                pending.push(rest[0]),
                rest.drop_first(),
            ));
        } else {
            let tail = words_from(seq![], rest.drop_first());
            lemma_words_from_are_words(seq![], rest.drop_first());
            assert forall|i: int| 0 <= i < words_from(pending, rest).len() implies is_word(
                #[trigger] words_from(pending, rest)[i],
            ) by {
                let n = words_from(pending, rest).len() - tail.len();
                if i >= n {
                    assert(words_from(pending, rest)[i] == tail[i - n]);
                }
            }
        }
    } else {
        assert(words_from(pending, rest) == flush(pending));
    }
}

/// No word is empty or holds white space, and punctuation stands in a word of its own.
pub proof fn lemma_words_are_words(s: Seq<char>)
    ensures
        forall|i: int| 0 <= i < words(s).len() ==> is_word(#[trigger] words(s)[i]),
{
    lemma_words_from_are_words(seq![], s);
}

proof fn lemma_words_from_keep_text(pending: Seq<char>, rest: Seq<char>)
    ensures
        words_from(pending, rest).flatten() == pending + rest.filter(
            |c: char| !unicode::white_space(c),
        ),
    decreases rest.len(),
{
    let kept = |c: char| !unicode::white_space(c);
    assert(flush(pending).flatten() == pending) by {
        if pending.len() == 0 {
            assert(pending == Seq::<char>::empty());
        } else {
            flush(pending).lemma_flatten_singleton();
        }
    }
    reveal_with_fuel(Seq::filter, 2);
    if rest.len() > 0 {
        let c = rest[0];
        let tail = rest.drop_first();
        assert(rest == seq![c] + tail);
        Seq::filter_distributes_over_add(seq![c], tail, kept);
        assert(seq![c].drop_last() == Seq::<char>::empty());
        assert(seq![c].filter(kept) == if kept(c) {
            seq![c]
        } else {
            Seq::<char>::empty()
        });
        if char_class(c) == 0 {
            lemma_words_from_keep_text(pending.push(c), tail);
        } else {
            lemma_words_from_keep_text(seq![], tail);
            if char_class(c) == 1 {
                vstd::seq_lib::lemma_flatten_concat(flush(pending), words_from(seq![], tail));
            } else {
                let here = flush(pending).push(seq![c]);
                assert(here == flush(pending) + seq![seq![c]]);
                flush(pending).lemma_flatten_push(seq![c]);
                vstd::seq_lib::lemma_flatten_concat(here, words_from(seq![], tail));
            }
        }
        assert(words_from(pending, rest).flatten() == pending + rest.filter(kept));
    }
}

/// The words, one behind the other, are the text without its white space: nothing else is lost,
/// added or moved.
pub proof fn lemma_words_keep_text(s: Seq<char>)
    ensures
        words(s).flatten() == s.filter(|c: char| !unicode::white_space(c)),
{
    lemma_words_from_keep_text(seq![], s);
}

proof fn lemma_words_from_split(pending: Seq<char>, a: Seq<char>, c: char, b: Seq<char>)
    requires
        char_class(c) != 0,
    ensures
        words_from(pending, a + seq![c] + b) == words_from(pending, a) + (if char_class(c) == 2 {
            seq![seq![c]]
        } else {
            seq![]
        }) + words(b),
    decreases a.len(),
{
    let whole = a + seq![c] + b;
    if a.len() == 0 {
        assert(whole.drop_first() == b);
        assert(whole[0] == c);
    } else {
        assert(whole[0] == a[0]);
        assert(whole.drop_first() == a.drop_first() + seq![c] + b);
        if char_class(a[0]) == 0 {
            lemma_words_from_split(pending.push(a[0]), a.drop_first(), c, b);
        } else {
            lemma_words_from_split(seq![], a.drop_first(), c, b);
        }
    }
}

/// White space ends a word and leaves no other trace.
pub proof fn lemma_white_space_separates(a: Seq<char>, c: char, b: Seq<char>)
    requires
        unicode::white_space(c),
    ensures
        words(a + seq![c] + b) == words(a) + words(b),
{
    lemma_words_from_split(seq![], a, c, b);
}

/// A punctuation character is a word wherever it stands.
pub proof fn lemma_punctuation_is_isolated(a: Seq<char>, c: char, b: Seq<char>)
    requires
        char_class(c) == 2,
    ensures
        words(a + seq![c] + b) == words(a) + seq![seq![c]] + words(b),
{
    lemma_words_from_split(seq![], a, c, b);
}

/// White space at the start of a text makes no difference to its words.
pub(crate) proof fn lemma_leading_white_space(c: char, s: Seq<char>)
    requires
        unicode::white_space(c),
    ensures
        words(seq![c] + s) == words(s),
{
    lemma_words_from_split(seq![], seq![], c, s);
    assert(Seq::<char>::empty() + seq![c] + s == seq![c] + s);
}

/// White space at the end of a text makes no difference to its words.
pub(crate) proof fn lemma_trailing_white_space(s: Seq<char>, c: char)
    requires
        unicode::white_space(c),
    ensures
        words(s + seq![c]) == words(s),
{
    lemma_words_from_split(seq![], s, c, seq![]);
    assert(s + seq![c] + Seq::<char>::empty() == s + seq![c]);
}

/// A punctuation character is a word of its own wherever it stands: the ASCII ones, symbols among
/// them, and beyond ASCII all of the category "Punctuation".
pub proof fn lemma_punctuation_characters_are_words(a: Seq<char>, c: char, b: Seq<char>)
    requires
        ({
            let r = c as u32;
            ||| 33 <= r <= 47
            ||| 58 <= r <= 64
            ||| 91 <= r <= 96
            ||| 123 <= r <= 126
            ||| r > 0x7f && unicode::category_punctuation(c) && !unicode::white_space(c)
        }),
    ensures
        words(a + seq![c] + b) == words(a) + seq![seq![c]] + words(b),
{
    lemma_words_from_split(seq![], a, c, b);
}

/// White space is never in a word, and parts what stands on either side of it.
pub proof fn lemma_white_space_characters_part_words(a: Seq<char>, c: char, b: Seq<char>)
    requires
        ({
            let r = c as u32;
            ||| 0x09 <= r <= 0x0d || r == 0x20
            ||| r == 0x85 || r == 0xa0 || r == 0x1680
            ||| 0x2000 <= r <= 0x200a
            ||| r == 0x2028 || r == 0x2029 || r == 0x202f || r == 0x205f || r == 0x3000
        }),
    ensures
        words(a + seq![c] + b) == words(a) + words(b),
{
    lemma_words_from_split(seq![], a, c, b);
}

proof fn lemma_plain_run(pending: Seq<char>, s: Seq<char>)
    requires
        forall|i: int| 0 <= i < s.len() ==> char_class(#[trigger] s[i]) == 0,
    ensures
        words_from(pending, s) == flush(pending + s),
    decreases s.len(),
{
    if s.len() == 0 {
        assert(pending + s == pending);
    } else {
        let tail = s.drop_first();
        assert forall|i: int| 0 <= i < tail.len() implies char_class(#[trigger] tail[i]) == 0 by {
            assert(tail[i] == s[i + 1]);
        }
        assert(char_class(s[0]) == 0);
        lemma_plain_run(pending.push(s[0]), tail);
        assert(pending.push(s[0]) + tail == pending + s);
    }
}

/// Text that holds neither white space nor punctuation is one word, whole and unchanged; empty text
/// has no words.
pub proof fn lemma_plain_text_is_one_word(s: Seq<char>)
    requires
        forall|i: int|
            0 <= i < s.len() ==> {
                let c = #[trigger] s[i];
                let r = c as u32;
                &&& !unicode::white_space(c)
                &&& r <= 0x7f ==> !(33 <= r <= 47 || 58 <= r <= 64 || 91 <= r <= 96 || 123 <= r
                    <= 126)
                &&& r > 0x7f ==> !unicode::category_punctuation(c)
            },
    ensures
        s.len() > 0 ==> words(s) == seq![s],
        s.len() == 0 ==> words(s) == Seq::<Seq<char>>::empty(),
{
    assert forall|i: int| 0 <= i < s.len() implies char_class(#[trigger] s[i]) == 0 by {
        let c = s[i];
        assert(!unicode::white_space(c));
        vstd::utf8::char_u32_cast(c, c as u32);
    }
    lemma_plain_run(seq![], s);
    assert(Seq::<char>::empty() + s == s);
}

} // verus!
