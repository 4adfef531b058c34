//! Normalizing text.
use super::FastWordPiece;
use crate::normalizer;
use crate::text;
use crate::unicode;
use vstd::prelude::*;

verus! {

impl FastWordPiece {
    /// Normalizes `input`: cleaning, spacing of ideographs, accents, case and trimming, as the
    /// settings ask.
    pub fn normalize(&self, input: &str) -> (normalized: String)
        ensures
            normalized@ == normalizer::normal_form(self@, input@),
            normalizer::decomposes_at_spaces(self@, input@),
    {
        if input.is_empty() {
            proof {
                normalizer::lemma_ascii_decomposes_at_spaces(self@, input@);
                normalizer::lemma_normal_form_of_empty(self@, input@);
            }
            return String::new();
        }
        if input.is_ascii() {
            proof {
                normalizer::lemma_ascii_decomposes_at_spaces(self@, input@);
            }
            self.normalize_ascii(input)
        } else {
            self.normalize_unicode(input)
        }
    }

    /// Cleans, lower-cases and trims the ASCII characters of `input` in one pass. On ASCII text
    /// this is all there is to do: decomposition and ideographs are beyond ASCII.
    pub fn normalize_ascii(&self, input: &str) -> (normalized: String)
        ensures
            normalized@ == normalizer::ascii_form(self@, input@),
            vstd::utf8::is_ascii_chars(input@) ==> normalized@ == normalizer::normal_form(
                self@,
                input@,
            ),
    {
        let chars = text::collect_chars(input);
        let ghost m = self@;
        let ghost f = |c: char| normalizer::ascii_fold(m, c);
        let mut buf: Vec<char> = Vec::with_capacity(chars.len());
        proof {
            assert(input@.take(0) == Seq::<char>::empty());
            normalizer::lemma_flat_map_empty(f);
        }
        let mut i: usize = 0;
        while i < chars.len()
            invariant
                chars@ == input@,
                m == self@,
                f == |c: char| normalizer::ascii_fold(m, c),
                i <= chars@.len(),
                buf@ == input@.take(i as int).flat_map(f),
            decreases chars@.len() - i,
        {
            let c = chars[i];
            proof {
                input@.lemma_flat_map_take_append(f, i as int);
            }
            let ghost before = buf@;
            if self.clean_text && (c == '\t' || c == '\n' || c == '\r') {
                buf.push(' ');
                assert(buf@ == before + seq![' ']);
            } else if self.clean_text && (c <= '\u{1f}' || c == '\u{7f}') {
                assert(buf@ == before + Seq::<char>::empty());
            } else if self.lowercase && 'A' <= c && c <= 'Z' {
                let low: u8 = c as u8 + 32;
                buf.push(low as char);
                assert(buf@ == before + seq![unicode::ascii_lowercase(c)]);
            } else {
                buf.push(c);
                assert(buf@ == before + seq![c]);
            }
            i = i + 1;
        }
        assert(input@.take(i as int) == input@);
        proof {
            if vstd::utf8::is_ascii_chars(input@) {
                normalizer::lemma_ascii_form_is_normal_form(m, input@);
            }
        }
        normalizer::trim_chars(
            &buf,
            normalizer::is_ascii_space_char,
            Ghost(|c: char| normalizer::ascii_space(c)),
        )
    }

    /// Normalizes any text.
    pub fn normalize_unicode(&self, input: &str) -> (normalized: String)
        ensures
            normalized@ == normalizer::normal_form(self@, input@),
            normalizer::decomposes_at_spaces(self@, input@),
    {
        let chars = text::collect_chars(input);
        let ghost m = self@;
        let ghost f = |c: char| normalizer::clean_char(m, c);
        let ghost g = |c: char| normalizer::fold_char(m, c);
        let mut staged = String::new();
        proof {
            assert(input@.take(0) == Seq::<char>::empty());
            normalizer::lemma_flat_map_empty(f);
            normalizer::lemma_flat_map_empty(g);
        }
        let mut i: usize = 0;
        while i < chars.len()
            invariant
                chars@ == input@,
                m == self@,
                f == |c: char| normalizer::clean_char(m, c),
                i <= chars@.len(),
                staged@ == input@.take(i as int).flat_map(f),
            decreases chars@.len() - i,
        {
            let c = chars[i];
            proof {
                input@.lemma_flat_map_take_append(f, i as int);
            }
            let ghost before = staged@;
            if self.clean_text && (c == '\0' || c == '\u{fffd}' || unicode::is_control(c)) {
                assert(staged@ == before + Seq::<char>::empty());
            } else if self.clean_text && unicode::is_whitespace(c) {
                staged.push(' ');
                assert(staged@ == before + seq![' ']);
            } else if self.handle_chinese_chars && unicode::is_chinese_char(c) {
                staged.push(' ');
                staged.push(c);
                staged.push(' ');
                assert(staged@ == before + seq![' ', c, ' ']);
            } else {
                staged.push(c);
                assert(staged@ == before + seq![c]);
            }
            i = i + 1;
        }
        assert(input@.take(i as int) == input@);
        assert(staged@ == normalizer::cleaned(m, input@));
        // Text is left decomposed where accents are stripped.
        let source: Vec<char> = if self.strip_accents {
            unicode::to_nfd(staged.as_str())
        } else {
            text::collect_chars(staged.as_str())
        };
        let mut processed: Vec<char> = Vec::with_capacity(source.len());
        assert(source@.take(0) == Seq::<char>::empty());
        let mut j: usize = 0;
        while j < source.len()
            invariant
                m == self@,
                g == |c: char| normalizer::fold_char(m, c),
                j <= source@.len(),
                processed@ == source@.take(j as int).flat_map(g),
            decreases source@.len() - j,
        {
            let c = source[j];
            proof {
                source@.lemma_flat_map_take_append(g, j as int);
            }
            let ghost before = processed@;
            if self.strip_accents && unicode::is_mark_nonspacing(c) {
                assert(processed@ == before + Seq::<char>::empty());
            } else if self.lowercase {
                let mut low = unicode::to_lowercase(c);
                processed.append(&mut low);
                assert(processed@ == before + unicode::lowercase(c));
            } else {
                processed.push(c);
                assert(processed@ == before + seq![c]);
            }
            j = j + 1;
        }
        assert(source@.take(j as int) == source@);
        assert(processed@ == normalizer::folded(m, staged@));
        normalizer::trim_chars(
            &processed,
            unicode::is_whitespace,
            Ghost(|c: char| unicode::white_space(c)),
        )
    }
}

} // verus!
