//! Character predicates of the BERT normalizer and pre-tokenizer.
use unicode_categories::UnicodeCategories;
use unicode_normalization::UnicodeNormalization;
use vstd::prelude::*;

verus! {

// --- ASCII -------------------------------------------------------------------
pub open spec fn is_ascii_char(c: char) -> bool {
    c <= '\u{7f}'
}

/// The ASCII members of the category "Other": the control characters.
pub open spec fn ascii_control(c: char) -> bool {
    c <= '\u{1f}' || c == '\u{7f}'
}

/// The printable ASCII characters other than the space, the letters and the digits.
pub open spec fn ascii_punctuation(c: char) -> bool {
    ||| '!' <= c <= '/'
    ||| ':' <= c <= '@'
    ||| '[' <= c <= '`'
    ||| '{' <= c <= '~'
}

/// The ASCII characters that Unicode calls symbols, not punctuation: `$ + < = > ^ ` | ~`.
pub open spec fn ascii_symbol(c: char) -> bool {
    ||| c == '$' || c == '+' || c == '^' || c == '`' || c == '|' || c == '~'
    ||| '<' <= c <= '>'
}

pub open spec fn ascii_uppercase(c: char) -> bool {
    'A' <= c <= 'Z'
}

/// `c` in lower case, if it is an ASCII capital; other characters are left as they are.
pub open spec fn ascii_lowercase(c: char) -> char {
    if ascii_uppercase(c) {
        ((c as u32) + 32) as char
    } else {
        c
    }
}

// --- Unicode properties ------------------------------------------------------
/// The characters with the Unicode property `White_Space`.
pub open spec fn white_space(c: char) -> bool {
    ||| '\u{9}' <= c <= '\u{d}'
    ||| c == ' ' || c == '\u{85}' || c == '\u{a0}' || c == '\u{1680}'
    ||| '\u{2000}' <= c <= '\u{200a}'
    ||| c == '\u{2028}' || c == '\u{2029}' || c == '\u{202f}' || c == '\u{205f}' || c == '\u{3000}'
}

/// Whether `unicode_categories` puts the character `c`, which is beyond ASCII, in a category
/// "Other".
pub uninterp spec fn category_other(c: char) -> bool;

/// Whether `unicode_categories` puts the character `c`, which is beyond ASCII, in a category
/// "Punctuation".
pub uninterp spec fn category_punctuation(c: char) -> bool;

/// Whether `unicode_categories` puts the character `c`, which is beyond ASCII, in the category
/// "Mark, Nonspacing".
pub uninterp spec fn category_mark_nonspacing(c: char) -> bool;

/// The lower-case mapping that std gives for the character `c`, which is beyond ASCII.
pub uninterp spec fn lowercase_mapping(c: char) -> Seq<char>;

/// The Normalization Form D that `unicode_normalization` gives for `s`, which is not all ASCII.
pub uninterp spec fn canonical_decomposition(s: Seq<char>) -> Seq<char>;

/// The characters in a category "Other": control, format and private-use characters.
pub open spec fn other(c: char) -> bool {
    if is_ascii_char(c) {
        ascii_control(c)
    } else {
        category_other(c)
    }
}

/// The characters in a category "Punctuation".
pub open spec fn punctuation(c: char) -> bool {
    if is_ascii_char(c) {
        ascii_punctuation(c) && !ascii_symbol(c)
    } else {
        category_punctuation(c)
    }
}

/// The characters in the category "Mark, Nonspacing", such as combining accents.
pub open spec fn mark_nonspacing(c: char) -> bool {
    !is_ascii_char(c) && category_mark_nonspacing(c)
}

/// `c` in lower case: one character or several.
pub open spec fn lowercase(c: char) -> Seq<char> {
    if is_ascii_char(c) {
        seq![ascii_lowercase(c)]
    } else {
        lowercase_mapping(c)
    }
}

/// `s` in Normalization Form D: each character split into its base and its combining marks.
pub open spec fn nfd(s: Seq<char>) -> Seq<char> {
    if vstd::utf8::is_ascii_chars(s) {
        s
    } else {
        canonical_decomposition(s)
    }
}

/// Decomposing `s` leaves its spaces where they are: what stands before a space and what stands
/// behind it are decomposed by themselves.
pub open spec fn nfd_keeps_spaces(s: Seq<char>) -> bool {
    forall|i: int|
        0 <= i < s.len() && #[trigger] s[i] == ' ' ==> nfd(s) == nfd(s.take(i)) + seq![' '] + nfd(
            s.skip(i + 1),
        )
}

// --- What std and the Unicode crates compute -----------------------------------
/// `is_other` of `unicode_categories`. Of the ASCII characters its tables hold the control
/// characters; beyond ASCII the answer has a name.
#[verifier::external_body]
fn is_other(c: char) -> (yes: bool)
    ensures
        is_ascii_char(c) ==> yes == ascii_control(c),
        !is_ascii_char(c) ==> yes == category_other(c),
{
    c.is_other()
}

/// `is_punctuation` of `unicode_categories`. Of the ASCII characters its tables hold the
/// punctuation, without the symbols; beyond ASCII the answer has a name.
#[verifier::external_body]
pub(crate) fn is_punctuation(c: char) -> (yes: bool)
    ensures
        is_ascii_char(c) ==> yes == (ascii_punctuation(c) && !ascii_symbol(c)),
        !is_ascii_char(c) ==> yes == category_punctuation(c),
{
    c.is_punctuation()
}

/// `is_mark_nonspacing` of `unicode_categories`. Its table holds no ASCII character; beyond ASCII
/// the answer has a name.
#[verifier::external_body]
pub(crate) fn is_mark_nonspacing(c: char) -> (yes: bool)
    ensures
        is_ascii_char(c) ==> !yes,
        !is_ascii_char(c) ==> yes == category_mark_nonspacing(c),
{
    c.is_mark_nonspacing()
}

/// `char::to_lowercase` of std, its characters in a vector. An ASCII capital gives the small
/// letter, another ASCII character gives itself; beyond ASCII the mapping has a name.
#[verifier::external_body]
pub(crate) fn to_lowercase(c: char) -> (mapped: Vec<char>)
    ensures
        is_ascii_char(c) ==> mapped@ == seq![ascii_lowercase(c)],
        !is_ascii_char(c) ==> mapped@ == lowercase_mapping(c),
{
    c.to_lowercase().collect()
}

/// `nfd` of `unicode_normalization`, its characters in a vector. ASCII characters never
/// decompose and are never reordered; for other text the result has a name. The space has the
/// combining class 0, across which nothing is reordered, so what stands on either side of it is
/// decomposed by itself.
#[verifier::external_body]
pub(crate) fn to_nfd(s: &str) -> (decomposed: Vec<char>)
    ensures
        vstd::utf8::is_ascii_chars(s@) ==> decomposed@ == s@,
        !vstd::utf8::is_ascii_chars(s@) ==> decomposed@ == canonical_decomposition(s@),
        forall|i: int|
            0 <= i < s@.len() && #[trigger] s@[i] == ' ' ==> decomposed@ == nfd(s@.take(i)) + seq![
                ' ',
            ] + nfd(s@.skip(i + 1)),
{
    s.nfd().collect()
}

// --- Predicates --------------------------------------------------------------
/// The control characters that text cleaning drops: the category "Other" without tab, line feed
/// and carriage return.
pub open spec fn control(c: char) -> bool {
    c != '\t' && c != '\n' && c != '\r' && other(c)
}

/// The ideographs that stand in a word of their own.
pub open spec fn chinese_char(c: char) -> bool {
    let r = c as u32;
    ||| 0x4E00 <= r <= 0x9FFF
    ||| 0x3400 <= r <= 0x4DBF
    ||| 0x20000 <= r <= 0x2A6DF
    ||| 0x2A700 <= r <= 0x2B73F
    ||| 0x2B740 <= r <= 0x2B81F
    ||| 0x2B920 <= r <= 0x2CEAF
    ||| 0xF900 <= r <= 0xFAFF
    ||| 0x2F800 <= r <= 0x2FA1F
}

/// ASCII white space. Below 0x80 this agrees with the property `White_Space`.
pub fn is_ascii_space(b: u8) -> (yes: bool)
    ensures
        yes == (b == 0x20 || 0x09 <= b <= 0x0d),
        b < 0x80 ==> yes == white_space(b as char),
{
    b == 0x20 || b == 0x09 || b == 0x0a || b == 0x0b || b == 0x0c || b == 0x0d
}

/// Whether `c` has the Unicode property `White_Space`.
pub fn is_whitespace(c: char) -> (yes: bool)
    ensures
        yes == white_space(c),
{
    ('\u{9}' <= c && c <= '\u{d}') || c == ' ' || c == '\u{85}' || c == '\u{a0}' || c == '\u{1680}'
        || ('\u{2000}' <= c && c <= '\u{200a}') || c == '\u{2028}' || c == '\u{2029}' || c
        == '\u{202f}' || c == '\u{205f}' || c == '\u{3000}'
}

/// Whether text cleaning drops `c` as a control character.
pub fn is_control(c: char) -> (yes: bool)
    ensures
        yes == control(c),
{
    if c == '\t' || c == '\n' || c == '\r' {
        false
    } else {
        is_other(c)
    }
}

/// Whether `c` is an ideograph that stands in a word of its own.
pub fn is_chinese_char(c: char) -> (yes: bool)
    ensures
        yes == chinese_char(c),
{
    let r: u32 = c as u32;
    (0x4E00 <= r && r <= 0x9FFF) || (0x3400 <= r && r <= 0x4DBF) || (0x20000 <= r && r <= 0x2A6DF)
        || (0x2A700 <= r && r <= 0x2B73F) || (0x2B740 <= r && r <= 0x2B81F) || (0x2B920 <= r && r
        <= 0x2CEAF) || (0xF900 <= r && r <= 0xFAFF) || (0x2F800 <= r && r <= 0x2FA1F)
}

// --- Laws --------------------------------------------------------------------
/// White space is these twenty-five characters and no others.
pub proof fn lemma_white_space_characters(c: char)
    ensures
        white_space(c) <==> {
            let r = c as u32;
            ||| r == 0x09 || r == 0x0a || r == 0x0b || r == 0x0c || r == 0x0d || r == 0x20
            ||| r == 0x85 || r == 0xa0 || r == 0x1680
            ||| 0x2000 <= r <= 0x200a
            ||| r == 0x2028 || r == 0x2029 || r == 0x202f || r == 0x205f || r == 0x3000
        },
{
}

/// What cleaning drops as control characters: in ASCII the C0 controls but tab, line feed and
/// carriage return, and DEL; beyond ASCII all of the category "Other".
pub proof fn lemma_control_characters(c: char)
    ensures
        c as u32 <= 0x7f ==> (control(c) <==> {
            let r = c as u32;
            (r <= 0x1f && r != 0x09 && r != 0x0a && r != 0x0d) || r == 0x7f
        }),
        c as u32 > 0x7f ==> (control(c) <==> category_other(c)),
{
}

/// An ideograph is a character of one of these eight blocks, each of them whole.
pub proof fn lemma_ideograph_blocks(c: char)
    ensures
        chinese_char(c) <==> {
            let r = c as u32;
            ||| 0x3400 <= r < 0x4dc0
            ||| 0x4e00 <= r < 0xa000
            ||| 0xf900 <= r < 0xfb00
            ||| 0x20000 <= r < 0x2a6e0
            ||| 0x2a700 <= r < 0x2b740
            ||| 0x2b740 <= r < 0x2b820
            ||| 0x2b920 <= r < 0x2ceb0
            ||| 0x2f800 <= r < 0x2fa20
        },
{
}

/// The capitals of ASCII become the small letters thirty-two places on, other ASCII characters stay,
/// and every other character, of whatever script, becomes what std maps it to.
pub proof fn lemma_lowercase_characters(c: char)
    ensures
        65 <= c as u32 <= 90 ==> lowercase(c) == seq![((c as u32) + 32) as char],
        c as u32 <= 0x7f && !(65 <= c as u32 <= 90) ==> lowercase(c) == seq![c],
        c as u32 > 0x7f ==> lowercase(c) == lowercase_mapping(c),
        ascii_lowercase(c) == (if 65 <= c as u32 <= 90 {
            ((c as u32) + 32) as char
        } else {
            c
        }),
{
}

/// No ASCII character is a nonspacing mark; beyond ASCII the category decides.
pub proof fn lemma_mark_characters(c: char)
    ensures
        mark_nonspacing(c) <==> c as u32 > 0x7f && category_mark_nonspacing(c),
{
}

/// Text that is all ASCII is its own decomposition; any other text is decomposed.
pub proof fn lemma_decomposition(s: Seq<char>)
    ensures
        (forall|i: int| 0 <= i < s.len() ==> '\0' <= #[trigger] s[i] <= '\u{7f}') ==> nfd(s) == s,
        (exists|i: int| 0 <= i < s.len() && #[trigger] s[i] > '\u{7f}') ==> nfd(s)
            == canonical_decomposition(s),
{
}

} // verus!
