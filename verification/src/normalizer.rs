//! The BERT normalizer: cleaning, spacing of ideographs, accents, case, and trimming.
use crate::model;
use crate::text;
use crate::unicode;
use vstd::prelude::*;

verus! {

/// What cleaning and the spacing of ideographs make of a character.
pub open spec fn clean_char(m: model::Model, c: char) -> Seq<char> {
    if m.clean_text && (c == '\0' || c == '\u{fffd}' || unicode::control(c)) {
        seq![]
    } else if m.clean_text && unicode::white_space(c) {
        seq![' ']
    } else if m.handle_chinese_chars && unicode::chinese_char(c) {
        seq![' ', c, ' ']
    } else {
        seq![c]
    }
}

/// `s`, cleaned.
pub open spec fn cleaned(m: model::Model, s: Seq<char>) -> Seq<char> {
    s.flat_map(|c: char| clean_char(m, c))
}

/// What the stripping of accents and lower-casing make of a character.
pub open spec fn fold_char(m: model::Model, c: char) -> Seq<char> {
    if m.strip_accents && unicode::mark_nonspacing(c) {
        seq![]
    } else if m.lowercase {
        unicode::lowercase(c)
    } else {
        seq![c]
    }
}

/// `s` without accents and in lower case, as far as the settings ask for it. Where accents are
/// stripped the text is decomposed first, and it stays decomposed.
pub open spec fn folded(m: model::Model, s: Seq<char>) -> Seq<char> {
    (if m.strip_accents {
        unicode::nfd(s)
    } else {
        s
    }).flat_map(|c: char| fold_char(m, c))
}

/// `s` without the characters at its start for which `drop` holds.
pub open spec fn trim_start(s: Seq<char>, drop: spec_fn(char) -> bool) -> Seq<char>
    decreases s.len(),
{
    if s.len() > 0 && drop(s[0]) {
        trim_start(s.drop_first(), drop)
    } else {
        s
    }
}

/// `s` without the characters at its end for which `drop` holds.
pub open spec fn trim_end(s: Seq<char>, drop: spec_fn(char) -> bool) -> Seq<char>
    decreases s.len(),
{
    if s.len() > 0 && drop(s.last()) {
        trim_end(s.drop_last(), drop)
    } else {
        s
    }
}

/// `s` without white space at its ends.
pub open spec fn trim(s: Seq<char>) -> Seq<char> {
    trim_end(
        trim_start(s, |c: char| unicode::white_space(c)),
        |c: char| unicode::white_space(c),
    )
}

/// `s`, normalized.
pub open spec fn normal_form(m: model::Model, s: Seq<char>) -> Seq<char> {
    trim(folded(m, cleaned(m, s)))
}

/// What the byte-wise pass makes of a character: it cleans and lower-cases ASCII characters only.
pub open spec fn ascii_fold(m: model::Model, c: char) -> Seq<char> {
    if m.clean_text && (c == '\t' || c == '\n' || c == '\r') {
        seq![' ']
    } else if m.clean_text && unicode::ascii_control(c) {
        seq![]
    } else if m.lowercase {
        seq![unicode::ascii_lowercase(c)]
    } else {
        seq![c]
    }
}

/// ASCII white space.
pub open spec fn ascii_space(c: char) -> bool {
    unicode::is_ascii_char(c) && unicode::white_space(c)
}

/// `s` without ASCII white space at its ends.
pub open spec fn trim_ascii(s: Seq<char>) -> Seq<char> {
    trim_end(trim_start(s, |c: char| ascii_space(c)), |c: char| ascii_space(c))
}

/// `s`, normalized as far as its ASCII characters go.
pub open spec fn ascii_form(m: model::Model, s: Seq<char>) -> Seq<char> {
    trim_ascii(s.flat_map(|c: char| ascii_fold(m, c)))
}

/// Where accents are stripped, decomposing the cleaned `s` leaves its spaces where they are.
pub open spec fn decomposes_at_spaces(m: model::Model, s: Seq<char>) -> bool {
    m.strip_accents ==> unicode::nfd_keeps_spaces(cleaned(m, s))
}

// --- Trimming --------------------------------------------------------------------
/// The characters of `chars` without those at the ends that `is_dropped` picks, as a string.
pub(crate) fn trim_chars<F: Fn(char) -> bool>(
    chars: &Vec<char>,
    is_dropped: F,
    Ghost(drop): Ghost<spec_fn(char) -> bool>,
) -> (trimmed: String)
    requires
        forall|c: char| #[trigger] call_requires(is_dropped, (c,)),
        forall|c: char, yes: bool| #[trigger]
            call_ensures(is_dropped, (c,), yes) ==> yes == drop(c),
    ensures
        trimmed@ == trim_end(trim_start(chars@, drop), drop),
{
    let mut start: usize = 0;
    let mut end: usize = chars.len();
    assert(chars@.skip(0) == chars@);
    while start < end && is_dropped(chars[start])
        invariant
            forall|c: char| #[trigger] call_requires(is_dropped, (c,)),
            forall|c: char, yes: bool| #[trigger]
                call_ensures(is_dropped, (c,), yes) ==> yes == drop(c),
            start <= end == chars@.len(),
            trim_start(chars@, drop) == trim_start(chars@.skip(start as int), drop),
        decreases end - start,
    {
        assert(chars@.skip(start as int).drop_first() == chars@.skip(start + 1));
        start = start + 1;
    }
    let ghost kept = chars@.skip(start as int);
    assert(trim_start(chars@, drop) == kept);
    assert(chars@.subrange(start as int, end as int) == kept);
    while end > start && is_dropped(chars[end - 1])
        invariant
            forall|c: char| #[trigger] call_requires(is_dropped, (c,)),
            forall|c: char, yes: bool| #[trigger]
                call_ensures(is_dropped, (c,), yes) ==> yes == drop(c),
            start <= end <= chars@.len(),
            trim_end(kept, drop) == trim_end(chars@.subrange(start as int, end as int), drop),
        decreases end,
    {
        let ghost here = chars@.subrange(start as int, end as int);
        assert(here.last() == chars@[end - 1]);
        assert(here.drop_last() == chars@.subrange(start as int, end - 1));
        end = end - 1;
    }
    proof {
        let here = chars@.subrange(start as int, end as int);
        if start < end {
            assert(here.last() == chars@[end - 1]);
        }
        assert(trim_end(here, drop) == here);
    }
    text::string_of(chars, start, end)
}

/// Whether `c` is ASCII white space.
pub(crate) fn is_ascii_space_char(c: char) -> (yes: bool)
    ensures
        yes == ascii_space(c),
{
    c <= '\u{7f}' && unicode::is_ascii_space(c as u8)
}

// --- Lemmas --------------------------------------------------------------------
pub(crate) proof fn lemma_flat_map_empty(f: spec_fn(char) -> Seq<char>)
    ensures
        Seq::<char>::empty().flat_map(f) == Seq::<char>::empty(),
{
    assert(Seq::<char>::empty().map_values(f) == Seq::<Seq<char>>::empty());
}

/// Empty text is normalized as it stands.
pub(crate) proof fn lemma_normal_form_of_empty(m: model::Model, s: Seq<char>)
    requires
        s.len() == 0,
    ensures
        normal_form(m, s) == Seq::<char>::empty(),
{
    assert(s == Seq::<char>::empty());
    lemma_flat_map_empty(|c: char| clean_char(m, c));
    lemma_flat_map_empty(|c: char| fold_char(m, c));
}

proof fn lemma_ascii_passes_agree(m: model::Model, s: Seq<char>)
    requires
        vstd::utf8::is_ascii_chars(s),
    ensures
        vstd::utf8::is_ascii_chars(cleaned(m, s)),
        folded(m, cleaned(m, s)) == s.flat_map(|c: char| ascii_fold(m, c)),
        vstd::utf8::is_ascii_chars(folded(m, cleaned(m, s))),
    decreases s.len(),
{
    let f = |c: char| clean_char(m, c);
    let g = |c: char| fold_char(m, c);
    let h = |c: char| ascii_fold(m, c);
    lemma_flat_map_empty(f);
    lemma_flat_map_empty(g);
    lemma_flat_map_empty(h);
    if s.len() == 0 {
        assert(s == Seq::<char>::empty());
    } else {
        let c = s.last();
        let rest = s.drop_last();
        assert(c == s[s.len() - 1]);
        assert(unicode::is_ascii_char(c));
        lemma_ascii_passes_agree(m, rest);
        assert(s == rest.push(c));
        rest.lemma_flat_map_push(f, c);
        rest.lemma_flat_map_push(h, c);
        let before = cleaned(m, rest);
        assert(cleaned(m, s) == before + clean_char(m, c));
        assert(!unicode::chinese_char(c));
        if clean_char(m, c).len() == 0 {
            assert(cleaned(m, s) == before);
            assert(ascii_fold(m, c) == Seq::<char>::empty());
        } else {
            let d = clean_char(m, c)[0];
            assert(clean_char(m, c) == seq![d]);
            assert(cleaned(m, s) == before.push(d));
            before.lemma_flat_map_push(g, d);
            assert(unicode::is_ascii_char(d));
            assert(fold_char(m, d) == ascii_fold(m, c));
        }
        assert(vstd::utf8::is_ascii_chars(cleaned(m, s)));
        assert(folded(m, cleaned(m, s)) == folded(m, before) + ascii_fold(m, c));
        assert(vstd::utf8::is_ascii_chars(ascii_fold(m, c)));
    }
}

proof fn lemma_ascii_trim_agrees(s: Seq<char>)
    requires
        vstd::utf8::is_ascii_chars(s),
    ensures
        trim_start(s, |c: char| unicode::white_space(c)) == trim_start(
            s,
            |c: char| ascii_space(c),
        ),
        trim_end(s, |c: char| unicode::white_space(c)) == trim_end(s, |c: char| ascii_space(c)),
        vstd::utf8::is_ascii_chars(trim_start(s, |c: char| unicode::white_space(c))),
    decreases s.len(),
{
    if s.len() > 0 {
        assert(unicode::is_ascii_char(s[0]));
        assert(unicode::is_ascii_char(s[s.len() - 1]));
        lemma_ascii_trim_agrees(s.drop_first());
        lemma_ascii_trim_agrees(s.drop_last());
    }
}

/// On ASCII text the byte-wise pass gives the normal form: stripping accents and spacing
/// ideographs change nothing there.
pub proof fn lemma_ascii_form_is_normal_form(m: model::Model, s: Seq<char>)
    requires
        vstd::utf8::is_ascii_chars(s),
    ensures
        ascii_form(m, s) == normal_form(m, s),
{
    lemma_ascii_passes_agree(m, s);
    let t = folded(m, cleaned(m, s));
    lemma_ascii_trim_agrees(t);
    lemma_ascii_trim_agrees(trim_start(t, |c: char| unicode::white_space(c)));
}

pub(crate) proof fn lemma_ascii_decomposes_at_spaces(m: model::Model, s: Seq<char>)
    requires
        vstd::utf8::is_ascii_chars(s),
    ensures
        decomposes_at_spaces(m, s),
{
    lemma_ascii_passes_agree(m, s);
    let t = cleaned(m, s);
    assert forall|i: int| 0 <= i < t.len() && #[trigger] t[i] == ' ' implies unicode::nfd(t)
        == unicode::nfd(t.take(i)) + seq![' '] + unicode::nfd(t.skip(i + 1)) by {
        assert(vstd::utf8::is_ascii_chars(t.take(i)));
        assert(vstd::utf8::is_ascii_chars(t.skip(i + 1)));
        assert(t == t.take(i) + seq![' '] + t.skip(i + 1));
    }
}

pub(crate) proof fn lemma_flat_map_concat<A, B>(a: Seq<A>, b: Seq<A>, f: spec_fn(A) -> Seq<B>)
    ensures
        (a + b).flat_map(f) == a.flat_map(f) + b.flat_map(f),
{
    assert((a + b).map_values(f) == a.map_values(f) + b.map_values(f));
    vstd::seq_lib::lemma_flatten_concat(a.map_values(f), b.map_values(f));
}

proof fn lemma_flat_map_at_space(a: Seq<char>, b: Seq<char>, f: spec_fn(char) -> Seq<char>)
    requires
        f(' ') == seq![' '],
    ensures
        (a + seq![' '] + b).flat_map(f) == a.flat_map(f) + seq![' '] + b.flat_map(f),
{
    lemma_flat_map_concat(a + seq![' '], b, f);
    lemma_flat_map_concat(a, seq![' '], f);
    seq![' '].lemma_flat_map_singleton(f);
}

/// Up to trimming, text on either side of a space is normalized by itself.
pub(crate) proof fn lemma_folded_at_space(m: model::Model, a: Seq<char>, b: Seq<char>)
    requires
        decomposes_at_spaces(m, a + seq![' '] + b),
    ensures
        folded(m, cleaned(m, a + seq![' '] + b)) == folded(m, cleaned(m, a)) + seq![' '] + folded(
            m,
            cleaned(m, b),
        ),
{
    let f = |c: char| clean_char(m, c);
    let g = |c: char| fold_char(m, c);
    let (ca, cb) = (cleaned(m, a), cleaned(m, b));
    let all = cleaned(m, a + seq![' '] + b);
    assert(f(' ') == seq![' ']);
    lemma_flat_map_at_space(a, b, f);
    assert(all == ca + seq![' '] + cb);
    assert(g(' ') == seq![' ']);
    if m.strip_accents {
        assert(all[ca.len() as int] == ' ');
        assert(all.take(ca.len() as int) == ca);
        assert(all.skip(ca.len() as int + 1) == cb);
        lemma_flat_map_at_space(unicode::nfd(ca), unicode::nfd(cb), g);
    } else {
        lemma_flat_map_at_space(ca, cb, g);
    }
}

proof fn lemma_trim_start_ends(s: Seq<char>, drop: spec_fn(char) -> bool)
    ensures
        trim_start(s, drop).len() > 0 ==> !drop(trim_start(s, drop)[0]),
    decreases s.len(),
{
    if s.len() > 0 && drop(s[0]) {
        lemma_trim_start_ends(s.drop_first(), drop);
    }
}

proof fn lemma_trim_end_ends(s: Seq<char>, drop: spec_fn(char) -> bool)
    ensures
        trim_end(s, drop).len() > 0 ==> !drop(trim_end(s, drop).last()),
        trim_end(s, drop).len() > 0 ==> trim_end(s, drop)[0] == s[0],
    decreases s.len(),
{
    if s.len() > 0 && drop(s.last()) {
        lemma_trim_end_ends(s.drop_last(), drop);
    }
}

/// Normalized text neither begins nor ends with white space.
pub proof fn lemma_normal_form_is_trimmed(m: model::Model, s: Seq<char>)
    ensures
        normal_form(m, s).len() > 0 ==> !unicode::white_space(normal_form(m, s)[0]),
        normal_form(m, s).len() > 0 ==> !unicode::white_space(normal_form(m, s).last()),
{
    let ws = |c: char| unicode::white_space(c);
    let t = folded(m, cleaned(m, s));
    lemma_trim_start_ends(t, ws);
    lemma_trim_end_ends(trim_start(t, ws), ws);
}

/// Where the settings ask for cleaning, cleaned text holds no control character, no NUL and no
/// replacement character, and no white space but the space.
pub proof fn lemma_cleaned_is_clean(m: model::Model, s: Seq<char>)
    requires
        m.clean_text,
    ensures
        forall|i: int|
            0 <= i < cleaned(m, s).len() ==> {
                &&& !unicode::control(#[trigger] cleaned(m, s)[i])
                &&& cleaned(m, s)[i] != '\0'
                &&& cleaned(m, s)[i] != '\u{fffd}'
                &&& unicode::white_space(cleaned(m, s)[i]) ==> cleaned(m, s)[i] == ' '
            },
    decreases s.len(),
{
    let f = |c: char| clean_char(m, c);
    lemma_flat_map_empty(f);
    if s.len() == 0 {
        assert(s == Seq::<char>::empty());
    } else {
        let rest = s.drop_last();
        lemma_cleaned_is_clean(m, rest);
        assert(s == rest.push(s.last()));
        rest.lemma_flat_map_push(f, s.last());
        let before = cleaned(m, rest);
        let here = clean_char(m, s.last());
        assert(cleaned(m, s) == before + here);
        assert forall|i: int| 0 <= i < cleaned(m, s).len() implies {
            &&& !unicode::control(#[trigger] cleaned(m, s)[i])
            &&& cleaned(m, s)[i] != '\0'
            &&& cleaned(m, s)[i] != '\u{fffd}'
            &&& unicode::white_space(cleaned(m, s)[i]) ==> cleaned(m, s)[i] == ' '
        } by {
            if i < before.len() {
                assert(cleaned(m, s)[i] == before[i]);
            } else {
                assert(cleaned(m, s)[i] == here[i - before.len()]);
            }
        }
    }
}

/// Where the settings ask for it, an ideograph of the cleaned text has a space on either side.
pub proof fn lemma_ideographs_are_spaced(m: model::Model, s: Seq<char>)
    requires
        m.handle_chinese_chars,
    ensures
        forall|i: int|
            0 <= i < cleaned(m, s).len() && unicode::chinese_char(#[trigger] cleaned(m, s)[i])
                ==> 0 < i < cleaned(m, s).len() - 1 && cleaned(m, s)[i - 1] == ' ' && cleaned(
                m,
                s,
            )[i + 1] == ' ',
    decreases s.len(),
{
    let f = |c: char| clean_char(m, c);
    lemma_flat_map_empty(f);
    if s.len() == 0 {
        assert(s == Seq::<char>::empty());
    } else {
        let rest = s.drop_last();
        lemma_ideographs_are_spaced(m, rest);
        assert(s == rest.push(s.last()));
        rest.lemma_flat_map_push(f, s.last());
        let before = cleaned(m, rest);
        let here = clean_char(m, s.last());
        assert(cleaned(m, s) == before + here);
        assert forall|i: int|
            0 <= i < cleaned(m, s).len() && unicode::chinese_char(
                #[trigger] cleaned(m, s)[i],
            ) implies 0 < i < cleaned(m, s).len() - 1 && cleaned(m, s)[i - 1] == ' ' && cleaned(
            m,
            s,
        )[i + 1] == ' ' by {
            if i < before.len() {
                assert(cleaned(m, s)[i] == before[i]);
            } else {
                assert(cleaned(m, s)[i] == here[i - before.len()]);
            }
        }
    }
}

// --- Laws on single characters -----------------------------------------------
/// Cleaning goes character by character: no character has a say in what becomes of another.
pub proof fn lemma_cleaning_is_by_character(m: model::Model, a: Seq<char>, b: Seq<char>)
    ensures
        cleaned(m, a + b) == cleaned(m, a) + cleaned(m, b),
{
    lemma_flat_map_concat(a, b, |c: char| clean_char(m, c));
}

/// What cleaning makes of each character. With cleaning on, NUL, the replacement character and
/// control characters go, and white space becomes a space. An ideograph that stays gets a space on
/// either side, where ideographs are spaced. All else stays as it is.
pub proof fn lemma_cleaned_character(m: model::Model, c: char)
    ensures
        ({
            let r = c as u32;
            let gone = m.clean_text && (r == 0 || r == 0xfffd || if r <= 0x7f {
                (r <= 0x1f && r != 9 && r != 10 && r != 13) || r == 0x7f
            } else {
                unicode::category_other(c)
            });
            let space = m.clean_text && !gone && (9 <= r <= 13 || r == 32 || r == 0x85 || r == 0xa0
                || r == 0x1680 || 0x2000 <= r <= 0x200a || r == 0x2028 || r == 0x2029 || r == 0x202f
                || r == 0x205f || r == 0x3000);
            let ideograph = 0x3400 <= r <= 0x4dbf || 0x4e00 <= r <= 0x9fff || 0xf900 <= r <= 0xfaff
                || 0x20000 <= r <= 0x2a6df || 0x2a700 <= r <= 0x2b81f || 0x2b920 <= r <= 0x2ceaf
                || 0x2f800 <= r <= 0x2fa1f;
            &&& gone ==> cleaned(m, seq![c]) == Seq::<char>::empty()
            &&& space ==> cleaned(m, seq![c]) == seq![' ']
            &&& !gone && !space && ideograph && m.handle_chinese_chars ==> cleaned(m, seq![c])
                == seq![' ', c, ' ']
            &&& !gone && !space && !(ideograph && m.handle_chinese_chars) ==> cleaned(m, seq![c])
                == seq![c]
        }),
{
    let f = |c: char| clean_char(m, c);
    seq![c].lemma_flat_map_singleton(f);
}

/// Where accents are kept, folding goes character by character, and every character of every script
/// is put in lower case where that is asked for, and else left as it is.
pub proof fn lemma_folding_is_by_character(m: model::Model, a: Seq<char>, b: Seq<char>, c: char)
    requires
        !m.strip_accents,
    ensures
        folded(m, a + b) == folded(m, a) + folded(m, b),
        !m.lowercase ==> folded(m, seq![c]) == seq![c],
        m.lowercase && c as u32 > 0x7f ==> folded(m, seq![c]) == unicode::lowercase_mapping(c),
        m.lowercase && 65 <= c as u32 <= 90 ==> folded(m, seq![c]) == seq![
            ((c as u32) + 32) as char,
        ],
        m.lowercase && c as u32 <= 0x7f && !(65 <= c as u32 <= 90) ==> folded(m, seq![c])
            == seq![c],
{
    let g = |c: char| fold_char(m, c);
    lemma_flat_map_concat(a, b, g);
    seq![c].lemma_flat_map_singleton(g);
}

/// Dropping characters while mapping is dropping them first.
proof fn lemma_flat_map_filtered(
    s: Seq<char>,
    g: spec_fn(char) -> Seq<char>,
    kept: spec_fn(char) -> bool,
    h: spec_fn(char) -> Seq<char>,
)
    requires
        forall|c: char| kept(c) ==> #[trigger] g(c) == h(c),
        forall|c: char| !kept(c) ==> #[trigger] g(c) == Seq::<char>::empty(),
    ensures
        s.flat_map(g) == s.filter(kept).flat_map(h),
    decreases s.len(),
{
    reveal(Seq::filter);
    lemma_flat_map_empty(g);
    lemma_flat_map_empty(h);
    if s.len() == 0 {
        assert(s == Seq::<char>::empty());
    } else {
        let rest = s.drop_last();
        let c = s.last();
        lemma_flat_map_filtered(rest, g, kept, h);
        assert(s == rest.push(c));
        rest.lemma_flat_map_push(g, c);
        assert(g(c) == if kept(c) {
            h(c)
        } else {
            Seq::<char>::empty()
        });
        if kept(c) {
            rest.filter(kept).lemma_flat_map_push(h, c);
            assert(s.filter(kept) == rest.filter(kept).push(c));
        } else {
            assert(s.filter(kept) == rest.filter(kept));
        }
    }
}

/// Where accents are stripped, the text is decomposed, which leaves all-ASCII text alone; its
/// nonspacing marks go, and no other character does; and every character that is left, of every
/// script, is put in lower case where that is asked for.
pub proof fn lemma_folding_strips_marks_only(m: model::Model, s: Seq<char>)
    requires
        m.strip_accents,
    ensures
        ({
            let decomposed = if forall|i: int| 0 <= i < s.len() ==> '\0' <= #[trigger] s[i]
                <= '\u{7f}' {
                s
            } else {
                unicode::canonical_decomposition(s)
            };
            folded(m, s) == decomposed.filter(
                |c: char| c <= '\u{7f}' || !unicode::category_mark_nonspacing(c),
            ).flat_map(
                |c: char|
                    if !m.lowercase {
                        seq![c]
                    } else if c > '\u{7f}' {
                        unicode::lowercase_mapping(c)
                    } else if 'A' <= c <= 'Z' {
                        seq![((c as u32) + 32) as char]
                    } else {
                        seq![c]
                    },
            )
        }),
{
    let g = |c: char| fold_char(m, c);
    let kept = |c: char| c <= '\u{7f}' || !unicode::category_mark_nonspacing(c);
    let h = |c: char|
        if !m.lowercase {
            seq![c]
        } else if c > '\u{7f}' {
            unicode::lowercase_mapping(c)
        } else if 'A' <= c <= 'Z' {
            seq![((c as u32) + 32) as char]
        } else {
            seq![c]
        };
    unicode::lemma_decomposition(s);
    lemma_flat_map_filtered(unicode::nfd(s), g, kept, h);
}

/// Trimming takes a part of the text: what it leaves out at either end is all dropped, and what it
/// keeps neither starts nor ends with a character that is.
proof fn lemma_trimmed_part(s: Seq<char>, drop: spec_fn(char) -> bool) -> (ends: (int, int))
    ensures
        0 <= ends.0 <= ends.1 <= s.len(),
        trim_end(trim_start(s, drop), drop) == s.subrange(ends.0, ends.1),
        forall|k: int| 0 <= k < ends.0 || ends.1 <= k < s.len() ==> drop(#[trigger] s[k]),
        ends.0 < ends.1 ==> !drop(s[ends.0]) && !drop(s[ends.1 - 1]),
{
    let from = lemma_trimmed_start(s, drop);
    let kept = s.skip(from);
    let to = lemma_trimmed_end(kept, drop);
    assert(kept.take(to) == s.subrange(from, from + to));
    assert forall|k: int| 0 <= k < from || from + to <= k < s.len() implies drop(
        #[trigger] s[k],
    ) by {
        if k >= from {
            assert(kept[k - from] == s[k]);
        }
    }
    (from, from + to)
}

proof fn lemma_trimmed_start(s: Seq<char>, drop: spec_fn(char) -> bool) -> (from: int)
    ensures
        0 <= from <= s.len(),
        trim_start(s, drop) == s.skip(from),
        forall|k: int| 0 <= k < from ==> drop(#[trigger] s[k]),
        from < s.len() ==> !drop(s[from]),
    decreases s.len(),
{
    if s.len() > 0 && drop(s[0]) {
        let rest = s.drop_first();
        let later = lemma_trimmed_start(rest, drop);
        assert(rest.skip(later) == s.skip(later + 1));
        assert forall|k: int| 0 <= k < later + 1 implies drop(#[trigger] s[k]) by {
            if k > 0 {
                assert(rest[k - 1] == s[k]);
            }
        }
        later + 1
    } else {
        assert(s.skip(0) == s);
        0
    }
}

proof fn lemma_trimmed_end(s: Seq<char>, drop: spec_fn(char) -> bool) -> (to: int)
    ensures
        0 <= to <= s.len(),
        trim_end(s, drop) == s.take(to),
        forall|k: int| to <= k < s.len() ==> drop(#[trigger] s[k]),
        to > 0 ==> !drop(s[to - 1]),
    decreases s.len(),
{
    if s.len() > 0 && drop(s.last()) {
        let rest = s.drop_last();
        let to = lemma_trimmed_end(rest, drop);
        assert(rest.take(to) == s.take(to));
        assert forall|k: int| to <= k < s.len() implies drop(#[trigger] s[k]) by {
            if k < rest.len() {
                assert(rest[k] == s[k]);
            }
        }
        to
    } else {
        assert(s.take(s.len() as int) == s);
        s.len() as int
    }
}

/// Normalized text is a part of the cleaned and folded text: only white space is left out, at either
/// end, and none is left there.
pub proof fn lemma_normal_form_is_a_part(m: model::Model, s: Seq<char>) -> (ends: (int, int))
    ensures
        ({
            let whole = folded(m, cleaned(m, s));
            let (i, j) = ends;
            &&& 0 <= i <= j <= whole.len()
            &&& normal_form(m, s) == whole.subrange(i, j)
            &&& forall|k: int|
                0 <= k < i || j <= k < whole.len() ==> unicode::white_space(#[trigger] whole[k])
            &&& i < j ==> !unicode::white_space(whole[i]) && !unicode::white_space(whole[j - 1])
        }),
{
    let ws = |c: char| unicode::white_space(c);
    let whole = folded(m, cleaned(m, s));
    let (i, j) = lemma_trimmed_part(whole, ws);
    assert forall|k: int| 0 <= k < i || j <= k < whole.len() implies unicode::white_space(
        #[trigger] whole[k],
    ) by {
        assert(ws(whole[k]));
    }
    (i, j)
}

proof fn lemma_flat_map_of_singles(s: Seq<char>, f: spec_fn(char) -> char)
    ensures
        s.flat_map(|c: char| seq![f(c)]) == s.map_values(f),
    decreases s.len(),
{
    let g = |c: char| seq![f(c)];
    lemma_flat_map_empty(g);
    if s.len() == 0 {
        assert(s == Seq::<char>::empty());
        assert(s.map_values(f) == Seq::<char>::empty());
    } else {
        let rest = s.drop_last();
        lemma_flat_map_of_singles(rest, f);
        assert(s == rest.push(s.last()));
        rest.lemma_flat_map_push(g, s.last());
        assert(s.map_values(f) == rest.map_values(f).push(f(s.last())));
    }
}

/// The byte-wise pass drops the ASCII control characters, where text is cleaned, makes tab, line
/// feed and carriage return a space, puts ASCII capitals in lower case, where that is asked for,
/// and trims ASCII white space; it leaves every other character as it is and where it is.
pub proof fn lemma_ascii_form_is_a_part(m: model::Model, s: Seq<char>) -> (ends: (int, int))
    ensures
        ({
            let whole = s.filter(
                |c: char|
                    !m.clean_text || c == '\u{9}' || c == '\u{a}' || c == '\u{d}' || (c >= '\u{20}'
                        && c != '\u{7f}'),
            ).map_values(
                |c: char|
                    if m.clean_text && (c == '\u{9}' || c == '\u{a}' || c == '\u{d}') {
                        ' '
                    } else if m.lowercase && 'A' <= c <= 'Z' {
                        ((c as u32) + 32) as char
                    } else {
                        c
                    },
            );
            let (i, j) = ends;
            &&& 0 <= i <= j <= whole.len()
            &&& ascii_form(m, s) == whole.subrange(i, j)
            &&& forall|k: int|
                0 <= k < i || j <= k < whole.len() ==> (#[trigger] whole[k] == ' ' || '\u{9}'
                    <= whole[k] <= '\u{d}')
            &&& i < j ==> whole[i] != ' ' && !('\u{9}' <= whole[i] <= '\u{d}') && whole[j - 1]
                != ' ' && !('\u{9}' <= whole[j - 1] <= '\u{d}')
        }),
{
    let g = |c: char| ascii_fold(m, c);
    let kept = |c: char|
        !m.clean_text || c == '\u{9}' || c == '\u{a}' || c == '\u{d}' || (c >= '\u{20}' && c
            != '\u{7f}');
    let low = |c: char|
        if m.clean_text && (c == '\u{9}' || c == '\u{a}' || c == '\u{d}') {
            ' '
        } else if m.lowercase && 'A' <= c <= 'Z' {
            ((c as u32) + 32) as char
        } else {
            c
        };
    let h = |c: char| seq![low(c)];
    lemma_flat_map_filtered(s, g, kept, h);
    lemma_flat_map_of_singles(s.filter(kept), low);
    let whole = s.filter(kept).map_values(low);
    assert(s.flat_map(g) == whole);
    let ws = |c: char| ascii_space(c);
    let (i, j) = lemma_trimmed_part(whole, ws);
    assert(ascii_form(m, s) == whole.subrange(i, j));
    assert forall|k: int| 0 <= k < i || j <= k < whole.len() implies (#[trigger] whole[k] == ' '
        || '\u{9}' <= whole[k] <= '\u{d}') by {
        assert(ws(whole[k]));
    }
    if i < j {
        assert(!ws(whole[i]) && !ws(whole[j - 1]));
    }
    (i, j)
}

} // verus!
