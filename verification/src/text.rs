//! Positions in UTF-8 text: how the byte offsets of a string relate to its characters.
use vstd::prelude::*;

verus! {

/// The byte offset at which character `k` of `s` starts in the UTF-8 form of `s`.
pub open spec fn byte_pos(s: Seq<char>, k: int) -> nat {
    vstd::utf8::encode_utf8(s.take(k)).len()
}

/// The number of bytes in the UTF-8 form of `s`.
pub open spec fn byte_len(s: Seq<char>) -> nat {
    vstd::utf8::encode_utf8(s).len()
}

/// `p` is how `s` begins.
pub open spec fn starts_with(s: Seq<char>, p: Seq<char>) -> bool {
    p.len() <= s.len() && s.take(p.len() as int) == p
}

pub(crate) proof fn lemma_encode_concat(a: Seq<char>, b: Seq<char>)
    ensures
        vstd::utf8::encode_utf8(a + b) == vstd::utf8::encode_utf8(a) + vstd::utf8::encode_utf8(b),
    decreases a.len(),
{
    if a.len() == 0 {
        assert(a + b == b);
    } else {
        lemma_encode_concat(a.drop_first(), b);
        assert((a + b).drop_first() == a.drop_first() + b);
        assert((a + b)[0] == a[0]);
    }
}

pub(crate) proof fn lemma_encode_injective(a: Seq<char>, b: Seq<char>)
    requires
        vstd::utf8::encode_utf8(a) == vstd::utf8::encode_utf8(b),
    ensures
        a == b,
{
    vstd::utf8::encode_utf8_decode_utf8(a);
    vstd::utf8::encode_utf8_decode_utf8(b);
}

/// A character takes one to four bytes.
pub(crate) proof fn lemma_char_width(c: char)
    ensures
        1 <= vstd::utf8::encode_scalar(c as u32).len() <= 4,
        vstd::utf8::encode_scalar(c as u32).len() == 1 <==> (c as u32) < 0x80,
{
}

pub(crate) proof fn lemma_byte_pos_ends(s: Seq<char>)
    ensures
        byte_pos(s, 0) == 0,
        byte_pos(s, s.len() as int) == byte_len(s),
{
    assert(s.take(0) == Seq::<char>::empty());
    assert(s.take(s.len() as int) == s);
}

pub(crate) proof fn lemma_byte_pos_step(s: Seq<char>, k: int)
    requires
        0 <= k < s.len(),
    ensures
        byte_pos(s, k + 1) == byte_pos(s, k) + vstd::utf8::encode_scalar(s[k] as u32).len(),
        byte_pos(s, k) < byte_pos(s, k + 1) <= byte_pos(s, k) + 4,
{
    let one = seq![s[k]];
    assert(s.take(k + 1) == s.take(k) + one);
    lemma_encode_concat(s.take(k), one);
    assert(one.drop_first() == Seq::<char>::empty());
    assert(vstd::utf8::encode_utf8(one.drop_first()) == Seq::<u8>::empty());
    assert(vstd::utf8::encode_utf8(one) == vstd::utf8::encode_scalar(s[k] as u32));
    lemma_char_width(s[k]);
}

/// A later character starts at a later byte, one byte on at least for each character between.
pub(crate) proof fn lemma_byte_pos_order(s: Seq<char>, i: int, j: int)
    requires
        0 <= i <= j <= s.len(),
    ensures
        byte_pos(s, i) + (j - i) <= byte_pos(s, j) <= byte_len(s),
    decreases s.len() - i,
{
    lemma_byte_pos_ends(s);
    if i < j {
        lemma_byte_pos_step(s, i);
        lemma_byte_pos_order(s, i + 1, j);
    } else if i < s.len() {
        lemma_byte_pos_step(s, i);
        lemma_byte_pos_order(s, i + 1, s.len() as int);
    }
}

/// A string has no more characters than bytes.
pub(crate) proof fn lemma_len_at_most_byte_len(s: Seq<char>)
    ensures
        s.len() <= byte_len(s),
        s.len() == 0 <==> byte_len(s) == 0,
{
    lemma_byte_pos_ends(s);
    lemma_byte_pos_order(s, 0, s.len() as int);
}

pub(crate) proof fn lemma_byte_pos_take(s: Seq<char>, i: int, j: int)
    requires
        0 <= i <= j <= s.len(),
    ensures
        byte_pos(s.take(j), i) == byte_pos(s, i),
{
    assert(s.take(j).take(i) == s.take(i));
}

/// The bytes of `s` up to character `k`, and from there on.
pub(crate) proof fn lemma_split_bytes(s: Seq<char>, k: int)
    requires
        0 <= k <= s.len(),
    ensures
        byte_pos(s, k) <= byte_len(s),
        vstd::utf8::encode_utf8(s).subrange(0, byte_pos(s, k) as int) == vstd::utf8::encode_utf8(
            s.take(k),
        ),
        vstd::utf8::encode_utf8(s).subrange(byte_pos(s, k) as int, byte_len(s) as int)
            == vstd::utf8::encode_utf8(s.skip(k)),
{
    assert(s == s.take(k) + s.skip(k));
    lemma_encode_concat(s.take(k), s.skip(k));
}

/// Where a character starts, the string can be cut.
pub(crate) proof fn lemma_boundary(s: Seq<char>, k: int)
    requires
        0 <= k <= s.len(),
    ensures
        vstd::utf8::is_char_boundary(vstd::utf8::encode_utf8(s), byte_pos(s, k) as int),
    decreases k,
{
    let bytes = vstd::utf8::encode_utf8(s);
    vstd::utf8::encode_utf8_valid_utf8(s);
    if k == 0 {
        lemma_byte_pos_ends(s);
    } else {
        let rest = s.drop_first();
        vstd::utf8::encode_utf8_first_scalar(s);
        assert(vstd::utf8::pop_first_scalar(bytes) == vstd::utf8::encode_utf8(rest));
        lemma_boundary(rest, k - 1);
        assert(s.take(k) == seq![s[0]] + rest.take(k - 1));
        assert(s.take(k).drop_first() == rest.take(k - 1));
        assert(byte_pos(s, k) == vstd::utf8::encode_scalar(s[0] as u32).len() + byte_pos(
            rest,
            k - 1,
        ));
        lemma_split_bytes(s, k);
    }
}

/// Only the first byte of a character is where the string can be cut.
pub(crate) proof fn lemma_no_boundary_inside(s: Seq<char>, k: int, b: int)
    requires
        0 <= k < s.len(),
        byte_pos(s, k) < b < byte_pos(s, k + 1),
    ensures
        !vstd::utf8::is_char_boundary(vstd::utf8::encode_utf8(s), b),
{
    let bytes = vstd::utf8::encode_utf8(s);
    let c = s[k] as u32;
    lemma_byte_pos_step(s, k);
    lemma_split_bytes(s, k);
    lemma_byte_pos_order(s, k + 1, s.len() as int);
    vstd::utf8::encode_utf8_valid_utf8(s);
    let d = b - byte_pos(s, k);
    let tail = vstd::utf8::encode_utf8(s.skip(k));
    assert(tail[d] == vstd::utf8::encode_scalar(c)[d]);
    assert(bytes[b] == tail[d]);
    assert(0x80 <= 0x80u8 | (c & 0x3F) as u8 <= 0xbf) by (bit_vector);
    assert(0x80 <= 0x80u8 | ((c >> 6) & 0x3F) as u8 <= 0xbf) by (bit_vector);
    assert(0x80 <= 0x80u8 | ((c >> 12) & 0x3F) as u8 <= 0xbf) by (bit_vector);
    assert(vstd::utf8::is_continuation_byte(bytes[b]));
    vstd::utf8::is_char_boundary_iff_not_is_continuation_byte(bytes, b);
}

/// The byte at which character `k` starts: below 0x80 it is the character itself, and otherwise
/// the character is beyond ASCII.
pub(crate) proof fn lemma_first_byte(s: Seq<char>, k: int)
    requires
        0 <= k < s.len(),
    ensures
        byte_pos(s, k) < byte_len(s),
        vstd::utf8::encode_utf8(s)[byte_pos(s, k) as int] == vstd::utf8::encode_scalar(
            s[k] as u32,
        )[0],
        (s[k] as u32) < 0x80 <==> vstd::utf8::encode_utf8(s)[byte_pos(s, k) as int] < 0x80,
        (s[k] as u32) < 0x80 ==> vstd::utf8::encode_utf8(s)[byte_pos(s, k) as int] as char == s[k],
{
    let c = s[k] as u32;
    vstd::utf8::char_u32_cast(s[k], c);
    lemma_byte_pos_step(s, k);
    lemma_byte_pos_order(s, k + 1, s.len() as int);
    lemma_split_bytes(s, k);
    let tail = vstd::utf8::encode_utf8(s.skip(k));
    assert(tail[0] == vstd::utf8::encode_scalar(c)[0]);
    assert(c < 0x80 ==> (c & 0x7F) as u8 as u32 == c && ((c & 0x7F) as u8) < 0x80u8) by (bit_vector);
    assert(0xC0u8 | ((c >> 6) & 0x1F) as u8 >= 0x80u8) by (bit_vector);
    assert(0xE0u8 | ((c >> 12) & 0x0F) as u8 >= 0x80u8) by (bit_vector);
    assert(0xF0u8 | ((c >> 18) & 0x7) as u8 >= 0x80u8) by (bit_vector);
}

/// `p` begins `s` exactly if the bytes of `p` begin those of `s`.
pub(crate) proof fn lemma_starts_with_bytes(s: Seq<char>, p: Seq<char>)
    ensures
        starts_with(s, p) <==> byte_len(p) <= byte_len(s) && vstd::utf8::encode_utf8(s).subrange(
            0,
            byte_len(p) as int,
        ) == vstd::utf8::encode_utf8(p),
    decreases p.len(),
{
    let sb = vstd::utf8::encode_utf8(s);
    let pb = vstd::utf8::encode_utf8(p);
    if starts_with(s, p) {
        lemma_split_bytes(s, p.len() as int);
    } else if byte_len(p) <= byte_len(s) && sb.subrange(0, byte_len(p) as int) == pb {
        if p.len() == 0 {
            assert(s.take(0) == p);
        } else {
            lemma_len_at_most_byte_len(p);
            lemma_len_at_most_byte_len(s);
            vstd::utf8::encode_utf8_first_scalar(p);
            vstd::utf8::encode_utf8_first_scalar(s);
            assert(forall|d: int| 0 <= d < pb.len() ==> pb[d] == #[trigger] sb.subrange(
                0,
                byte_len(p) as int,
            )[d]);
            assert(pb[0] == sb[0]);
            vstd::utf8::char_u32_cast(p[0], p[0] as u32);
            vstd::utf8::char_u32_cast(s[0], s[0] as u32);
            assert(p[0] == s[0]);
            let w = vstd::utf8::encode_scalar(p[0] as u32).len() as int;
            let sr = vstd::utf8::encode_utf8(s.drop_first());
            let pr = vstd::utf8::encode_utf8(p.drop_first());
            assert(sr.subrange(0, pr.len() as int) =~= pr) by {
                assert forall|d: int| 0 <= d < pr.len() implies sr[d] == pr[d] by {
                    assert(pr[d] == pb[w + d]);
                    assert(sr[d] == sb[w + d]);
                }
            }
            lemma_starts_with_bytes(s.drop_first(), p.drop_first());
            assert(s.take(p.len() as int) =~= p) by {
                assert forall|d: int| 0 <= d < p.len() implies s[d] == p[d] by {
                    if d > 0 {
                        assert(s.drop_first().take(p.len() - 1)[d - 1] == p.drop_first()[d - 1]);
                    }
                }
            }
        }
    }
}

/// `String::push` of std: appends `c` to `s`.
pub assume_specification[ String::push ](s: &mut String, c: char)
    ensures
        final(s)@ == old(s)@.push(c),
;

/// `String::clear` of std: leaves nothing in `s`.
pub assume_specification[ String::clear ](s: &mut String)
    ensures
        final(s)@ == Seq::<char>::empty(),
;

/// The characters of `s`.
pub(crate) fn collect_chars(s: &str) -> (chars: Vec<char>)
    ensures
        chars@ == s@,
{
    let mut chars: Vec<char> = Vec::new();
    for c in it: s.chars()
        invariant
            chars@ == s@.take(it.index()),
            it.seq() == s@,
    {
        chars.push(c);
    }
    chars
}

/// The characters `from` to `to` of `chars`, as a string.
pub(crate) fn string_of(chars: &Vec<char>, from: usize, to: usize) -> (s: String)
    requires
        from <= to <= chars@.len(),
    ensures
        s@ == chars@.subrange(from as int, to as int),
{
    let mut s = String::new();
    let mut i: usize = from;
    while i < to
        invariant
            from <= i <= to <= chars@.len(),
            s@ == chars@.subrange(from as int, i as int),
        decreases to - i,
    {
        s.push(chars[i]);
        i = i + 1;
    }
    s
}

/// The part of `s` from byte `from` up to byte `to`, which are where characters `i` and `j` start.
pub(crate) fn slice<'a>(
    s: &'a str,
    from: usize,
    to: usize,
    Ghost(i): Ghost<int>,
    Ghost(j): Ghost<int>,
) -> (part: &'a str)
    requires
        0 <= i <= j <= s@.len(),
        from == byte_pos(s@, i),
        to == byte_pos(s@, j),
    ensures
        part@ == s@.subrange(i, j),
{
    proof {
        lemma_boundary(s@, j);
        lemma_split_bytes(s@, j);
    }
    let (head, _rest) = s.split_at(to);
    proof {
        lemma_encode_injective(head@, s@.take(j));
        lemma_byte_pos_take(s@, i, j);
        lemma_boundary(head@, i);
        lemma_split_bytes(head@, i);
    }
    let (_start, part) = head.split_at(from);
    proof {
        lemma_encode_injective(part@, head@.skip(i));
        assert(head@.skip(i) == s@.subrange(i, j));
    }
    part
}

/// The character of `s` that starts at byte `pos`, which is where character `k` starts.
pub(crate) fn char_at(s: &str, pos: usize, Ghost(k): Ghost<int>) -> (c: char)
    requires
        0 <= k < s@.len(),
        pos == byte_pos(s@, k),
    ensures
        c == s@[k],
{
    let n: usize = str_len(s);
    proof {
        lemma_byte_pos_ends(s@);
    }
    let rest = slice(s, pos, n, Ghost(k), Ghost(s@.len() as int));
    let mut it = rest.chars();
    it.next().unwrap()
}

/// The number of bytes in the UTF-8 form of `c`.
pub(crate) fn char_width(c: char) -> (n: usize)
    ensures
        n == vstd::utf8::encode_scalar(c as u32).len(),
{
    let v: u32 = c as u32;
    if v <= 0x7f {
        1
    } else if v <= 0x7ff {
        2
    } else if v <= 0xffff {
        3
    } else {
        4
    }
}

/// The number of bytes in `s`.
pub(crate) fn str_len(s: &str) -> (n: usize)
    ensures
        n == byte_len(s@),
{
    s.as_bytes().len()
}

/// Whether `p` stands in `s` at byte `from`, which is where character `k` starts.
pub(crate) fn starts_with_at(s: &str, from: usize, p: &str, Ghost(k): Ghost<int>) -> (yes: bool)
    requires
        0 <= k <= s@.len(),
        from == byte_pos(s@, k),
    ensures
        yes == starts_with(s@.skip(k), p@),
{
    let sb = s.as_bytes();
    let pb = p.as_bytes();
    let ghost rest = s@.skip(k);
    proof {
        lemma_split_bytes(s@, k);
        lemma_starts_with_bytes(rest, p@);
        assert(forall|d: int|
            0 <= d < byte_len(rest) ==> vstd::utf8::encode_utf8(rest)[d] == #[trigger] sb@[from
                + d]);
    }
    let total: usize = sb.len();
    if total - from < pb.len() {
        return false;
    }
    let mut d: usize = 0;
    while d < pb.len()
        invariant
            0 <= d <= pb@.len(),
            from + pb@.len() <= total == sb@.len(),
            pb@ == vstd::utf8::encode_utf8(p@),
            byte_len(rest) == sb@.len() - from,
            forall|e: int|
                0 <= e < byte_len(rest) ==> vstd::utf8::encode_utf8(rest)[e] == #[trigger] sb@[from
                    + e],
            starts_with(rest, p@) <==> vstd::utf8::encode_utf8(rest).subrange(0, pb@.len() as int)
                == pb@,
            forall|e: int| 0 <= e < d ==> sb@[from + e] == pb@[e],
            rest == s@.skip(k),
        decreases pb@.len() - d,
    {
        if sb[from + d] != pb[d] {
            assert(vstd::utf8::encode_utf8(rest)[d as int] == sb@[from + d]);
            assert(vstd::utf8::encode_utf8(rest).subrange(0, pb@.len() as int)[d as int]
                != pb@[d as int]);
            return false;
        }
        d += 1;
    }
    assert(vstd::utf8::encode_utf8(rest).subrange(0, pb@.len() as int) =~= pb@) by {
        assert forall|e: int| 0 <= e < pb@.len() implies vstd::utf8::encode_utf8(rest)[e]
            == pb@[e] by {
            assert(vstd::utf8::encode_utf8(rest)[e] == sb@[from + e]);
        }
    }
    true
}

/// Whether `a` and `b` hold the same characters.
pub(crate) fn str_eq(a: &str, b: &str) -> (same: bool)
    ensures
        same == (a@ == b@),
{
    proof {
        lemma_byte_pos_ends(a@);
        assert(a@.skip(0) == a@);
        assert(starts_with(a@, b@) && byte_len(a@) == byte_len(b@) ==> a@ == b@) by {
            if starts_with(a@, b@) && byte_len(a@) == byte_len(b@) && b@.len() < a@.len() {
                lemma_split_bytes(a@, b@.len() as int);
                lemma_byte_pos_order(a@, b@.len() as int, a@.len() as int);
            }
        }
        assert(a@.take(a@.len() as int) == a@);
    }
    str_len(a) == str_len(b) && starts_with_at(a, 0, b, Ghost(0))
}

} // verus!
