//! Splitting, normalizing, words and tokens.
use fast_wordpiece::{pre_tokenize, FastWordPiece, Piece};

/// A tokenizer with these normalizer settings, vocabulary and added tokens, all in JSON.
fn make(norm: &str, vocab: &str, added: &str) -> FastWordPiece {
    FastWordPiece::from_text(&format!(
        "{{\"model\":{{\"type\":\"WordPiece\",\"vocab\":{{{}}}}},\"pre_tokenizer\":{{\"type\":\"BertPreTokenizer\"}},\
         \"normalizer\":{{\"type\":\"BertNormalizer\"{}}},\"added_tokens\":[{}]}}",
        vocab, norm, added
    ))
    .unwrap()
}

fn token(id: u32, content: &str) -> String {
    format!("{{\"id\":{},\"content\":\"{}\",\"normalized\":false}}", id, content)
}

/// Pieces as text: an added token as `#` and its id.
fn show(pieces: &[Piece]) -> Vec<String> {
    pieces
        .iter()
        .map(|p| match p {
            Piece::Added(id) => format!("#{}", id),
            Piece::Text(t) => t.to_string(),
        })
        .collect()
}

#[test]
fn words_of_a_text() {
    assert_eq!(pre_tokenize("Hello, world!"), vec!["Hello", ",", "world", "!"]);
    assert_eq!(pre_tokenize(""), Vec::<&str>::new());
    assert_eq!(pre_tokenize(" \t\u{a0}\u{3000}"), Vec::<&str>::new());
    assert_eq!(pre_tokenize("a\u{2009}b"), vec!["a", "b"]);
    assert_eq!(pre_tokenize("$5.00"), vec!["$", "5", ".", "00"]);
    assert_eq!(pre_tokenize("«é»—ü"), vec!["«", "é", "»", "—", "ü"]);
    assert_eq!(pre_tokenize("a≤b €5"), vec!["a≤b", "€5"]);
    assert_eq!(pre_tokenize("，你好。"), vec!["，", "你好", "。"]);
    assert_eq!(pre_tokenize("a𝒳!"), vec!["a𝒳", "!"]);
}

#[test]
fn characters_of_every_width_are_stepped_over() {
    for c in ['a', '\u{7f}', '\u{80}', '\u{7ff}', '\u{800}', '\u{d7ff}', '\u{e000}', '\u{ffff}', '\u{10000}', '\u{10ffff}'] {
        let text = format!("{c}!{c} {c}");
        let word = c.to_string();
        assert_eq!(pre_tokenize(&text), vec![word.as_str(), "!", word.as_str(), word.as_str()]);
        let f = make("", "", &token(1, "[A]"));
        assert_eq!(show(&f.split_added_tokens(&format!("{c}[A]{c}{c}"))), vec![word.clone(), "#1".to_string(), word.repeat(2)]);
    }
}

#[test]
fn words_keep_all_but_white_space() {
    let text = " a,b  c\u{3000}«d»\n…é ";
    let joined: String = pre_tokenize(text).concat();
    let kept: String = text.chars().filter(|c| !c.is_whitespace()).collect();
    assert_eq!(joined, kept);
}

#[test]
fn normalize_cleans_folds_and_trims() {
    let f = make("", "", "");
    assert_eq!(f.normalize(""), "");
    assert_eq!(f.normalize("  A\tB\u{7}\u{7f} "), "a b");
    assert_eq!(f.normalize("a\u{b}b"), "ab");
    assert_eq!(f.normalize("Ünïçödé Straße"), "unicode straße");
    assert_eq!(f.normalize("İ"), "i");
    assert_eq!(f.normalize("ΟΔΟΣ"), "οδοσ");
    assert_eq!(f.normalize("a\u{a0}b\u{fffd}\u{200b}"), "a b");
    assert_eq!(f.normalize("x中y"), "x 中 y");
    assert_eq!(f.normalize("中"), "中");
    assert_eq!(f.normalize("\u{1}\u{2}"), "");
}

#[test]
fn normalize_leaves_what_the_settings_leave() {
    let f = make(
        ",\"clean_text\":false,\"handle_chinese_chars\":false,\"strip_accents\":false,\"lowercase\":false",
        "",
        "",
    );
    assert_eq!(f.normalize("A\u{7}B\tC"), "A\u{7}B\tC");
    assert_eq!(f.normalize("É中\u{fffd}"), "É中\u{fffd}");
    assert_eq!(f.normalize("\u{a0}É\u{3000}"), "É");
    assert_eq!(f.normalize("\u{b}x\u{c}"), "x");
    // Stripping alone leaves text decomposed, without its nonspacing marks, and in its case.
    let f = make(",\"strip_accents\":true,\"lowercase\":false", "", "");
    assert_eq!(f.normalize("Éa\u{301}"), "Ea");
    assert_eq!(f.normalize("가"), "\u{1100}\u{1161}");
    // Lower-casing alone leaves accents.
    let f = make(",\"strip_accents\":false", "", "");
    assert_eq!(f.normalize("ÉA"), "éa");
}

#[test]
fn the_two_passes_agree_on_ascii() {
    for norm in ["", ",\"clean_text\":false", ",\"lowercase\":false", ",\"clean_text\":false,\"lowercase\":false"] {
        let f = make(norm, "", "");
        let all: String = (0u8..0x80).map(|b| b as char).collect();
        for text in [all.as_str(), "", "  Ab\tC ", "\u{b}x\u{c}", "\u{7f}Z"] {
            assert_eq!(f.normalize_ascii(text), f.normalize_unicode(text));
            assert_eq!(f.normalize_ascii(text), f.normalize(text));
        }
    }
}

#[test]
fn the_ascii_pass_leaves_other_characters() {
    let f = make("", "", "");
    assert_eq!(f.normalize_ascii(" É\tA\u{a0}中 "), "É a\u{a0}中");
    assert_eq!(f.normalize_unicode(" É\tA\u{a0}中 "), "e a  中");
}

#[test]
fn added_tokens_are_found_first_and_longest() {
    let added = [token(1, "[A]"), token(2, "[A][B]"), token(3, "é"), token(4, "[A]")].join(",");
    let f = make("", "\"x\":9", &added);
    assert_eq!(show(&f.split_added_tokens("x[A]y")), vec!["x", "#1", "y"]);
    assert_eq!(show(&f.split_added_tokens("[A][B][A]")), vec!["#2", "#1"]);
    assert_eq!(show(&f.split_added_tokens("[a]")), vec!["[a]"]);
    assert_eq!(show(&f.split_added_tokens("aéb")), vec!["a", "#3", "b"]);
    assert_eq!(show(&f.split_added_tokens("[A")), vec!["[A"]);
    assert_eq!(show(&f.split_added_tokens("")), Vec::<String>::new());
    assert_eq!(f.encode_ids("x[A] é"), vec![9, 1, 3]);
}

#[test]
fn without_added_tokens_all_is_one_text() {
    let f = make("", "", "");
    assert_eq!(show(&f.split_added_tokens("a b")), vec!["a b"]);
    assert_eq!(show(&f.split_added_tokens("")), vec![""]);
}

#[test]
fn no_text_piece_holds_an_added_token() {
    let added = [token(1, "ab"), token(2, "abc"), token(3, "b")].join(",");
    let f = make("", "", &added);
    for text in ["aabbcc", "abcab", "cabac", "ccc", "acb"] {
        let mut rebuilt = String::new();
        for piece in f.split_added_tokens(text) {
            match piece {
                Piece::Added(1) => rebuilt.push_str("ab"),
                Piece::Added(2) => rebuilt.push_str("abc"),
                Piece::Added(_) => rebuilt.push_str("b"),
                Piece::Text(t) => {
                    assert!(!t.is_empty() && !t.contains("ab") && !t.contains("b"));
                    rebuilt.push_str(t);
                }
            }
        }
        assert_eq!(rebuilt, text);
    }
}

#[test]
fn no_added_token_starts_inside_a_text_piece() {
    let added = [token(1, "ab"), token(2, "bcd"), token(3, "d")].join(",");
    let contents = ["", "ab", "bcd", "d"];
    let f = make("", "", &added);
    for text in ["abcd", "cbcbcd", "xbc", "aabbccdd", "bcabcd"] {
        let mut place = 0;
        for piece in f.split_added_tokens(text) {
            match piece {
                Piece::Added(id) => place += contents[id as usize].len(),
                Piece::Text(t) => {
                    for p in place..place + t.len() {
                        assert!(contents[1..].iter().all(|c| !text[p..].starts_with(c)));
                    }
                    place += t.len();
                }
            }
        }
        assert_eq!(place, text.len());
    }
}

#[test]
fn words_are_cut_greedily() {
    let f = make(
        "",
        "\"[UNK]\":0,\"un\":1,\"##aff\":2,\"##able\":3,\"##af\":4,\"##fable\":5,\"é\":6,\"##é\":7,\"a\":8,\"una\":9",
        "",
    );
    let mut out: Vec<u32> = vec![77];
    let mut scratch = String::from("old");
    f.word_to_ids("unaff", &mut out, &mut scratch);
    // "una" is longer than "un", and then nothing fits.
    assert_eq!(out, vec![77, 0]);
    assert_eq!(scratch, "##f");
    f.word_to_ids("unéé", &mut out, &mut scratch);
    assert_eq!(out, vec![77, 0, 1, 7, 7]);
    assert_eq!(scratch, "##é");
    scratch = String::from("old");
    f.word_to_ids("una", &mut out, &mut scratch);
    assert_eq!(out, vec![77, 0, 1, 7, 7, 9]);
    assert_eq!(scratch, "old");
    f.word_to_ids("a", &mut out, &mut scratch);
    f.word_to_ids("z", &mut out, &mut scratch);
    f.word_to_ids("", &mut out, &mut scratch);
    f.word_to_ids("é", &mut out, &mut scratch);
    assert_eq!(out, vec![77, 0, 1, 7, 7, 9, 8, 0, 6]);
    assert_eq!(scratch, "old");
}

#[test]
fn a_failed_word_leaves_one_unknown_token() {
    let f = make("", "\"[UNK]\":0,\"a\":1,\"##b\":2", "");
    let mut out: Vec<u32> = vec![5];
    let mut scratch = String::new();
    f.word_to_ids("abc", &mut out, &mut scratch);
    assert_eq!(out, vec![5, 0]);
    f.push_unk(&mut out);
    assert_eq!(out, vec![5, 0, 0]);
}

#[test]
fn without_an_unknown_token_unknown_words_vanish() {
    let f = make("", "\"a\":1", "");
    assert_eq!(f.encode_ids("a zz a z"), vec![1, 1]);
    let mut out: Vec<u32> = vec![];
    f.push_unk(&mut out);
    assert_eq!(out, Vec::<u32>::new());
}

#[test]
fn large_ids_of_single_character_tokens_are_kept() {
    let f = make("", "\"[UNK]\":0,\"a\":2147483648,\"!\":4294967295,\"bb\":2147483649", "");
    assert_eq!(f.encode_ids("a! bb"), vec![2147483648, 4294967295, 2147483649]);
}

#[test]
fn long_words_are_counted_in_characters() {
    let f = make("", "\"[UNK]\":0,\"é\":1,\"##é\":2", "");
    let norm = make(",\"strip_accents\":false", "\"[UNK]\":0,\"é\":1,\"##é\":2", "");
    let mut out: Vec<u32> = vec![];
    let mut scratch = String::new();
    f.word_to_ids(&"é".repeat(100), &mut out, &mut scratch);
    assert_eq!(out.len(), 100);
    assert_eq!(norm.encode_ids(&"é".repeat(101)), vec![0]);
}

#[test]
fn every_id_is_known() {
    let f = make("", "\"[UNK]\":0,\"a\":1,\"##b\":2,\"!\":3", &token(9, "[X]"));
    for id in f.encode_ids("a ab abc [X]! \u{3000}zz中!") {
        assert!([0, 1, 2, 3, 9].contains(&id));
    }
}

#[test]
fn an_added_token_gives_its_id_and_then_the_rest() {
    let f = make("", "\"[UNK]\":0,\"a\":1,\"b\":2", &token(9, "[X]"));
    let rest = f.encode_ids("a b");
    let mut want: Vec<u32> = vec![9];
    want.extend(rest);
    assert_eq!(f.encode_ids("[X]a b"), want);
    // The same in the middle of a text, even inside a word.
    assert_eq!(f.encode_ids("a[X]b"), vec![1, 9, 2]);
    assert_eq!(f.encode_ids("b a [X] b[X]"), vec![2, 1, 9, 2, 9]);
    assert_eq!(f.encode_ids(""), Vec::<u32>::new());
}

#[test]
fn a_space_separates() {
    let vocab = "\"[UNK]\":0,\"a\":1,\"b\":2,\"##b\":3,\"e\":4,\"u\":5";
    for norm in ["", ",\"clean_text\":false", ",\"strip_accents\":false", ",\"lowercase\":false"] {
        let f = make(norm, vocab, &token(9, "[X]"));
        let parts = ["", "a", "ab", "[X]", "a[X]b", " ", "é", "e\u{301}\u{323}", "\u{301}a", "Ü中", "[X", "\u{a0}b!"];
        for a in parts {
            for b in parts {
                let mut want = f.encode_ids(a);
                want.extend(f.encode_ids(b));
                assert_eq!(f.encode_ids(&format!("{a} {b}")), want, "{a:?} {b:?}");
            }
        }
    }
    // An added token that holds a space spans it.
    let f = make("", vocab, &token(9, "a b"));
    assert_eq!(f.encode_ids("a b"), vec![9]);
    assert_eq!(f.encode_ids("a"), vec![1]);
}

#[test]
fn text_on_either_side_of_a_space_is_decomposed() {
    let f = make(",\"strip_accents\":true,\"lowercase\":false", "", "");
    assert_eq!(f.normalize("é ü"), "e u");
    assert_eq!(f.normalize("가 é"), "\u{1100}\u{1161} e");
}
