//! The ids are those that the `tokenizers` crate gives.
use fast_wordpiece::FastWordPiece;
use std::str::FromStr;
use tokenizers::Tokenizer;

/// The settings of a BertNormalizer.
struct Settings {
    clean_text: bool,
    handle_chinese_chars: bool,
    strip_accents: Option<bool>,
    lowercase: bool,
}

fn quoted(s: &str) -> String {
    serde_json::to_string(s).unwrap()
}

fn vocab() -> Vec<String> {
    let mut tokens: Vec<String> = Vec::new();
    for t in ["[PAD]", "[UNK]", "[CLS]", "[SEP]", "[MASK]"] {
        tokens.push(t.to_string());
    }
    for b in 0x21u8..0x7f {
        tokens.push((b as char).to_string());
    }
    for c in "abcdefghijklmnopqrstuvwxyzABCDEFGHIJKLMNOPQRSTUVWXYZ0123456789".chars() {
        tokens.push(format!("##{}", c));
    }
    let words = [
        "hello", "world", "the", "quick", "brown", "fox", "jump", "##s", "cafe", "resume", "naive", "fiance",
        "uni", "##code", "accent", "stra", "##ß", "ß", "mixed", "text", "super", "##cal", "##ifrag", "##ilistic",
        "email", "example", "com", "https", "html", "hashtag", "case", "word", "leading", "and", "trailing",
        "istanbul", "gross", "Hello", "World", "café", "résumé", "é", "à", "##é", "lan", "##guage", "no", "special",
        "token", "##ization", "play", "##ing", "international", "pre", "##processing", "foo", "bar", "here", "mask",
        "unk", "lower", "lowercase", "family", "flags", "thumbs", "skintone", "party", "emoji", "##≤b", "a≤b",
    ];
    for w in words {
        tokens.push(w.to_string());
    }
    for c in "你好世界测试一鿿㐀䶿𠀀豈，。、！？；：«»“”‘’—–…€£¥→≠≤ΟΔΣοδσςµωΩåÅñüçこんにちはカタナ안녕하세요ＡａｆＦﬁﬀक्षत्रि👋🌍👍🎉🔥ᚠ"
        .chars()
    {
        tokens.push(c.to_string());
        tokens.push(format!("##{}", c));
    }
    let mut seen: Vec<String> = Vec::new();
    for t in tokens {
        if !seen.contains(&t) {
            seen.push(t);
        }
    }
    seen
}

fn added_token(id: usize, content: &str) -> String {
    format!(
        "{{\"id\":{},\"content\":{},\"single_word\":false,\"lstrip\":false,\"rstrip\":false,\"normalized\":false,\"special\":true}}",
        id,
        quoted(content)
    )
}

fn tokenizer_json(settings: &Settings, extra: &[&str]) -> String {
    let mut tokens = vocab();
    let mut added: Vec<String> = Vec::new();
    for (id, content) in ["[PAD]", "[UNK]", "[CLS]", "[SEP]", "[MASK]"].iter().enumerate() {
        added.push(added_token(id, content));
    }
    for content in extra {
        added.push(added_token(tokens.len(), content));
        tokens.push(content.to_string());
    }
    let entries: Vec<String> =
        tokens.iter().enumerate().map(|(id, t)| format!("{}:{}", quoted(t), id)).collect();
    let strip = match settings.strip_accents {
        None => "null".to_string(),
        Some(b) => b.to_string(),
    };
    format!(
        "{{\"version\":\"1.0\",\"truncation\":null,\"padding\":null,\"added_tokens\":[{}],\
         \"normalizer\":{{\"type\":\"BertNormalizer\",\"clean_text\":{},\"handle_chinese_chars\":{},\
         \"strip_accents\":{},\"lowercase\":{}}},\"pre_tokenizer\":{{\"type\":\"BertPreTokenizer\"}},\
         \"post_processor\":null,\"decoder\":null,\"model\":{{\"type\":\"WordPiece\",\"unk_token\":\"[UNK]\",\
         \"continuing_subword_prefix\":\"##\",\"max_input_chars_per_word\":100,\"vocab\":{{{}}}}}}}",
        added.join(","),
        settings.clean_text,
        settings.handle_chinese_chars,
        strip,
        settings.lowercase,
        entries.join(",")
    )
}

fn corpus() -> Vec<&'static str> {
    vec![
        "Hello, world!",
        "The QUICK brown fox jumps.",
        "café résumé naïve fiancé",
        "Ünïçödé ACCENTS Straße",
        "你好世界 mixed 测试 text",
        "a  b\tc\n  d",
        "supercalifragilisticexpialidocious antidisestablishmentarianism",
        "email@example.com https://x.co/y?z=1 $5.00 <html> C++ #hashtag",
        "123 456.78 -90 1e10",
        "",
        "   ",
        "MiXeD CaSe WoRdS 42",
        // control and format characters are removed, white space becomes a space
        "a\u{0007}b\u{0000}c",
        "a\u{000b}b\u{000c}c",
        "a\u{007f}b",
        "a\u{200b}b\u{feff}c",
        "a\u{00a0}b\u{2009}c",
        "a\u{fffd}b",
        "\u{0001}\u{0002}\u{0003}",
        "  leading and trailing  ",
        "\t\n\r",
        // casing that changes length or is context-sensitive
        "İstanbul",
        "STRASSE straße GROSS",
        "ﬁle ﬀ ﬄ",
        "ΟΔΟΣ Σίσυφος",
        "ＦＵＬＬＷＩＤＴＨ ａｂｃ",
        // accents and combining marks
        "e\u{0301} a\u{0300} n\u{0303}",
        "é à ñ ü ç",
        "Å Ω µ",
        "क्षत्रि",
        // ideographs and other scripts
        "一鿿㐀䶿",
        "𠀀 𪛖 豈",
        "你好world世界",
        "，。、！？；：",
        "こんにちは カタカナ 안녕하세요",
        // punctuation and symbols
        "a≤b x→y n≠m",
        "«guillemets» \u{201c}smart\u{201d} \u{2018}quotes\u{2019}",
        "em—dash en–dash …ellipsis",
        "e.g., i.e. U.S.A. 3.14 1,000",
        "!!!??? ((())) [a]{b}",
        "$100 €50 £20 ¥30 ₹40 ₿1",
        // emoji and combining sequences
        "hello 👋 world 🌍",
        "family 👨‍👩‍👧 ZWJ",
        "🇺🇸 🇯🇵 flags",
        "thumbs 👍🏽 skintone",
        // subwords, unknown words, long words
        "internationalization preprocessing tokenization playing",
        "ᚠᚢᚦ 𐐀𐐁 zzqxjk",
        "🎉party mixed🔥emoji",
        "aaaaaaaaaaaaaaaaaaaaaaaaaaaaaaaaaaaaaaaaaaaaaaaaaaaaaaaaaaaaaaaaaaaaaaaaaaaaaaaaaaaaaaaaaaaaaaaaaaaa",
        "aaaaaaaaaaaaaaaaaaaaaaaaaaaaaaaaaaaaaaaaaaaaaaaaaaaaaaaaaaaaaaaaaaaaaaaaaaaaaaaaaaaaaaaaaaaaaaaaaaaaa",
        // literal special and added tokens
        "hello [MASK] world",
        "hello [mask] world",
        "[CLS] hi [SEP]",
        "[PAD][UNK][MASK]",
        "no special tokens here",
        "[MASK] [CLS] [SEP] [PAD] [UNK]",
        "foo[SEP]bar text[MASK]here",
        "[unk] lowercase specials",
    ]
}

fn compare(settings: &Settings, extra: &[&str], texts: &[&str]) {
    let json = tokenizer_json(settings, extra);
    let tok = Tokenizer::from_str(&json).expect("load tokenizer");
    let ft = FastWordPiece::from_tokenizer(&tok).expect("this is a WordPiece pipeline");
    for text in texts {
        let want: Vec<u32> = tok.encode_fast(*text, false).expect("crate encode").get_ids().to_vec();
        let got = ft.encode_ids(text);
        assert_eq!(got, want, "token-id mismatch for {text:?}");
    }
}

#[test]
fn fast_matches_crate() {
    let settings =
        Settings { clean_text: true, handle_chinese_chars: true, strip_accents: None, lowercase: true };
    compare(&settings, &[], &corpus());
}

#[test]
fn fast_matches_crate_for_all_settings() {
    for clean_text in [false, true] {
        for handle_chinese_chars in [false, true] {
            for strip_accents in [None, Some(false), Some(true)] {
                for lowercase in [false, true] {
                    let settings = Settings { clean_text, handle_chinese_chars, strip_accents, lowercase };
                    compare(&settings, &[], &corpus());
                }
            }
        }
    }
}

#[test]
fn fast_matches_crate_on_overlapping_added_tokens() {
    let settings =
        Settings { clean_text: true, handle_chinese_chars: true, strip_accents: None, lowercase: true };
    compare(
        &settings,
        &["[M", "<x>", "<x><y>", "é!", "MASK]", "世界"],
        &["[MASK]", "[M [MAS", "<x><y><x>", "<X>", "café! caf é!", "你好世界世", "a<x>b", "<x", "MASK][M"],
    );
}

#[test]
fn round_trip_through_the_crate_keeps_the_settings() {
    // `from_tokenizer` reads what the crate writes, `from_text` what was given to the crate.
    let settings =
        Settings { clean_text: false, handle_chinese_chars: true, strip_accents: Some(true), lowercase: false };
    let json = tokenizer_json(&settings, &[]);
    let tok = Tokenizer::from_str(&json).expect("load tokenizer");
    let a = FastWordPiece::from_tokenizer(&tok).unwrap();
    let b = FastWordPiece::from_text(&json).unwrap();
    for text in corpus() {
        assert_eq!(a.encode_ids(text), b.encode_ids(text));
    }
}
