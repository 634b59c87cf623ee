use antiswear::{Antiswear, AntiswearGroup, Builder, DescriptorError, Mode};

fn english() -> Antiswear {
    Antiswear::en()
}

fn group() -> AntiswearGroup {
    AntiswearGroup { elems: vec![Antiswear::en(), Antiswear::ru()] }
}

#[test]
fn empty_text_is_clean_for_every_profile() {
    assert!(Antiswear::en().check("").is_none());
    assert!(Antiswear::ru().check("").is_none());
    assert!(Antiswear::new().check("").is_none());
    assert!(group().check("").is_none());
}

#[test]
fn white_space_only_text_is_clean() {
    assert!(english().check("   \t ").is_none());
}

#[test]
fn exception_word_alone_is_not_flagged() {
    assert!(english().check("bitchin").is_none());
    assert!(english().check("bitchy").is_none());
    assert!(english().check("so bitchy").is_none());
}

#[test]
fn exception_beats_short_word_in_candidate() {
    let a = english();
    assert!(!a.matches_lowercase("bitchin"));
    assert!(a.matches_lowercase("bitch"));
}

#[test]
fn english_scenario_word_and_index() {
    let r = english().check("what the fuck").unwrap();
    assert_eq!(r.word, "fuck");
    assert_eq!(r.index, 2);
}

#[test]
fn english_whole_text_pass_catches_joined_head() {
    // The text without spaces starts with "ilovebitch", which holds a short word.
    let r = english().check("I love bitchin tunes").unwrap();
    assert_eq!(r.word, "Ilovebitch");
    assert_eq!(r.index, 0);
}

#[test]
fn english_bypass_four_becomes_f() {
    // '4' stands for 'f', so "f4ck" reads "ffck", which is no short word.
    assert!(english().check("f4ck").is_none());
    let r = english().check("4uck").unwrap();
    assert_eq!(r.word, "4uck");
}

#[test]
fn english_bypass_one_becomes_i() {
    let r = english().check("b1tch").unwrap();
    assert_eq!(r.word, "b1tch");
    assert_eq!(r.index, 0);
}

#[test]
fn token_index_after_clean_head() {
    let r = english().check("helloworld fuck").unwrap();
    assert_eq!(r.word, "fuck");
    assert_eq!(r.index, 1);
}

#[test]
fn token_index_when_head_already_matches() {
    let r = english().check("hello fuck world").unwrap();
    assert_eq!(r.word, "hellofuckw");
    assert_eq!(r.index, 0);
}

#[test]
fn uppercase_is_lowered_before_matching() {
    let r = english().check("FUCK").unwrap();
    assert_eq!(r.word, "FUCK");
    assert_eq!(r.index, 0);
}

#[test]
fn whole_text_pass_reports_first_ten_characters() {
    let r = english().check("fuckxxxxxxxxxxx").unwrap();
    assert_eq!(r.word, "fuckxxxxxx");
    assert_eq!(r.index, 0);
}

#[test]
fn whole_text_pass_ignores_characters_after_ten() {
    let r = english().check("xxxxxxxxxxxfuck").unwrap();
    assert_eq!(r.word, "xxxxxxxxxxxfuck");
    assert_eq!(r.index, 0);
    let r = english().check("xxxxxxxxxxxfuck ok").unwrap();
    assert_eq!(r.word, "xxxxxxxxxxxfuck");
}

#[test]
fn whole_text_pass_cuts_by_characters_not_bytes() {
    let r = Antiswear::ru().check("блятьблятьблять").unwrap();
    assert_eq!(r.word, "блятьблять");
    assert_eq!(r.index, 0);
    let r = Antiswear::ru().check("бляд ь").unwrap();
    assert_eq!(r.word, "блядь");
    assert_eq!(r.index, 0);
}

#[test]
fn replacement_then_bypass_candidate() {
    let a = Builder {
        bypasses: "1-i",
        prefixes_first: "",
        prefixes_second: "",
        short: "fick",
        alphabet: "abcdefghijklmnopqrstuvwxyz",
        replacements: "x-f",
        exceptions: "",
        mode: Mode::Equally,
    }
    .build()
    .unwrap();
    let r = a.check("x1ck").unwrap();
    assert_eq!(r.word, "x1ck");
    assert_eq!(r.index, 0);
    assert!(a.matches_lowercase("x1ck"));
}

#[test]
fn group_falls_through_to_second_profile() {
    let r = group().check("блять").unwrap();
    assert_eq!(r.word, "блять");
    assert_eq!(r.index, 0);
    assert!(Antiswear::en().check("блять").is_none());
}

#[test]
fn group_first_profile_wins() {
    let r = group().check("what the fuck").unwrap();
    assert_eq!(r.word, "fuck");
    assert_eq!(r.index, 2);
}

#[test]
fn group_clean_text_in_both_languages() {
    assert!(group().check("hello привет").is_none());
    assert!(group().check("good morning").is_none());
}

#[test]
fn russian_transliterated_text() {
    let r = Antiswear::ru().check("nu blyat").unwrap();
    assert_eq!(r.index, 1);
    assert_eq!(r.word, "blyat");
}

#[test]
fn russian_prefixed_root() {
    let r = Antiswear::ru().check("мир отъебись").unwrap();
    assert_eq!(r.index, 1);
    assert_eq!(r.word, "отъебись");
}

#[test]
fn russian_short_word_needs_equality() {
    assert!(Antiswear::ru().check("нахождение").is_none());
    let r = Antiswear::ru().check("иди нах").unwrap();
    assert_eq!(r.index, 1);
    assert_eq!(r.word, "нах");
}

#[test]
fn build_english_alphabet_and_lists() {
    let a = english();
    assert_eq!(a.alphabet, "abcdefghijklmnopqrstuvwxyz 14 ");
    assert_eq!(a.short, vec!["fuck".to_string(), "bitch".to_string()]);
    assert_eq!(a.exceptions, vec!["bitchin".to_string(), "bitchy".to_string()]);
    assert!(a.prefixes.is_empty());
    assert_eq!(a.mode, Mode::Contains);
    assert_eq!(a.replacements.len(), 1);
    assert_eq!(a.replacements[0].from, "");
    assert_eq!(a.replacements[0].into, "");
}

#[test]
fn build_joins_prefixes() {
    let a = Builder {
        bypasses: "",
        prefixes_first: "за по",
        prefixes_second: "ab cd",
        short: "",
        alphabet: "",
        replacements: "",
        exceptions: "",
        mode: Mode::Startswith,
    }
    .build()
    .unwrap();
    let want: Vec<String> = ["ab", "cd", "заab", "заcd", "поab", "поcd"]
        .iter()
        .map(|s| s.to_string())
        .collect();
    assert_eq!(a.prefixes, want);
    assert_eq!(a.alphabet, " ");
}

#[test]
fn build_rejects_pair_without_separator() {
    let r = Builder {
        bypasses: "1i",
        prefixes_first: "",
        prefixes_second: "",
        short: "fuck",
        alphabet: "abc",
        replacements: "",
        exceptions: "",
        mode: Mode::Contains,
    }
    .build();
    assert!(matches!(r, Err(DescriptorError::MissingSeparator)));
    let r = Builder {
        bypasses: "",
        prefixes_first: "",
        prefixes_second: "",
        short: "fuck",
        alphabet: "abc",
        replacements: "a-b  c-d",
        exceptions: "",
        mode: Mode::Contains,
    }
    .build();
    assert!(matches!(r, Err(DescriptorError::MissingSeparator)));
}

#[test]
fn new_profile_is_empty() {
    let a = Antiswear::new();
    assert!(a.bypasses.is_empty() && a.prefixes.is_empty() && a.short.is_empty());
    assert!(a.alphabet.is_empty() && a.replacements.is_empty() && a.exceptions.is_empty());
    assert_eq!(a.mode, Mode::Startswith);
    assert!(a.check("anything at all").is_none());
}

#[test]
fn starts_with_mode_applies_to_exceptions() {
    let a = Builder {
        bypasses: "",
        prefixes_first: "",
        prefixes_second: "",
        short: "ab",
        alphabet: "abcdefghijklmnopqrstuvwxyz",
        replacements: "",
        exceptions: "abc",
        mode: Mode::Startswith,
    }
    .build()
    .unwrap();
    assert!(a.matches_lowercase("ab"));
    assert!(!a.matches_lowercase("abx"));
    assert!(!a.matches_lowercase("abcd"));
}

#[test]
fn ends_with_mode() {
    let a = Builder {
        bypasses: "",
        prefixes_first: "",
        prefixes_second: "",
        short: "ck",
        alphabet: "abcdefghijklmnopqrstuvwxyz",
        replacements: "",
        exceptions: "",
        mode: Mode::Endswith,
    }
    .build()
    .unwrap();
    assert!(a.matches_lowercase("duck"));
    assert!(!a.matches_lowercase("ckd"));
}

#[test]
fn alphabet_filter_removes_every_foreign_character() {
    let a = english();
    assert!(a.matches_lowercase("f.u.c.k"));
    assert!(a.matches_lowercase("f*u*c*k!"));
}
