use antiswear::utils::{add, split, utf8_slice};
use antiswear::{Antiswear, Builder, Mode, Replacement};

fn chars(s: &str) -> Vec<char> {
    s.chars().collect()
}

fn text(v: &[char]) -> String {
    v.iter().collect()
}

#[test]
fn collapse_leaves_strings_without_repeats() {
    let a = Antiswear::new();
    assert_eq!(text(&a.replace_repeats(&chars("abcab"))), "abcab");
    assert_eq!(text(&a.replace_repeats(&chars(""))), "");
}

#[test]
fn collapse_doubled_and_tripled_runs() {
    let a = Antiswear::new();
    assert_eq!(text(&a.replace_repeats(&chars("fuuck"))), "fuck");
    assert_eq!(text(&a.replace_repeats(&chars("aaa"))), "aa");
    assert_eq!(text(&a.replace_repeats(&chars("aaaa"))), "aa");
    assert_eq!(text(&a.replace_repeats(&chars("aaaaa"))), "aaa");
    assert_eq!(text(&a.replace_repeats(&chars("abba"))), "aba");
}

#[test]
fn table_is_sorted_longest_first() {
    let t = Replacement::from_str("c-ц ch-ч sh-ш s-с").unwrap();
    let froms: Vec<&str> = t.iter().map(|r| r.from.as_str()).collect();
    assert_eq!(froms, vec!["ch", "sh", "c", "s"]);
    let out = Replacement::replace(&t, &chars("chas"));
    assert_eq!(text(&out), "чaс");
}

#[test]
fn table_of_empty_descriptor_is_one_noop_rule() {
    let t = Replacement::from_str("").unwrap();
    assert_eq!(t.len(), 1);
    assert_eq!(t[0].from, "");
    assert_eq!(t[0].into, "");
    assert_eq!(text(&Replacement::replace(&t, &chars("abc"))), "abc");
}

#[test]
fn pair_takes_text_up_to_second_dash() {
    let t = Replacement::from_str("a-b-c /\\-л").unwrap();
    assert_eq!(t[0].from, "/\\");
    assert_eq!(t[0].into, "л");
    assert_eq!(t[1].from, "a");
    assert_eq!(t[1].into, "b");
}

#[test]
fn pair_without_dash_is_rejected() {
    assert!(Replacement::from_str("ab").is_err());
    assert!(Replacement::from_str("a-b ").is_err());
}

#[test]
fn replacing_is_leftmost_and_not_recursive() {
    let t = Replacement::from_str("aa-a").unwrap();
    assert_eq!(text(&Replacement::replace(&t, &chars("aaaaa"))), "aaa");
}

#[test]
fn table_applied_twice_to_substituted_text() {
    let t = Replacement::from_str("1-i 4-a").unwrap();
    let once = Replacement::replace(&t, &chars("h1 4ll"));
    assert_eq!(text(&once), "hi all");
    let twice = Replacement::replace(&t, &once);
    assert_eq!(twice, once);
}

#[test]
fn candidates_compose_in_four_ways() {
    let a = Builder {
        bypasses: "1-i",
        prefixes_first: "",
        prefixes_second: "",
        short: "",
        alphabet: "",
        replacements: "x-1",
        exceptions: "",
        mode: Mode::Contains,
    }
    .build()
    .unwrap();
    let c: Vec<String> = a.candidates_of(&chars("x1")).iter().map(|v| text(v)).collect();
    assert_eq!(c, vec!["11", "xi", "i", "1i"]);
}

#[test]
fn split_drops_white_space() {
    assert_eq!(split("  a b\t c \n"), vec!["a", "b", "c"]);
    assert!(split("").is_empty());
    assert!(split("   ").is_empty());
}

#[test]
fn add_joins_every_pair() {
    let a = vec!["x".to_string(), "y".to_string()];
    let b = vec!["1".to_string(), "2".to_string()];
    assert_eq!(add(a, b), vec!["1", "2", "x1", "x2", "y1", "y2"]);
    assert_eq!(add(vec![], vec!["z".to_string()]), vec!["z"]);
}

#[test]
fn utf8_slice_by_characters() {
    assert_eq!(utf8_slice("привет", 1, 3), Some("ри"));
    assert_eq!(utf8_slice("привет", 0, 6), Some("привет"));
    assert_eq!(utf8_slice("привет", 3, 1), Some(""));
    assert_eq!(utf8_slice("привет", 7, 8), None);
    assert_eq!(utf8_slice("привет", 2, 10), None);
}

#[test]
fn mode_comparisons() {
    let v = chars("abcd");
    assert!(Mode::Contains.is_contains(&v, &chars("bc")));
    assert!(!Mode::Contains.is_contains(&v, &chars("bd")));
    assert!(Mode::Startswith.is_contains(&v, &chars("ab")));
    assert!(!Mode::Startswith.is_contains(&v, &chars("bc")));
    assert!(Mode::Endswith.is_contains(&v, &chars("cd")));
    assert!(!Mode::Endswith.is_contains(&v, &chars("abcde")));
    assert!(Mode::Equally.is_contains(&v, &chars("abcd")));
    assert!(!Mode::Equally.is_contains(&v, &chars("abc")));
}
