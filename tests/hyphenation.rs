use hypher::encode::EncodeError;
use hypher::hyphenate::{hyphenate, hyphenate_bounded, Lang};
use hypher::tex::parse;
use hypher::trie::TrieBuilder;

/// Compile the patterns of a TeX source into a language.
fn compile(tex: &str, left_min: usize, right_min: usize) -> Lang {
    let patterns = parse(tex).unwrap();
    let mut builder = TrieBuilder::new();
    for p in patterns {
        builder.insert(p);
    }
    builder.compress();
    Lang::new(builder.encode().unwrap(), left_min, right_min)
}

const ENGLISH: &str = "% A few English patterns\n\\patterns{\n\
    l1c k1i p1t r1s at1e o1k x1t n1s\n\
    b1ab a1bi l1it ec1o g1n % more\n}\n";

fn english() -> Lang {
    compile(ENGLISH, 2, 3)
}

fn check(lang: &Lang, hyphenated: &str) {
    let word = hyphenated.replace('-', "");
    let syllables = hyphenate(&word, lang);
    assert_eq!(syllables.join("-"), hyphenated);
}

fn collect<'a>(mut syllables: hypher::syllables::Syllables<'a>) -> Vec<&'a str> {
    let mut out = Vec::new();
    while let Some(s) = syllables.next() {
        out.push(s);
    }
    out
}

#[test]
fn test_empty() {
    let lang = english();
    let mut syllables = hyphenate("", &lang);
    assert_eq!(syllables.next(), None);
}

#[test]
fn test_exact() {
    let lang = english();
    assert_eq!(hyphenate("", &lang).len(), 0);
    assert_eq!(hyphenate("hello", &lang).len(), 1);
    assert_eq!(hyphenate("extensive", &lang).len(), 3);
}

#[test]
fn test_english() {
    let lang = english();
    check(&lang, "");
    check(&lang, "hi");
    check(&lang, "wel-come");
    check(&lang, "walk-ing");
    check(&lang, "cap-tiVe");
    check(&lang, "pur-sue");
    check(&lang, "wHaT-eVeR");
    check(&lang, "bro-ken");
    check(&lang, "ex-ten-sive");
    check(&lang, "Prob-a-bil-ity");
    check(&lang, "rec-og-nize");
}

#[test]
fn test_greek() {
    let lang = compile("\\patterns{ α1μ ε1ρ ί1σ α1τ υ1τ ά1τ ι1κ }", 1, 1);
    check(&lang, "δια-με-ρί-σμα-τα");
    check(&lang, "λα-τρευ-τός");
    check(&lang, "κά-τοι-κος");
}

#[test]
fn test_georgian() {
    let lang = compile("\\patterns{ თა1რ ყ1ვ ა1ნ რ1ტ ო1ფ ი1ლ }", 1, 1);
    check(&lang, "თა-რო");
    check(&lang, "შეყ-ვა-ნა");
    check(&lang, "კარ-ტო-ფი-ლი");
}

#[test]
fn syllables_in_order() {
    let lang = english();
    let syllables = collect(hyphenate("extensive", &lang));
    assert_eq!(syllables, vec!["ex", "ten", "sive"]);
}

#[test]
fn bounded_forbids_near_start() {
    let lang = english();
    let syllables = collect(hyphenate_bounded("extensive", &lang, 3, 1));
    assert_eq!(syllables, vec!["exten", "sive"]);
}

#[test]
fn bounded_forbids_near_end() {
    let lang = english();
    assert_eq!(hyphenate_bounded("extensive", &lang, 1, 5).join("-"), "ex-tensive");
    assert_eq!(hyphenate_bounded("extensive", &lang, 10, 10).join("-"), "extensive");
}

#[test]
fn zero_bounds_act_as_one() {
    let lang = english();
    assert_eq!(hyphenate_bounded("extensive", &lang, 0, 0).join("-"), "ex-ten-sive");
}

#[test]
fn join_without_separator_gives_word() {
    let lang = english();
    for word in ["extensive", "Probability", "hello", "", "διαμερίσματα"] {
        assert_eq!(hyphenate(word, &lang).join(""), word);
    }
}

#[test]
fn soft_hyphen_join() {
    let lang = english();
    assert_eq!(hyphenate("extensive", &lang).join("\u{ad}"), "ex\u{ad}ten\u{ad}sive");
}

#[test]
fn length_counts_breaks() {
    let lang = english();
    let mut syllables = hyphenate("Probability", &lang);
    assert_eq!(syllables.len(), 4);
    assert_eq!(syllables.next(), Some("Prob"));
    assert_eq!(syllables.len(), 3);
    assert_eq!(syllables.next(), Some("a"));
    assert_eq!(syllables.next(), Some("bil"));
    assert_eq!(syllables.next(), Some("ity"));
    assert_eq!(syllables.len(), 0);
    assert_eq!(syllables.next(), None);
    assert_eq!(syllables.next(), None);
}

#[test]
fn case_does_not_matter() {
    let lang = english();
    assert_eq!(hyphenate("WHATEVER", &lang).join("-"), "WHAT-EVER");
    assert_eq!(hyphenate("whatever", &lang).join("-"), "what-ever");
    assert_eq!(hyphenate("ExTeNsIvE", &lang).join("-"), "Ex-TeN-sIvE");
}

#[test]
fn hyphenating_twice_gives_same_result() {
    let lang = english();
    let first = collect(hyphenate("probability", &lang));
    let second = collect(hyphenate("probability", &lang));
    assert_eq!(first, second);
}

#[test]
fn even_level_overrides_odd() {
    let lang = compile("\\patterns{ x1t n1s en2s }", 2, 3);
    assert_eq!(hyphenate("extensive", &lang).join("-"), "ex-tensive");
}

#[test]
fn anchored_patterns() {
    let lang = compile("\\patterns{ .ex1 1ve. }", 1, 1);
    assert_eq!(hyphenate("extensive", &lang).join("-"), "ex-tensi-ve");
    assert_eq!(hyphenate("vex", &lang).join("-"), "vex");
}

#[test]
fn unknown_letters_give_one_syllable() {
    let lang = english();
    assert_eq!(hyphenate("日本語", &lang).join("-"), "日本語");
}

#[test]
fn long_words_are_hyphenated() {
    let lang = english();
    let word = "extensive".repeat(6);
    assert!(word.len() > 41);
    let joined = hyphenate(&word, &lang).join("-");
    assert_eq!(joined.replace('-', ""), word);
    assert_eq!(hyphenate(&word, &lang).len(), 1 + joined.matches('-').count());
    assert!(joined.starts_with("ex-ten-siveex-ten-sive"));
}

#[test]
fn case_folding_of_non_ascii_letters() {
    let lang = compile("\\patterns{ ü1b äs1s }", 1, 1);
    assert_eq!(hyphenate("ÜBER", &lang).join("-"), "Ü-BER");
    assert_eq!(hyphenate("über", &lang).join("-"), "ü-ber");
    assert_eq!(hyphenate("HÄSSLICH", &lang).join("-"), "HÄS-SLICH");
}

#[test]
fn lang_from_trie_reports_limits() {
    let mut builder = TrieBuilder::new();
    builder.insert("a1a1a1a1a1a1a1a1a1a1a1a1a1a1a1a1");
    assert!(matches!(Lang::from_trie(&builder, 1, 1), Err(EncodeError::LimitExceeded)));
}
