use cached::stores::LruCache;
use srgn::candidates::find_valid_replacement;
use srgn::driver::German;
use srgn::words::Replacement;

const VALID_GERMAN_WORDS: &str = "Abenteuer\nBestandteil\nDübel\nIch\nKoeffizient\nKübel\nMauer\nWasser\nWir\nab\naber\ndröge\nein\nist\nkongruent\nmag\nnicht\nschließen\nsind\nsüß\ntoll\nvon\nwichtiger\nwir\nÄpfel\nÄrger\nÖl";

fn german() -> German {
    German::new(VALID_GERMAN_WORDS)
}

#[test]
fn test_words_are_sorted() {
    let listed: Vec<&str> = VALID_GERMAN_WORDS.lines().collect();

    let mut sorted: Vec<&str> = VALID_GERMAN_WORDS.lines().collect();
    sorted.sort();

    assert_eq!(listed, sorted.as_slice());
}

#[test]
fn test_words_are_unique() {
    let listed: Vec<&str> = VALID_GERMAN_WORDS.lines().collect();

    let mut unique: Vec<&str> = VALID_GERMAN_WORDS.lines().collect();
    unique.sort();
    unique.dedup();

    assert_eq!(listed, unique.as_slice());
}

#[test]
fn test_word_list_is_not_filtered() {
    assert!(
        VALID_GERMAN_WORDS.lines().any(|word| word.is_ascii()),
        "Looks like you're using a filtered word list containing only special characters. The current implementation relies on the full word list (also containing all non-Umlaut words)"
    );
}

#[test]
fn test_is_valid_on_empty_input() {
    assert!(!german().is_valid(""));
}

#[test]
fn is_valid_rejects_unclassifiable_words() {
    let mut g = german();
    assert!(!g.is_valid("🤩Dübel"));
    assert!(!g.is_valid("Dübel\0"));
    assert!(!g.is_valid("No\nway"));
    assert!(!g.is_valid("مرحبا"));
    assert!(!g.is_valid("你好"));
    assert!(!g.is_valid("😎"));
}

#[test]
fn is_valid_by_casing() {
    let mut g = german();
    assert!(g.is_valid("Dübel"));
    assert!(g.is_valid("DüBeL"));
    assert!(g.is_valid("DÜBEL"));
    assert!(g.is_valid("dröge"));
    assert!(g.is_valid("Dröge"));
    assert!(g.is_valid("kongruent"));
    assert!(g.is_valid("Koeffizient"));
    assert!(!g.is_valid("dübel"));
    assert!(!g.is_valid("Duebel"));
    assert!(!g.is_valid("Maür"));
    assert!(!g.is_valid("kindergarten"));
}

#[test]
fn compound_words() {
    let mut g = german();
    assert!(g.is_compound_word("Mauerdübelkübel"));
    assert!(g.is_compound_word("Mauerdübel"));
    assert!(g.is_valid("Mauerdübelkübel"));
    assert!(g.is_valid("Mauer"));
    assert!(g.is_valid("Dübel"));
    assert!(g.is_valid("Kübel"));
    assert!(!g.is_compound_word("Mauer"));
    assert!(!g.is_compound_word("Maürdübelkübel"));
    assert!(!g.is_valid("Maürdübelkübel"));
}

#[test]
fn lookup_finds_every_listed_word() {
    let mut g = german();
    for word in VALID_GERMAN_WORDS.lines() {
        assert!(g.contains(word), "{}", word);
    }
    assert!(g.contains("Abenteuer"));
    assert!(g.contains("Öl"));
}

#[test]
fn lookup_rejects_absent_words() {
    let mut g = german();
    for word in ["", "A", "Abenteuerx", "Öle", "Ö", "zzz", "Mauer\n", "mauer", "ab\naber"] {
        assert!(!g.contains(word), "{}", word);
    }
}

#[test]
fn substitute_sentences() {
    let mut g = german();
    assert_eq!(
        g.substitute("Ich mag Aepfel, aber nicht Aerger."),
        "Ich mag Äpfel, aber nicht Ärger."
    );
    assert_eq!(g.substitute("Suess!"), "Süß!");
    assert_eq!(g.substitute("Abenteuer sind toll!"), "Abenteuer sind toll!");
    assert_eq!(g.substitute("Ich mag AEPFEL!! 😍"), "Ich mag ÄPFEL!! 😍");
    assert_eq!(g.substitute("Wer mag Aepfel?!"), "Wer mag Äpfel?!");
    assert_eq!(g.substitute("Was sind aepfel?"), "Was sind aepfel?");
    assert_eq!(
        g.substitute("Oel ist ein wichtiger Bestandteil von Oel."),
        "Öl ist ein wichtiger Bestandteil von Öl."
    );
    assert_eq!(g.substitute("Wir schliessen nicht ab."), "Wir schließen nicht ab.");
    assert_eq!(
        g.substitute("WARUM SCHLIESSEN WIR NICHT AB?"),
        "WARUM SCHLIEẞEN WIR NICHT AB?"
    );
    assert_eq!(g.substitute("WiR sChLieSsEn ab!"), "WiR sChLieẞEn ab!");
}

#[test]
fn substitute_words_next_to_other_characters() {
    let mut g = german();
    assert_eq!(g.substitute("\0Kuebel"), "\0Kübel");
    assert_eq!(g.substitute("\0Duebel\0"), "\0Dübel\0");
    assert_eq!(g.substitute("🤩Duebel"), "🤩Dübel");
    assert_eq!(g.substitute("🤩Duebel🤐"), "🤩Dübel🤐");
    assert_eq!(g.substitute("Dübel"), "Dübel");
    assert_eq!(g.substitute("Koeffizient"), "Koeffizient");
    assert_eq!(g.substitute("kongruent"), "kongruent");
    assert_eq!(g.substitute(""), "");
}

#[test]
fn substitute_keeps_text_without_digraphs() {
    let mut g = german();
    let input = "Ich bin nicht da, 42 mal: Wir — toll?";
    assert_eq!(g.substitute(input), input);
}

#[test]
fn substitute_keeps_non_word_characters_in_order() {
    let mut g = german();
    assert_eq!(
        g.substitute("1 Oel, 2 Oel; (3)\tOel!? 你好 🤩 مرحبا Oel"),
        "1 Öl, 2 Öl; (3)\tÖl!? 你好 🤩 مرحبا Öl"
    );
}

#[test]
fn substitute_twice_changes_nothing_more() {
    let mut g = german();
    let once = g.substitute("Aepfel");
    assert_eq!(once, "Äpfel");
    assert_eq!(g.substitute(&once), once);
    let once = g.substitute("Suess");
    assert_eq!(once, "Süß");
    assert_eq!(g.substitute(&once), once);
}

#[test]
fn substitute_keeps_case_outside_replaced_spans() {
    let mut g = german();
    assert_eq!(g.substitute("dUeBEL"), "dÜBEL");
    assert_eq!(g.substitute("KUEBEL"), "KÜBEL");
}

#[test]
fn repeated_checks_give_the_same_answer() {
    let mut g = german();
    for _ in 0..3 {
        assert!(g.is_valid("Mauerdübelkübel"));
        assert!(!g.is_valid("Maürdübelkübel"));
        assert_eq!(g.substitute("Suess!"), "Süß!");
    }
}

#[test]
fn try_new_checks_the_word_list() {
    assert!(German::try_new(VALID_GERMAN_WORDS).is_some());
    assert!(German::try_new("").is_some());
    assert!(German::try_new("ab\naber\nzu").is_some());
    assert!(German::try_new("aber\nab").is_none());
    assert!(German::try_new("ab\nab").is_none());
    assert!(German::try_new("ab\naber\n").is_some());
    assert!(German::try_new("ab\naber\n\n").is_none());
    assert!(German::try_new("Äpfel\nÖl\nab").is_none());
    let mut g = German::try_new("Dübel\nKübel").unwrap();
    assert_eq!(g.substitute("Duebel und Kuebel"), "Dübel und Kübel");
}

#[test]
fn word_list_may_end_in_a_newline() {
    let mut g = German::new("Dübel\nKübel\n");
    assert!(g.contains("Kübel"));
    assert!(!g.contains(""));
    assert_eq!(g.substitute("Kuebel"), "Kübel");
}

fn chars(s: &str) -> Vec<char> {
    s.chars().collect()
}

#[test]
fn find_valid_replacement_takes_the_first_valid_candidate() {
    let words = chars(VALID_GERMAN_WORDS);
    let mut cache: LruCache<String, bool> = LruCache::new(16);
    let suess = vec![
        Replacement { start: 1, end: 3, native: 'ü' },
        Replacement { start: 3, end: 5, native: 'ß' },
    ];
    let found = find_valid_replacement(&words, &mut cache, &chars("Suess"), &suess);
    assert_eq!(found, Some(chars("Süß")));
    let ae = vec![Replacement { start: 0, end: 2, native: 'Ä' }];
    let found = find_valid_replacement(&words, &mut cache, &chars("Aepfel"), &ae);
    assert_eq!(found, Some(chars("Äpfel")));
    let found = find_valid_replacement(&words, &mut cache, &chars("Aerger"), &ae);
    assert_eq!(found, Some(chars("Ärger")));
    let found = find_valid_replacement(&words, &mut cache, &chars("Aeble"), &ae);
    assert_eq!(found, None);
}

#[test]
fn compound_parts_are_valid_on_their_own() {
    let mut g = german();
    assert!(g.is_valid("Mauer"));
    assert!(g.is_valid("Dübel"));
    assert!(g.is_valid("Kübel"));
    assert!(g.is_compound_word("Dübelkübel"));
    assert!(g.is_compound_word("Mauerdübelkübel"));
}
