use openlogi_inventory::codename::{
    is_kept_word, join_words, prettify_codename, prettify_with, split_words,
};

#[test]
fn shouting_codename_is_title_cased() {
    assert_eq!(
        prettify_codename("G513 RGB MECHANICAL GAMING KEYBOARD"),
        "G513 RGB Mechanical Gaming Keyboard"
    );
}

#[test]
fn mixed_case_codename_is_unchanged() {
    assert_eq!(prettify_codename("MX Master 3S"), "MX Master 3S");
    assert_eq!(prettify_codename("  two  SPACES "), "  two  SPACES ");
    assert_eq!(prettify_codename("ΠΛΗΚΤΡΟΛΟΓΙΟ ß"), "ΠΛΗΚΤΡΟΛΟΓΙΟ ß");
}

#[test]
fn acronyms_and_model_numbers_are_kept() {
    assert_eq!(prettify_codename("PRO TKL SE"), "PRO TKL SE");
    assert_eq!(prettify_codename("G502X LIGHTSPEED"), "G502X Lightspeed");
    assert_eq!(prettify_codename("MOUSE"), "Mouse");
}

#[test]
fn any_whitespace_separates_words() {
    assert_eq!(
        prettify_codename("\tGAMING\u{00a0}MOUSE\u{3000} RGB \n"),
        "Gaming Mouse RGB"
    );
    assert_eq!(prettify_codename(""), "");
    assert_eq!(prettify_codename(" \t "), "");
}

#[test]
fn word_length_is_counted_in_bytes() {
    // Two characters of two bytes each: too long for an acronym.
    assert_eq!(prettify_codename("ÄÖ"), "Äö");
    assert_eq!(prettify_codename("ÄO"), "ÄO");
}

#[test]
fn first_character_is_put_in_upper_case() {
    // U+01C5 is a title-case letter: not lowercase, and with an upper-case form.
    assert_eq!(prettify_codename("\u{01c5}ABCD"), "\u{01c4}abcd");
}

#[test]
fn final_sigma_follows_the_word() {
    assert_eq!(prettify_codename("ΛΟΓΟΣ"), "Λογος");
}

#[test]
fn splitting_follows_the_flags() {
    let space = vec![false, true, true, false, false];
    assert_eq!(split_words("a--bc", &space), vec!["a", "bc"]);
    assert_eq!(split_words("", &vec![]), Vec::<String>::new());
    assert_eq!(split_words("xy", &vec![true, true]), Vec::<String>::new());
}

#[test]
fn joining_puts_one_space_between_words() {
    assert_eq!(join_words(&vec![]), "");
    assert_eq!(join_words(&vec!["a".to_string()]), "a");
    assert_eq!(
        join_words(&vec!["a".to_string(), "b".to_string(), "c".to_string()]),
        "a b c"
    );
}

#[test]
fn kept_words_are_short_or_have_a_digit() {
    assert!(is_kept_word("RGB"));
    assert!(is_kept_word("KEYBOARD7"));
    assert!(!is_kept_word("MOUSE"));
    assert!(!is_kept_word("\u{0663}\u{0663}"));
}

#[test]
fn display_follows_the_given_flags_and_spellings() {
    let space = vec![false, false, false, false, true, false];
    let titles = vec!["Tada".to_string(), "unused".to_string()];
    assert_eq!(prettify_with("WORD X", &vec![false; 6], &space, &titles), "Tada X");
    let one_lower = vec![false, false, true, false, false, false];
    assert_eq!(prettify_with("WORD X", &one_lower, &space, &titles), "WORD X");
}

#[test]
fn whitespace_is_the_white_space_property() {
    let listed = |c: char| {
        matches!(
            c,
            '\u{9}'..='\u{d}'
                | '\u{20}'
                | '\u{85}'
                | '\u{a0}'
                | '\u{1680}'
                | '\u{2000}'..='\u{200a}'
                | '\u{2028}'
                | '\u{2029}'
                | '\u{202f}'
                | '\u{205f}'
                | '\u{3000}'
        )
    };
    assert_eq!(('\0'..=char::MAX).filter(|c| listed(*c)).count(), 25);
    for c in '\0'..=char::MAX {
        assert_eq!(c.is_whitespace(), listed(c));
        if listed(c) {
            assert_eq!(prettify_codename(&format!("A{c}B")), "A B");
        }
    }
}

#[test]
fn ascii_letters_are_mapped_one_by_one() {
    for c in '\0'..='\u{7f}' {
        assert_eq!(c.is_lowercase(), ('a'..='z').contains(&c));
        assert_eq!(
            c.to_uppercase().collect::<String>(),
            c.to_ascii_uppercase().to_string()
        );
        assert_eq!(
            format!("{c}{c}").to_lowercase(),
            format!("{c}{c}").to_ascii_lowercase()
        );
    }
    assert_eq!(prettify_codename("[ABCDZ]_^@"), "[abcdz]_^@");
    assert_eq!(prettify_codename("QWERTYUIOP"), "Qwertyuiop");
}
