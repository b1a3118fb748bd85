use emojic_gen::strutil::{clean, identifier, make_alias, primary_alias, remove_spaces, substitute};

#[test]
fn clean_replaces_table_entries() {
    assert_eq!(clean("Piñata & 1st".to_string()), "Pinata and first");
}

#[test]
fn clean_spaces_punctuation_runs() {
    assert_eq!(clean("keycap: *".to_string()), "keycap asterisk");
    assert_eq!(clean("flag: U.S. Outlying Islands".to_string()), "flag US Outlying Islands");
}

#[test]
fn clean_folds_diacritics() {
    assert_eq!(clean("Ćevapi Ärger".to_string()), "Cevapi Arger");
    assert_eq!(clean("straße".to_string()), "straSse");
}

#[test]
fn substitute_leaves_other_text() {
    assert_eq!(substitute("2nd 3rd #"), "second third hash");
    assert_eq!(substitute("plain"), "plain");
    assert_eq!(substitute(""), "");
}

#[test]
fn remove_spaces_drops_all_whitespace() {
    assert_eq!(remove_spaces("a b\tc  d".to_string()), "abcd");
    assert_eq!(remove_spaces("".to_string()), "");
    assert_eq!(remove_spaces("x\u{a0}y\u{3000}z\u{85}".to_string()), "xyz");
}

#[test]
fn make_alias_wraps_in_colons() {
    assert_eq!(make_alias("thumbs_up".to_string()), ":thumbs_up:");
    assert_eq!(make_alias(String::new()), "::");
}

#[test]
fn identifier_is_constant_case() {
    assert_eq!(identifier("thumbs up"), "THUMBS_UP");
    assert_eq!(identifier("keycap: *"), "KEYCAP_ASTERISK");
}

#[test]
fn primary_alias_is_snake_case_in_colons() {
    assert_eq!(primary_alias("THUMBS_UP"), ":thumbs_up:");
}
