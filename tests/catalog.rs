use emojic_gen::catalog::{parse_catalog, Catalog, ErrorKind, ParseError};
use emojic_gen::emoji::Combo;

fn lines(v: &[&str]) -> Vec<String> {
    v.iter().map(|s| s.to_string()).collect()
}

fn parse(v: &[&str]) -> Result<Catalog, ParseError> {
    parse_catalog(&lines(v))
}

const LIGHT: &str = "1F44D 1F3FB ; fully-qualified # \u{1F44D}\u{1F3FB} E1.0 thumbs up: light skin tone";
const DARK: &str = "1F44D 1F3FF ; fully-qualified # \u{1F44D}\u{1F3FF} E1.0 thumbs up: dark skin tone";

#[test]
fn thumbs_up_with_two_skin_tones() {
    let cat = parse(&["# group: Smileys", "# subgroup: face", LIGHT, DARK]).unwrap();
    assert_eq!(cat.groups.len(), 1);
    assert_eq!(cat.groups[0].identifier, "Smileys");
    let sub = &cat.groups[0].subgroups[0];
    assert_eq!(sub.identifier, "face");
    assert_eq!(sub.emojis.len(), 1);
    let e = &sub.emojis[0];
    assert_eq!(e.base, "thumbs up");
    assert_eq!(e.identifier, "THUMBS_UP");
    let axes = e.axes();
    assert!(axes.tone && !axes.gender && !axes.pair);
    let full = e.full_emoji_list();
    assert_eq!(full.len(), 2);
    assert_eq!(full[0].grapheme, "\u{1F44D}\u{1F3FB}");
    assert_eq!(full[1].grapheme, "\u{1F44D}\u{1F3FF}");
    assert_eq!(e.default_emoji_list().len(), 2);
    assert_eq!(e.default_grapheme(), Some("\u{1F44D}\u{1F3FB}".to_string()));
}

#[test]
fn full_list_is_in_canonical_order() {
    let cat = parse(&[
        "# group: People",
        "# subgroup: hands",
        DARK,
        "1F44D ; fully-qualified # \u{1F44D} E0.6 thumbs up",
        LIGHT,
    ])
    .unwrap();
    let e = &cat.groups[0].subgroups[0].emojis[0];
    let full = e.full_emoji_list();
    let combos: Vec<(u8, u8, u8)> = full.iter().map(|v| (v.combo.tone, v.combo.gender, v.combo.pair)).collect();
    assert_eq!(combos, vec![(0, 0, 0), (1, 0, 0), (5, 0, 0)]);
    assert_eq!(full[0].name, "thumbs up");
    assert_eq!(e.default_grapheme(), Some("\u{1F44D}".to_string()));
}

#[test]
fn default_list_holds_one_axis_at_a_time() {
    let cat = parse(&[
        "# group: People",
        "# subgroup: person",
        "1F9D1 ; fully-qualified # a E1.0 person tipping",
        "1F9D1 1F3FB ; fully-qualified # b E1.0 person tipping: light skin tone",
        "1F9D1 1F3FF ; fully-qualified # c E1.0 person tipping: dark skin tone",
        "1F468 ; fully-qualified # d E1.0 person tipping: man",
        "1F469 ; fully-qualified # e E1.0 person tipping: woman",
        "1F468 1F3FB ; fully-qualified # f E1.0 person tipping: man, light skin tone",
        "1F469 1F3FF ; fully-qualified # g E1.0 person tipping: woman, dark skin tone",
    ])
    .unwrap();
    let e = &cat.groups[0].subgroups[0].emojis[0];
    assert_eq!(e.variants.len(), 7);
    assert_eq!(e.full_emoji_list().len(), 7);
    let default = e.default_emoji_list();
    assert_eq!(default.len(), 1 + 2 + 2);
    let graphemes: Vec<&str> = default.iter().map(|v| v.grapheme.as_str()).collect();
    assert_eq!(graphemes, vec!["a", "b", "c", "d", "e"]);
    let axes = e.axes();
    assert!(axes.tone && axes.gender && !axes.pair);
}

#[test]
fn two_persons_make_a_pair() {
    let cat = parse(&[
        "# group: People",
        "# subgroup: family",
        "1F48F ; fully-qualified # k E0.6 kiss",
        "1F469 ; fully-qualified # mw E2.0 kiss: woman, man",
        "1F468 ; fully-qualified # mm E2.0 kiss: man, man",
        "1F469 ; fully-qualified # ww E2.0 kiss: woman, woman",
    ])
    .unwrap();
    let e = &cat.groups[0].subgroups[0].emojis[0];
    let full = e.full_emoji_list();
    let pairs: Vec<u8> = full.iter().map(|v| v.combo.pair).collect();
    assert_eq!(pairs, vec![0, 1, 2, 3]);
    assert_eq!(full[3].grapheme, "mw");
    assert!(e.axes().pair);
}

#[test]
fn unknown_qualifier_keeps_whole_name() {
    let cat = parse(&[
        "# group: Flags",
        "# subgroup: country-flag",
        "1F1EF 1F1F5 ; fully-qualified # jp E0.6 flag: Japan",
        "1F1FA 1F1F8 ; fully-qualified # us E0.6 flag: United States",
    ])
    .unwrap();
    let sub = &cat.groups[0].subgroups[0];
    assert_eq!(sub.emojis.len(), 2);
    assert_eq!(sub.emojis[0].base, "flag: Japan");
    assert_eq!(sub.emojis[0].identifier, "FLAG_JAPAN");
    assert_eq!(sub.emojis[1].identifier, "FLAG_UNITED_STATES");
    assert!(sub.emojis[0].variants[0].combo == Combo::unmodified());
}

#[test]
fn blank_comment_and_crlf_lines_are_tolerated() {
    let cat = parse(&[
        "# emoji-test.txt\r",
        "",
        "   ",
        "  # group: Smileys  \r",
        "# subgroup: face\r",
        "# status comment",
        "1F600 ; fully-qualified # g E1.0 grinning face\r",
    ])
    .unwrap();
    assert_eq!(cat.groups[0].identifier, "Smileys");
    assert_eq!(cat.groups[0].subgroups[0].emojis[0].base, "grinning face");
}

#[test]
fn groups_and_subgroups_keep_declaration_order() {
    let cat = parse(&[
        "# group: B",
        "# subgroup: y",
        "# subgroup: x",
        "# group: A",
        "# subgroup: x",
    ])
    .unwrap();
    let names: Vec<&str> = cat.groups.iter().map(|g| g.identifier.as_str()).collect();
    assert_eq!(names, vec!["B", "A"]);
    assert_eq!(cat.groups[0].subgroups[1].identifier, "x");
    assert_eq!(cat.groups[1].subgroups[0].identifier, "x");
}

#[test]
fn data_before_group_is_missing_context() {
    assert_eq!(parse(&["1F600 ; fully-qualified # g E1.0 grinning face"]).err(), Some(ParseError { line: 0, kind: ErrorKind::MissingContext }));
}

#[test]
fn subgroup_before_group_is_missing_context() {
    assert_eq!(parse(&["", "# subgroup: face"]).err(), Some(ParseError { line: 1, kind: ErrorKind::MissingContext }));
}

#[test]
fn data_before_subgroup_is_missing_context() {
    let r = parse(&["# group: Smileys", "# subgroup: face", "# group: People", LIGHT]);
    assert_eq!(r.err(), Some(ParseError { line: 3, kind: ErrorKind::MissingContext }));
}

#[test]
fn duplicate_group_is_rejected() {
    let r = parse(&["# group: Smileys", "# group: Smileys"]);
    assert_eq!(r.err(), Some(ParseError { line: 1, kind: ErrorKind::DuplicateIdentifier }));
}

#[test]
fn duplicate_subgroup_is_rejected() {
    let r = parse(&["# group: Smileys", "# subgroup: face", "# subgroup: face"]);
    assert_eq!(r.err(), Some(ParseError { line: 2, kind: ErrorKind::DuplicateIdentifier }));
}

#[test]
fn two_skin_tones_are_unrecognized() {
    let r = parse(&[
        "# group: People",
        "# subgroup: couple",
        "1F9D1 ; fully-qualified # c E13.1 kiss: light skin tone, dark skin tone",
    ]);
    assert_eq!(r.err(), Some(ParseError { line: 2, kind: ErrorKind::UnrecognizedModifier }));
}

#[test]
fn three_persons_are_unrecognized() {
    let r = parse(&["# group: P", "# subgroup: f", "1F46A ; fully-qualified # f E1.0 family: man, woman, man"]);
    assert_eq!(r.err(), Some(ParseError { line: 2, kind: ErrorKind::UnrecognizedModifier }));
}

#[test]
fn repeated_combination_is_rejected() {
    let r = parse(&["# group: Smileys", "# subgroup: face", LIGHT, LIGHT]);
    assert_eq!(r.err(), Some(ParseError { line: 3, kind: ErrorKind::DuplicateCombination }));
}

#[test]
fn names_that_normalise_alike_collide() {
    let r = parse(&[
        "# group: Smileys",
        "# subgroup: face",
        "1F600 ; fully-qualified # a E1.0 a-b",
        "1F601 ; fully-qualified # b E1.0 a b",
    ]);
    assert_eq!(r.err(), Some(ParseError { line: 3, kind: ErrorKind::IdentifierCollision }));
}

#[test]
fn record_without_fields_is_malformed() {
    let r = parse(&["# group: Smileys", "# subgroup: face", "1F600 fully-qualified grinning face"]);
    assert_eq!(r.err(), Some(ParseError { line: 2, kind: ErrorKind::MalformedLine }));
}

#[test]
fn every_data_line_lands_in_one_emoji() {
    let cat = parse(&[
        "# group: Smileys",
        "# subgroup: face",
        LIGHT,
        "1F600 ; fully-qualified # g E1.0 grinning face",
        DARK,
        "# subgroup: hand",
        "1F44B ; fully-qualified # w E0.6 waving hand",
        "1F44B 1F3FB ; fully-qualified # wl E1.0 waving hand: light skin tone",
    ])
    .unwrap();
    let counts: Vec<usize> = cat.groups[0]
        .subgroups
        .iter()
        .flat_map(|s| s.emojis.iter().map(|e| e.variants.len()))
        .collect();
    assert_eq!(counts, vec![2, 1, 2]);
}

#[test]
fn unknown_skin_tone_is_unrecognized() {
    let r = parse(&[
        "# group: People",
        "# subgroup: hands",
        "1F44D ; fully-qualified # t E0.6 thumbs up",
        "1F44D 1F3FB ; fully-qualified # p E1.0 thumbs up: purple skin tone",
    ]);
    assert_eq!(r.err(), Some(ParseError { line: 3, kind: ErrorKind::UnrecognizedModifier }));
}

#[test]
fn family_composes_gender_and_pair_both_ways() {
    let cat = parse(&[
        "# group: People",
        "# subgroup: family",
        "1F46A ; fully-qualified # f E0.6 family",
        "1F469 ; fully-qualified # wgb E2.0 family: woman, girl, boy",
        "1F468 ; fully-qualified # mwb E2.0 family: man, woman, boy",
        "1F468 ; fully-qualified # mg E4.0 family: man, girl",
        "1F468 ; fully-qualified # mwg E2.0 family: man, woman, girl",
    ])
    .unwrap();
    let sub = &cat.groups[0].subgroups[0];
    assert_eq!(sub.emojis.len(), 1);
    let e = &sub.emojis[0];
    assert_eq!(e.identifier, "FAMILY");
    let full = e.full_emoji_list();
    let graphemes: Vec<&str> = full.iter().map(|v| v.grapheme.as_str()).collect();
    assert_eq!(graphemes, vec!["f", "mwb", "mwg", "mg", "wgb"]);
    let wgb = &full[4].combo;
    assert_eq!((wgb.gender, wgb.pair, wgb.child_gender, wgb.child_pair), (2, 0, 0, 3));
    let mwb = &full[1].combo;
    assert_eq!((mwb.gender, mwb.pair, mwb.child_gender, mwb.child_pair), (0, 3, 1, 0));
    let default = e.default_emoji_list();
    assert_eq!(default.len(), 1);
    assert_eq!(default[0].grapheme, "f");
    let axes = e.axes();
    assert!(axes.gender && axes.pair && axes.child_gender && axes.child_pair && !axes.tone);
}

#[test]
fn unicode_white_space_is_trimmed() {
    let cat = parse(&[
        "\u{a0}# group: Smileys\u{3000}",
        "# subgroup: face\u{2003}",
        "1F600 ; fully-qualified # g E1.0 grinning face\u{85}",
    ])
    .unwrap();
    assert_eq!(cat.groups[0].identifier, "Smileys");
    assert_eq!(cat.groups[0].subgroups[0].identifier, "face");
    assert_eq!(cat.groups[0].subgroups[0].emojis[0].base, "grinning face");
}
