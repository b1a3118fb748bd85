use emojic_gen::alias::{generate_aliases, AliasError};
use emojic_gen::catalog::{parse_catalog, Catalog};

fn catalog(v: &[&str]) -> Catalog {
    let v: Vec<String> = v.iter().map(|s| s.to_string()).collect();
    parse_catalog(&v).unwrap()
}

fn pair(a: &str, b: &str) -> (String, String) {
    (a.to_string(), b.to_string())
}

const THUMBS: [&str; 4] = [
    "# group: Smileys",
    "# subgroup: face",
    "1F44D 1F3FB ; fully-qualified # \u{1F44D}\u{1F3FB} E1.0 thumbs up: light skin tone",
    "1F44D 1F3FF ; fully-qualified # \u{1F44D}\u{1F3FF} E1.0 thumbs up: dark skin tone",
];

#[test]
fn external_alias_resolves_by_grapheme() {
    let cat = catalog(&THUMBS);
    let ext = vec![pair("thumbsup", "\u{1F44D}\u{1F3FB}")];
    let t = generate_aliases(&cat, &ext).unwrap();
    assert_eq!(t.aliases, vec![pair(":thumbs_up:", "THUMBS_UP"), pair("thumbsup", "THUMBS_UP")]);
    assert!(t.unresolved.is_empty());
}

#[test]
fn primary_alias_wins_over_external() {
    let cat = catalog(&[
        "# group: Smileys",
        "# subgroup: face",
        "1F600 ; fully-qualified # g E1.0 grinning face",
        "1F44D ; fully-qualified # t E0.6 thumbs up",
    ]);
    let ext = vec![pair(":thumbs_up:", "g"), pair(":other:", "g")];
    let t = generate_aliases(&cat, &ext).unwrap();
    assert_eq!(
        t.aliases,
        vec![pair(":grinning_face:", "GRINNING_FACE"), pair(":other:", "GRINNING_FACE"), pair(":thumbs_up:", "THUMBS_UP")]
    );
    assert!(t.unresolved.is_empty());
}

#[test]
fn unknown_grapheme_is_reported() {
    let cat = catalog(&THUMBS);
    let ext = vec![pair("zzz", "?"), pair("aaa", "!")];
    let t = generate_aliases(&cat, &ext).unwrap();
    assert_eq!(t.aliases, vec![pair(":thumbs_up:", "THUMBS_UP")]);
    assert_eq!(t.unresolved, vec![pair("zzz", "?"), pair("aaa", "!")]);
}

#[test]
fn earlier_emoji_keeps_a_shared_grapheme() {
    let cat = catalog(&[
        "# group: A",
        "# subgroup: a",
        "1 ; fully-qualified # x E1.0 first one",
        "# group: B",
        "# subgroup: b",
        "2 ; fully-qualified # x E1.0 second one",
    ]);
    let t = generate_aliases(&cat, &vec![pair("shared", "x")]).unwrap();
    assert_eq!(
        t.aliases,
        vec![pair(":first_one:", "FIRST_ONE"), pair(":second_one:", "SECOND_ONE"), pair("shared", "FIRST_ONE")]
    );
}

#[test]
fn alias_table_is_sorted_and_repeatable() {
    let cat = catalog(&[
        "# group: A",
        "# subgroup: a",
        "1 ; fully-qualified # z E1.0 zebra",
        "2 ; fully-qualified # b E1.0 bee",
        "3 ; fully-qualified # m E1.0 moth",
    ]);
    let ext = vec![pair("bug", "b"), pair("apple", "m")];
    let first = generate_aliases(&cat, &ext).unwrap();
    let second = generate_aliases(&cat, &ext).unwrap();
    let keys: Vec<&str> = first.aliases.iter().map(|p| p.0.as_str()).collect();
    assert_eq!(keys, vec![":bee:", ":moth:", ":zebra:", "apple", "bug"]);
    assert_eq!(first.aliases, second.aliases);
}

#[test]
fn same_primary_alias_twice_is_an_error() {
    let cat = catalog(&[
        "# group: A",
        "# subgroup: a",
        "1 ; fully-qualified # x E1.0 bee",
        "# subgroup: b",
        "2 ; fully-qualified # y E1.0 bee",
    ]);
    assert!(matches!(generate_aliases(&cat, &vec![]), Err(AliasError::DuplicateAlias)));
}
