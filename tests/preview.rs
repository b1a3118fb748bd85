use emojic_gen::catalog::parse_catalog;
use emojic_gen::constants::generate_constants;
use emojic_gen::preview::{emojis_for_group, emojis_for_sub_group_list, emojis_for_subgroup};

fn catalog() -> emojic_gen::catalog::Catalog {
    let v: Vec<String> = [
        "# group: Smileys",
        "# subgroup: face",
        "1 ; fully-qualified # a E1.0 alpha",
        "2 ; fully-qualified # b E1.0 beta",
        "3 ; fully-qualified # c E1.0 gamma",
        "4 ; fully-qualified # d E1.0 delta",
        "# subgroup: empty",
        "# subgroup: hand",
        "5 ; fully-qualified # e1 E1.0 wave: light skin tone",
        "6 ; fully-qualified # e E1.0 wave",
        "# subgroup: more",
        "7 ; fully-qualified # f E1.0 zeta",
    ]
    .iter()
    .map(|s| s.to_string())
    .collect();
    parse_catalog(&v).unwrap()
}

#[test]
fn subgroup_preview_takes_first_three() {
    let cat = catalog();
    let sub = &cat.groups[0].subgroups[0];
    assert_eq!(emojis_for_sub_group_list(sub), vec!["a", "b", "c"]);
    assert_eq!(emojis_for_subgroup(sub), "abc");
    assert_eq!(emojis_for_subgroup(&cat.groups[0].subgroups[2]), "e");
    assert_eq!(emojis_for_subgroup(&cat.groups[0].subgroups[1]), "");
}

#[test]
fn group_preview_takes_first_of_first_subgroups() {
    let cat = catalog();
    assert_eq!(emojis_for_group(&cat.groups[0]), "ae");
}

#[test]
fn constants_mirror_the_catalog() {
    let cat = catalog();
    let c = generate_constants(&cat);
    assert_eq!(c.len(), 1);
    assert_eq!(c[0].identifier, "Smileys");
    assert_eq!(c[0].preview_emojis, "ae");
    assert_eq!(c[0].subgroups.len(), 4);
    assert_eq!(c[0].subgroups[0].preview_emojis, "abc");
    let wave = &c[0].subgroups[2].emojis[0];
    assert_eq!(wave.identifier, "WAVE");
    assert_eq!(wave.preview_emojis, "ee1");
    assert_eq!(wave.full_list.len(), 2);
    assert_eq!(wave.default_list.len(), 2);
}
