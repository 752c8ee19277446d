use ptcgp_data::db::{
    base_pokemon_note, card_kind, card_string_table, original_version_id, pokemon_row,
    sorted_union, suffix_codepoint, trainer_row, CardKind, CardStrings, Violation, Violations,
};
use ptcgp_data::models::{AbstractCard, Ability, Attack, CardVersion, VersionRef};

fn strings(v: &[&str]) -> Vec<String> {
    v.iter().map(|s| s.to_string()).collect()
}

fn card(name: &str, card_type: &str) -> AbstractCard {
    AbstractCard {
        id: 12,
        name: name.to_string(),
        card_type: card_type.to_string(),
        natdex_number: None,
        element: None,
        stage: None,
        hp: None,
        retreat_cost: None,
        weakness: None,
        flavor: None,
        is_ex: None,
        is_mega: None,
        variants: Vec::new(),
        ability: None,
        attacks: Vec::new(),
        evolves_from: None,
        trainer_kind: None,
        trainer_effect: None,
        versions: Vec::new(),
    }
}

#[test]
fn strict_violations_fail_the_build() {
    let mut v = Violations::new(false);
    v.add("one".to_string());
    v.add("two".to_string());
    assert_eq!(v.items.len(), 2);
    assert_eq!(
        v.finish().err(),
        Some("2 constraint violation(s) — re-run with --lenient to proceed anyway".to_string())
    );
}

#[test]
fn lenient_violations_keep_nothing() {
    let mut v = Violations::new(true);
    v.add("ignored".to_string());
    assert!(v.items.is_empty());
    assert!(v.finish().is_ok());
    assert!(Violations::new(false).finish().is_ok());
}

#[test]
fn violation_texts() {
    assert_eq!(Violation::ElementsMissing.message(), "elements.json not found — run `global-master` first");
    assert_eq!(Violation::CardsMissing.message(), "data/cards/ not found — run `cards` command first");
    assert_eq!(
        Violation::SetNotInDatabase { set: "A1".to_string() }.message(),
        "A1: set missing from DB map — versions skipped"
    );
    assert_eq!(
        Violation::AbstractCardMissing { set: "A1".to_string(), number: 7, card_id: 42 }.message(),
        "A1/007: abstract card 00042 not found"
    );
    assert_eq!(
        Violation::UnknownRarity { set: "A1".to_string(), number: 7, rarity: "ZZ".to_string() }.message(),
        "A1/007: unknown rarity 'ZZ'"
    );
    assert_eq!(
        Violation::PackMissing { set: "B1".to_string(), number: 120, subtitle: "Mewtwo".to_string() }.message(),
        "B1/120: pack 'Mewtwo' not found"
    );
    assert_eq!(
        Violation::NoNatdex { name: "Missingno".to_string() }.message(),
        "pokemon Missingno: no natdex_number — inserting by name"
    );
    assert_eq!(
        Violation::NatdexNotFound { name: "Mew".to_string(), natdex: 151 }.message(),
        "pokemon Mew: natdex 151 not in base_pokemon — inserting by name"
    );
    assert_eq!(
        Violation::UnknownCardType { id: 5, name: "Odd".to_string(), card_type: "energy".to_string() }.message(),
        "card 5 (Odd): unknown card_type 'energy'"
    );
    assert_eq!(
        Violation::TrainerKindMissing { name: "Potion".to_string() }.message(),
        "trainer Potion: missing trainer_kind — skipped"
    );
}

#[test]
fn pull_rate_violation_texts() {
    assert_eq!(
        Violation::PullRateSetMissing { set: "Z9".to_string() }.message(),
        "pull_rates/Z9: set not found in DB"
    );
    assert_eq!(
        Violation::PullRateSetMismatch { dir: "A1".to_string(), subtitle: "Mewtwo".to_string(), set: "A2".to_string() }.message(),
        "pull_rates/A1/Mewtwo: set field 'A2' does not match directory"
    );
    assert_eq!(
        Violation::PullRatePackMissing { set: "A1".to_string(), subtitle: "Mew".to_string() }.message(),
        "pull_rates/A1/Mew: pack 'Mew' not found"
    );
    assert_eq!(
        Violation::PullRateUnknownRarity { set: "A1".to_string(), subtitle: "Mew".to_string(), rarity: "Q".to_string() }.message(),
        "pull_rates/A1/Mew: unknown rarity 'Q'"
    );
    assert_eq!(
        Violation::PullRateInvalidKey { set: "A1".to_string(), subtitle: "Mew".to_string(), key: "x1".to_string() }.message(),
        "pull_rates/A1/Mew: invalid card key 'x1'"
    );
    assert_eq!(
        Violation::PullRateCardMissing { set: "A1".to_string(), subtitle: "Mew".to_string(), number: 5 }.message(),
        "pull_rates/A1/Mew: card 005 not found"
    );
}

#[test]
fn card_kinds() {
    assert!(matches!(card_kind(&card("Pikachu", "pokemon")), Ok(CardKind::Pokemon)));
    assert!(matches!(card_kind(&card("Potion", "trainer")), Ok(CardKind::Trainer)));
    match card_kind(&card("Odd", "energy")) {
        Err(v) => assert_eq!(v.message(), "card 12 (Odd): unknown card_type 'energy'"),
        Ok(_) => panic!("expected a violation"),
    }
}

#[test]
fn base_pokemon_notes() {
    let mut c = card("Mew", "pokemon");
    assert_eq!(
        base_pokemon_note(&c, true).map(|v| v.message()),
        Some("pokemon Mew: no natdex_number — inserting by name".to_string())
    );
    c.natdex_number = Some(151);
    assert!(base_pokemon_note(&c, true).is_none());
    assert_eq!(
        base_pokemon_note(&c, false).map(|v| v.message()),
        Some("pokemon Mew: natdex 151 not in base_pokemon — inserting by name".to_string())
    );
}

#[test]
fn pokemon_rows() {
    let mut c = card("Mew ex", "pokemon");
    assert!(pokemon_row(&c).is_none());
    c.element = Some("Psychic".to_string());
    assert!(pokemon_row(&c).is_none());
    c.stage = Some("Basic".to_string());
    c.hp = Some(130);
    c.retreat_cost = Some(1);
    c.is_ex = Some(true);
    let r = pokemon_row(&c).unwrap();
    assert_eq!(r.element, "Psychic");
    assert_eq!(r.stage, "Basic");
    assert_eq!(r.hp, Some(130));
    assert_eq!(r.retreat_cost, Some(1));
    assert!(r.is_ex);
    assert!(!r.is_mega);
}

#[test]
fn trainer_rows() {
    let mut c = card("Potion", "trainer");
    match trainer_row(&c) {
        Err(v) => assert_eq!(v.message(), "trainer Potion: missing trainer_kind — skipped"),
        Ok(_) => panic!("expected a violation"),
    }
    c.trainer_kind = Some("Item".to_string());
    let (kind, effect) = trainer_row(&c).ok().unwrap();
    assert_eq!(kind, "Item");
    assert_eq!(effect, "");
    c.trainer_effect = Some("Heal 20 damage.".to_string());
    assert_eq!(trainer_row(&c).ok().unwrap().1, "Heal 20 damage.");
}

#[test]
fn damage_suffix_code_points() {
    assert_eq!(suffix_codepoint(&Some("+".to_string())), Some(43));
    assert_eq!(suffix_codepoint(&Some("×".to_string())), Some(215));
    assert_eq!(suffix_codepoint(&Some(String::new())), None);
    assert_eq!(suffix_codepoint(&None), None);
}

#[test]
fn union_of_lists_sorted_once_each() {
    let lists = vec![strings(&["Mewtwo", "Charizard"]), strings(&["Pikachu", "Charizard"]), Vec::new()];
    assert_eq!(sorted_union(&lists), strings(&["Charizard", "Mewtwo", "Pikachu"]));
}

#[test]
fn string_tables_for_cards() {
    let mut a = card("Ivysaur", "pokemon");
    a.evolves_from = Some("Bulbasaur".to_string());
    a.stage = Some("Stage 1".to_string());
    a.attacks = vec![
        Attack { name: "Razor Leaf".to_string(), cost: Vec::new(), damage: 60, damage_suffix: None, effect: None },
        Attack { name: "Heal".to_string(), cost: Vec::new(), damage: 0, damage_suffix: None, effect: Some("Heal 10.".to_string()) },
    ];
    a.ability = Some(Ability { name: "Leaf Guard".to_string(), effect: "Takes less.".to_string() });
    let mut t = card("Potion", "trainer");
    t.trainer_kind = Some("Item".to_string());
    let mut b = card("Bulbasaur", "pokemon");
    b.stage = Some("Basic".to_string());
    let cards = vec![a, t, b];
    assert_eq!(card_string_table(&cards, CardStrings::CardNames), strings(&["Bulbasaur", "Ivysaur", "Potion"]));
    assert_eq!(card_string_table(&cards, CardStrings::Stages), strings(&["Basic", "Stage 1"]));
    assert_eq!(card_string_table(&cards, CardStrings::AttackNames), strings(&["Heal", "Razor Leaf"]));
    assert_eq!(card_string_table(&cards, CardStrings::AttackEffects), strings(&["Heal 10."]));
    assert_eq!(card_string_table(&cards, CardStrings::AbilityNames), strings(&["Leaf Guard"]));
    assert_eq!(card_string_table(&cards, CardStrings::AbilityEffects), strings(&["Takes less."]));
    assert_eq!(card_string_table(&cards, CardStrings::TrainerKinds), strings(&["Item"]));
    assert_eq!(card_string_table(&cards, CardStrings::TrainerEffects), strings(&[""]));
    assert!(card_string_table(&cards, CardStrings::PokemonVariants).is_empty());
}

fn version(set: &str, number: u32, reprint: bool, dups: &[(&str, u32)]) -> CardVersion {
    CardVersion {
        set: set.to_string(),
        number,
        card_id: 1,
        rarity: "C".to_string(),
        illustrator: None,
        is_promo: false,
        is_foil: false,
        is_reprint: reprint,
        is_tradable: true,
        packs: Vec::new(),
        source: String::new(),
        promo_sources: Vec::new(),
        duplicates: dups.iter().map(|(s, n)| VersionRef { set: s.to_string(), number: *n }).collect(),
    }
}

#[test]
fn duplicates_point_at_the_original() {
    let all = vec![
        version("A1", 1, false, &[("A2", 2), ("A3", 3)]),
        version("A2", 2, true, &[("A1", 1), ("A3", 3)]),
        version("A3", 3, true, &[("A1", 1), ("A2", 2)]),
    ];
    let ids = vec![
        (("A1".to_string(), 1), 100i64),
        (("A2".to_string(), 2), 200i64),
        (("A3".to_string(), 3), 300i64),
    ];
    assert_eq!(original_version_id(&all[0], &all, &ids, 100), 100);
    assert_eq!(original_version_id(&all[1], &all, &ids, 200), 100);
    assert_eq!(original_version_id(&all[2], &all, &ids, 300), 100);
}

#[test]
fn reprint_without_known_original_points_at_itself() {
    let all = vec![version("A2", 2, true, &[("A9", 9)])];
    let ids = vec![(("A2".to_string(), 2), 200i64)];
    assert_eq!(original_version_id(&all[0], &all, &ids, 200), 200);
}
