use ptcgp_data::catalog::{
    build_abstract_card, build_card_version, build_elements, build_pack_subtitle_map,
    build_promo_sources, build_rarity_list, extract_variants, find_natdex_number,
    normalize_element_placeholders, remap_pull_rate_card_ids, AbstractGroup,
};
use ptcgp_data::decimal::Dec;
use ptcgp_data::groups::{build_abstract_groups, duplicate_updates, groups_have_versions};
use ptcgp_data::models::{
    Ability, Attack, CardEntry, CardVersion, LimitlessCardData, PackPullRates, PackVariantRates,
    Rate, VersionRef,
};

fn strings(v: &[&str]) -> Vec<String> {
    v.iter().map(|s| s.to_string()).collect()
}

fn entry(id: &str, group: &[&str], nums: &[(&str, u32)]) -> CardEntry {
    CardEntry {
        card_id: id.to_string(),
        card_type: "pokemon".to_string(),
        rarity: "C".to_string(),
        is_foil: false,
        is_tradable: true,
        collection_nums: nums.iter().map(|(s, n)| (s.to_string(), *n)).collect(),
        card_ids_group: strings(group),
        source_packs: Vec::new(),
        card_source: None,
    }
}

fn pairs(v: &[(&str, &str)]) -> Vec<(String, String)> {
    v.iter().map(|(a, b)| (a.to_string(), b.to_string())).collect()
}

fn pokemon_map() -> Vec<(String, u32)> {
    vec![
        ("Ogerpon".to_string(), 1017),
        ("Charizard".to_string(), 6),
        ("Castform".to_string(), 351),
        ("Vulpix".to_string(), 37),
        ("Mr. Mime".to_string(), 122),
        ("Pikachu".to_string(), 25),
    ]
}

#[test]
fn elements_table() {
    let es = build_elements();
    let names: Vec<&str> = es.iter().map(|e| e.name.as_str()).collect();
    assert_eq!(
        names,
        vec!["Grass", "Fire", "Water", "Lightning", "Fighting", "Psychic", "Darkness", "Metal", "Colorless", "Dragon"]
    );
    assert_eq!(es[1].symbol.as_deref(), Some("R"));
    assert_eq!(es[9].symbol, None);
}

#[test]
fn element_placeholders_become_letters() {
    assert_eq!(
        normalize_element_placeholders("Discard a [Fire] Energy and a [Water] one. [Dragon]"),
        "Discard a [R] Energy and a [W] one. [Dragon]"
    );
    assert_eq!(normalize_element_placeholders("[Colorless][Colorless]"), "[C][C]");
}

#[test]
fn promo_source_descriptions() {
    let ps = build_promo_sources(&strings(&["Shop", "Premium Mission", "Pack"]));
    assert_eq!(ps.len(), 3);
    assert_eq!(ps[0].code, "Shop");
    assert_eq!(ps[0].description.as_deref(), Some("Purchasable in the Shop"));
    assert_eq!(ps[1].description, None);
    assert_eq!(ps[2].description.as_deref(), Some("Obtainable from promo packs"));
}

#[test]
fn rarity_list_in_table_order_then_unknown() {
    let rs = build_rarity_list(
        &strings(&["UR", "C", "ZZ"]),
        &vec![("C".to_string(), 35)],
        &vec![("C".to_string(), 10)],
    );
    let codes: Vec<&str> = rs.iter().map(|r| r.code.as_str()).collect();
    assert_eq!(codes, vec!["C", "UR", "ZZ"]);
    assert_eq!(rs[0].name, "Common");
    assert_eq!(rs[0].group, "Diamond");
    assert_eq!(rs[0].group_symbol_count, 1);
    assert_eq!(rs[0].craft_cost, Some(35));
    assert_eq!(rs[0].dupe_dust, Some(10));
    assert_eq!(rs[1].name, "Crown Rare");
    assert_eq!(rs[1].craft_cost, None);
    assert_eq!(rs[2].name, "ZZ");
    assert_eq!(rs[2].group, "Unknown");
    assert_eq!(rs[2].group_symbol_count, 0);
}

#[test]
fn natdex_of_names_with_modifiers() {
    let m = pokemon_map();
    assert_eq!(find_natdex_number("Teal Mask Ogerpon ex", &m), Some(1017));
    assert_eq!(find_natdex_number("Mega Charizard X ex", &m), Some(6));
    assert_eq!(find_natdex_number("Castform Sunny Form", &m), Some(351));
    assert_eq!(find_natdex_number("Mr. Mime", &m), Some(122));
    assert_eq!(find_natdex_number("Bulbasaur", &m), None);
}

#[test]
fn variants_are_the_words_around_the_species() {
    let m = pokemon_map();
    assert_eq!(extract_variants("Alolan Vulpix", &m), strings(&["Alolan"]));
    assert_eq!(extract_variants("Teal Mask Ogerpon ex", &m), strings(&["Teal Mask"]));
    assert_eq!(extract_variants("Mega Charizard X ex", &m), strings(&["X"]));
    assert!(extract_variants("Pikachu ex", &m).is_empty());
    assert!(extract_variants("Bulbasaur", &m).is_empty());
}

#[test]
fn promo_subtitles_win_over_pack_names() {
    let m = build_pack_subtitle_map(
        &pairs(&[("AP001", "PROMO_1")]),
        &pairs(&[("AN001", "Mewtwo"), ("AP001", "Old")]),
    );
    let get = |k: &str| m.iter().find(|(a, _)| a == k).map(|(_, b)| b.clone());
    assert_eq!(get("AP001").as_deref(), Some("PROMO_1"));
    assert_eq!(get("AN001").as_deref(), Some("Mewtwo"));
    assert_eq!(m.len(), 2);
}

#[test]
fn card_version_from_entry() {
    let mut e = entry("c1", &["c1"], &[("A1", 1)]);
    e.source_packs = strings(&["AN001", "TUTORIAL_1"]);
    e.card_source = Some("Shop".to_string());
    let map = pairs(&[("AN001", "Mewtwo")]);
    let v = build_card_version("A1", 1, 5, &e, &map, Some("Narumi Sato".to_string()), false, true);
    assert_eq!(v.set, "A1");
    assert_eq!(v.number, 1);
    assert_eq!(v.card_id, 5);
    assert_eq!(v.rarity, "C");
    assert_eq!(v.illustrator.as_deref(), Some("Narumi Sato"));
    assert!(v.is_foil);
    assert!(!v.is_reprint);
    assert!(v.is_tradable);
    assert_eq!(v.packs, strings(&["Mewtwo"]));
    assert_eq!(v.source, "Shop");
    assert!(v.promo_sources.is_empty());
    assert!(v.duplicates.is_empty());
}

#[test]
fn card_version_from_promo_pack() {
    let mut e = entry("c1", &["c1"], &[("P-A", 1)]);
    e.source_packs = strings(&["AP001"]);
    let map = pairs(&[("AP001", "PROMO_1")]);
    let v = build_card_version("P-A", 1, 9, &e, &map, None, true, false);
    assert_eq!(v.source, "Pack");
    assert!(!v.is_tradable);
    assert_eq!(v.packs, strings(&["PROMO_1"]));
    let plain = build_card_version("P-A", 2, 9, &entry("c2", &["c2"], &[]), &map, None, false, false);
    assert_eq!(plain.source, "");
    assert_eq!(v.promo_sources, strings(&["Pack"]));
    assert!(plain.promo_sources.is_empty());
}

#[test]
fn promo_sources_put_pack_first_for_promo_packs() {
    let mut e = entry("c1", &["c1"], &[("P-A", 5)]);
    e.source_packs = strings(&["AP002"]);
    e.card_source = Some("Mission".to_string());
    let map = pairs(&[("AP002", "PROMO_2")]);
    let v = build_card_version("P-A", 5, 3, &e, &map, None, true, false);
    assert_eq!(v.promo_sources, strings(&["Pack", "Mission"]));
    e.card_source = Some("Pack".to_string());
    let w = build_card_version("P-A", 5, 3, &e, &map, None, true, false);
    assert_eq!(w.promo_sources, strings(&["Pack"]));
    let mut shop = entry("c2", &["c2"], &[("P-A", 6)]);
    shop.card_source = Some("Shop".to_string());
    let x = build_card_version("P-A", 6, 4, &shop, &map, None, true, false);
    assert_eq!(x.promo_sources, strings(&["Shop"]));
    let y = build_card_version("A1", 6, 4, &shop, &map, None, false, false);
    assert!(y.promo_sources.is_empty());
}

fn group(id: u32, indices: &[usize], versions: &[(&str, u32)]) -> AbstractGroup {
    AbstractGroup {
        abstract_id: id,
        entry_indices: indices.to_vec(),
        versions: versions.iter().map(|(s, n)| VersionRef { set: s.to_string(), number: *n }).collect(),
        canonical: (versions[0].0.to_string(), versions[0].1),
    }
}

fn card_data(name: &str, card_type: &str) -> LimitlessCardData {
    LimitlessCardData {
        name: name.to_string(),
        card_type: card_type.to_string(),
        element: Some("Fire".to_string()),
        stage: Some("Stage 2".to_string()),
        hp: Some(180),
        retreat_cost: Some(2),
        weakness: Some("Water".to_string()),
        flavor: None,
        is_ex: true,
        is_mega: true,
        ability: Some(Ability { name: "Burn".to_string(), effect: "Attach a [Fire] Energy.".to_string() }),
        attacks: vec![Attack {
            name: "Blaze".to_string(),
            cost: strings(&["Fire"]),
            damage: 200,
            damage_suffix: None,
            effect: None,
        }],
        evolves_from: None,
        trainer_kind: None,
        trainer_effect: Some("Heal [Grass] ones.".to_string()),
        illustrator: None,
        card_source: None,
    }
}

#[test]
fn abstract_card_from_card_data() {
    let g = group(3, &[0], &[("A1", 4), ("A2", 8)]);
    let es = vec![entry("c1", &["c1"], &[("A1", 4)])];
    let d = card_data("Mega Charizard X ex", "pokemon");
    let c = build_abstract_card(3, &g, &es, Some(&d), &pokemon_map());
    assert_eq!(c.id, 3);
    assert_eq!(c.name, "Mega Charizard X ex");
    assert_eq!(c.natdex_number, Some(6));
    assert_eq!(c.is_ex, Some(true));
    assert_eq!(c.is_mega, Some(true));
    assert_eq!(c.variants, strings(&["X"]));
    assert_eq!(c.ability.as_ref().map(|a| a.effect.clone()).as_deref(), Some("Attach a [R] Energy."));
    assert_eq!(c.trainer_effect.as_deref(), Some("Heal [G] ones."));
    assert_eq!(c.attacks.len(), 1);
    assert_eq!(c.versions.len(), 2);
    assert_eq!(c.versions[1].set, "A2");
}

#[test]
fn abstract_card_of_a_trainer_has_no_pokemon_fields() {
    let g = group(4, &[0], &[("A1", 9)]);
    let es = vec![entry("t1", &["t1"], &[("A1", 9)])];
    let d = card_data("Charizard Fan", "trainer");
    let c = build_abstract_card(4, &g, &es, Some(&d), &pokemon_map());
    assert_eq!(c.natdex_number, None);
    assert_eq!(c.is_ex, None);
    assert_eq!(c.is_mega, None);
    assert!(c.variants.is_empty());
}

#[test]
fn minimal_abstract_card_without_data() {
    let g = group(7, &[0], &[("A3", 12)]);
    let mut e = entry("t1", &["t1"], &[("A3", 12)]);
    e.card_type = "trainer".to_string();
    let c = build_abstract_card(7, &g, &vec![e], None, &pokemon_map());
    assert_eq!(c.name, "A3-012");
    assert_eq!(c.card_type, "trainer");
    assert_eq!(c.hp, None);
    assert!(c.attacks.is_empty());
    assert_eq!(c.versions.len(), 1);
}

fn one_rate(n: i128, d: i128) -> Rate {
    Rate { numerator: Dec { mantissa: n, scale: 0 }, denominator: Dec { mantissa: d, scale: 0 } }
}

#[test]
fn pull_rate_cards_rekeyed_by_number_in_the_pack_set() {
    let mut rates = PackPullRates {
        set: "A1".to_string(),
        subtitle: "Mewtwo".to_string(),
        variants: vec![(
            "normal".to_string(),
            PackVariantRates {
                rate: one_rate(1, 1),
                slot_count: 1,
                rarity_rates_by_slot: Vec::new(),
                card_rates: vec![
                    ("PK_10".to_string(), vec![Some(one_rate(1, 33))]),
                    ("PK_gone".to_string(), vec![None]),
                    ("PK_other".to_string(), vec![Some(one_rate(1, 50))]),
                ],
            },
        )],
    };
    let map = vec![
        ("PK_10".to_string(), vec![("A2".to_string(), 99), ("A1".to_string(), 10)]),
        ("PK_other".to_string(), vec![("B1".to_string(), 3)]),
    ];
    remap_pull_rate_card_ids(&mut rates, &map);
    assert_eq!(rates.set, "A1");
    let cards = &rates.variants[0].1.card_rates;
    let mut keys: Vec<&str> = cards.iter().map(|(k, _)| k.as_str()).collect();
    keys.sort();
    assert_eq!(keys, vec!["003", "010"]);
    let ten = cards.iter().find(|(k, _)| k == "010").unwrap();
    assert_eq!(ten.1[0].as_ref().map(|r| r.denominator.mantissa), Some(33));
}

#[test]
fn abstract_groups_numbered_by_first_release() {
    let es = vec![
        entry("a", &["a", "b"], &[("A2", 5)]),
        entry("b", &["b", "a"], &[("A1", 3), ("A2", 5)]),
        entry("c", &["c"], &[("A1", 1)]),
    ];
    let dates = pairs(&[("A1", "2024-10-30"), ("A2", "2024-12-17")]);
    let gs = build_abstract_groups(&es, &dates);
    assert_eq!(gs.len(), 2);
    assert_eq!(gs[0].abstract_id, 1);
    assert_eq!(gs[0].entry_indices, vec![2]);
    assert_eq!(gs[0].canonical, ("A1".to_string(), 1));
    assert_eq!(gs[1].abstract_id, 2);
    assert_eq!(gs[1].entry_indices, vec![0, 1]);
    let vs: Vec<(String, u32)> = gs[1].versions.iter().map(|v| (v.set.clone(), v.number)).collect();
    assert_eq!(vs, vec![("A1".to_string(), 3), ("A2".to_string(), 5)]);
    assert_eq!(gs[1].canonical, ("A1".to_string(), 3));
}

#[test]
fn unknown_release_dates_sort_last() {
    let es = vec![entry("x", &["x"], &[("ZZ", 1)]), entry("y", &["y"], &[("A1", 50)])];
    let gs = build_abstract_groups(&es, &pairs(&[("A1", "2024-10-30")]));
    assert_eq!(gs[0].canonical, ("A1".to_string(), 50));
    assert_eq!(gs[1].canonical, ("ZZ".to_string(), 1));
}

#[test]
fn group_versions_listed_once_each() {
    let es = vec![
        entry("a", &["a", "b"], &[("A", 1), ("B", 1)]),
        entry("b", &["b", "a"], &[("A", 1)]),
    ];
    let gs = build_abstract_groups(&es, &Vec::new());
    assert_eq!(gs.len(), 1);
    let vs: Vec<(String, u32)> = gs[0].versions.iter().map(|v| (v.set.clone(), v.number)).collect();
    assert_eq!(vs, vec![("A".to_string(), 1), ("B".to_string(), 1)]);
    assert_eq!(gs[0].canonical, ("A".to_string(), 1));
}

fn version(set: &str, number: u32, card_id: u32, reprint: bool, dups: &[(&str, u32)]) -> CardVersion {
    CardVersion {
        set: set.to_string(),
        number,
        card_id,
        rarity: "C".to_string(),
        illustrator: Some("X".to_string()),
        is_promo: false,
        is_foil: false,
        is_reprint: reprint,
        is_tradable: true,
        packs: Vec::new(),
        source: String::new(),
        promo_sources: Vec::new(),
        duplicates: dups.iter().map(|(s, n)| VersionRef { set: s.to_string(), number: *n }).collect(),
    }
}

#[test]
fn reprints_and_duplicate_links() {
    let vs = vec![
        version("A2", 7, 1, false, &[]),
        version("A1", 1, 1, false, &[]),
        version("A1", 2, 2, false, &[]),
    ];
    let dates = pairs(&[("A1", "2024-10-30"), ("A2", "2024-12-17")]);
    let ups = duplicate_updates(&vs, &dates);
    assert_eq!(ups.len(), 2);
    assert_eq!((ups[0].set.as_str(), ups[0].number), ("A2", 7));
    assert!(ups[0].is_reprint);
    assert_eq!(ups[0].duplicates.len(), 1);
    assert_eq!((ups[0].duplicates[0].set.as_str(), ups[0].duplicates[0].number), ("A1", 1));
    assert_eq!((ups[1].set.as_str(), ups[1].number), ("A1", 1));
    assert!(!ups[1].is_reprint);
    assert_eq!((ups[1].duplicates[0].set.as_str(), ups[1].duplicates[0].number), ("A2", 7));
}

#[test]
fn exactly_one_original_per_physical_card() {
    let vs = vec![
        version("A3", 1, 1, false, &[]),
        version("A1", 1, 1, false, &[]),
        version("A2", 4, 1, false, &[]),
    ];
    let dates = pairs(&[("A1", "2024-10-30"), ("A2", "2024-12-17"), ("A3", "2025-01-29")]);
    let ups = duplicate_updates(&vs, &dates);
    let originals: Vec<&CardVersion> = ups.iter().filter(|v| !v.is_reprint).collect();
    assert_eq!(originals.len(), 1);
    assert_eq!(originals[0].set, "A1");
    for u in &ups {
        assert_eq!(u.duplicates.len(), 2);
        assert!(u.duplicates.iter().all(|d| !(d.set == u.set && d.number == u.number)));
    }
}

#[test]
fn versions_already_linked_are_not_rewritten() {
    let vs = vec![version("A1", 1, 1, false, &[("A2", 2)]), version("A2", 2, 1, true, &[("A1", 1)])];
    let dates = pairs(&[("A1", "2024-10-30"), ("A2", "2024-12-17")]);
    assert!(duplicate_updates(&vs, &dates).is_empty());
}

#[test]
fn groups_need_a_version() {
    let ok = vec![entry("a", &["a", "b"], &[]), entry("b", &["b", "a"], &[("A1", 3)])];
    assert!(groups_have_versions(&ok));
    let bad = vec![entry("a", &["a"], &[("A1", 1)]), entry("c", &["c"], &[])];
    assert!(!groups_have_versions(&bad));
}
