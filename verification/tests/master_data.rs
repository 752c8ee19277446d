use ptcgp_data::json::JsonValue;
use ptcgp_data::raenonx::{
    card_source_from_raenonx, normalize_expansion_id, parse_card_entries,
    parse_card_source_codes, parse_expansion_packs, parse_named_pack_ids, parse_pack_expansion,
    parse_promo_pack_subtitles, parse_rarity_codes, parse_regular_packs, rarity_points, MasterDataError,
};

fn s(x: &str) -> JsonValue {
    JsonValue::Str(x.to_string())
}

fn n(x: &str) -> JsonValue {
    JsonValue::Number(x.to_string())
}

fn arr(v: Vec<JsonValue>) -> JsonValue {
    JsonValue::Array(v)
}

fn obj(v: Vec<(&str, JsonValue)>) -> JsonValue {
    JsonValue::Object(v.into_iter().map(|(k, x)| (k.to_string(), x)).collect())
}

fn lookup<'a, V>(es: &'a [(String, V)], k: &str) -> Option<&'a V> {
    es.iter().find(|(key, _)| key == k).map(|(_, v)| v)
}

fn master() -> JsonValue {
    obj(vec![
        (
            "cardEntryMap",
            obj(vec![
                (
                    "c1",
                    obj(vec![
                        ("cardType", s("pokemon")),
                        ("rarity", s("C")),
                        (
                            "collectionNums",
                            arr(vec![
                                obj(vec![("expansion", obj(vec![("id", s("A1"))])), ("num", n("1"))]),
                                obj(vec![("expansion", obj(vec![("id", s("PROMO-A"))])), ("num", n("7"))]),
                                obj(vec![("num", n("3"))]),
                            ]),
                        ),
                        ("play", obj(vec![("cardIds", arr(vec![s("c1"), s("c2")]))])),
                        ("source", obj(vec![("pack", arr(vec![s("AN001")]))])),
                    ]),
                ),
                (
                    "c2",
                    obj(vec![
                        ("rarity", s("AR")),
                        ("mirrorType", s("normalMirror")),
                        ("isTradable", JsonValue::Bool(false)),
                        ("promotion", obj(vec![("sourceI18nId", s("FEED"))])),
                    ]),
                ),
                ("c3", obj(vec![("rarity", s("")), ("promotion", obj(vec![("sourceI18nId", s("SPECIAL"))]))])),
            ]),
        ),
        (
            "cardExpansionMap",
            obj(vec![
                ("A1", obj(vec![("packsInExpansion", arr(vec![s("AN001"), s("AN002")]))])),
                ("PROMO-A", obj(vec![("packsInExpansion", arr(vec![]))])),
            ]),
        ),
        (
            "cardPackMap",
            obj(vec![
                ("AN002", obj(vec![("isRegular", JsonValue::Bool(true)), ("expansionId", s("A1"))])),
                ("AN001", obj(vec![("isRegular", JsonValue::Bool(true)), ("expansionId", s("A1"))])),
                (
                    "AP001",
                    obj(vec![
                        ("isRegular", JsonValue::Bool(true)),
                        ("expansionId", s("PROMO-A")),
                        ("descriptionId", s("PROMO_SHOP_1")),
                    ]),
                ),
                ("BX001", obj(vec![("expansionId", s("PROMO-B"))])),
            ]),
        ),
    ])
}

#[test]
fn expansion_ids() {
    assert_eq!(normalize_expansion_id("PROMO-A"), "P-A");
    assert_eq!(normalize_expansion_id("PROMO-B"), "P-B");
    assert_eq!(normalize_expansion_id("A1"), "A1");
    assert_eq!(normalize_expansion_id("B2a"), "B2a");
}

#[test]
fn card_entries_from_master_data() {
    let es = parse_card_entries(&master()).ok().unwrap();
    assert_eq!(es.len(), 3);
    let c1 = &es[0];
    assert_eq!(c1.card_id, "c1");
    assert_eq!(c1.card_type, "pokemon");
    assert_eq!(c1.rarity, "C");
    assert!(!c1.is_foil);
    assert!(c1.is_tradable);
    assert_eq!(c1.collection_nums, vec![("A1".to_string(), 1), ("P-A".to_string(), 7)]);
    assert_eq!(c1.card_ids_group, vec!["c1".to_string(), "c2".to_string()]);
    assert_eq!(c1.source_packs, vec!["AN001".to_string()]);
    assert_eq!(c1.card_source.as_deref(), Some("Pack"));
    let c2 = &es[1];
    assert_eq!(c2.card_type, "unknown");
    assert!(c2.is_foil);
    assert!(!c2.is_tradable);
    assert_eq!(c2.card_ids_group, vec!["c2".to_string()]);
    assert!(c2.collection_nums.is_empty());
    assert_eq!(c2.card_source.as_deref(), Some("Wonder Pick"));
    assert_eq!(es[2].card_source.as_deref(), Some("SPECIAL"));
}

#[test]
fn card_entries_need_the_entry_map() {
    let r = parse_card_entries(&obj(vec![("other", obj(vec![]))]));
    assert!(matches!(r, Err(MasterDataError::CardEntryMapMissing)));
    let r2 = parse_card_entries(&obj(vec![("cardEntryMap", arr(vec![]))]));
    assert!(matches!(r2, Err(MasterDataError::CardEntryMapMissing)));
}

#[test]
fn card_sources() {
    let shop = |src: JsonValue| obj(vec![("promotion", obj(vec![("sourceI18nId", s("SHOP"))])), ("source", src)]);
    assert_eq!(
        card_source_from_raenonx(&shop(obj(vec![("itemShop", arr(vec![s("PREMIUM")]))]))).as_deref(),
        Some("Premium Mission")
    );
    assert_eq!(
        card_source_from_raenonx(&shop(obj(vec![("goldShop", arr(vec![n("1")]))]))).as_deref(),
        Some("Gold Shop")
    );
    assert_eq!(card_source_from_raenonx(&shop(obj(vec![]))).as_deref(), Some("Shop"));
    let promo = |id: &str| obj(vec![("promotion", obj(vec![("sourceI18nId", s(id))]))]);
    assert_eq!(card_source_from_raenonx(&promo("PACK")).as_deref(), Some("Pack"));
    assert_eq!(card_source_from_raenonx(&promo("MISSION")).as_deref(), Some("Mission"));
    assert_eq!(card_source_from_raenonx(&promo("CAMPAIGN")).as_deref(), Some("Mission"));
    let fallback = |src: JsonValue| obj(vec![("source", src)]);
    assert_eq!(
        card_source_from_raenonx(&fallback(obj(vec![("wonderPick", obj(vec![("x", arr(vec![n("1")]))]))]))).as_deref(),
        Some("Wonder Pick")
    );
    assert_eq!(
        card_source_from_raenonx(&fallback(obj(vec![("mission", arr(vec![n("1")]))]))).as_deref(),
        Some("Mission")
    );
    assert_eq!(card_source_from_raenonx(&fallback(obj(vec![("pack", arr(vec![]))]))), None);
    assert_eq!(card_source_from_raenonx(&obj(vec![])), None);
}

#[test]
fn expansion_packs_skip_empty_lists() {
    let m = parse_expansion_packs(&master());
    assert_eq!(m.len(), 1);
    assert_eq!(lookup(&m, "A1"), Some(&vec!["AN001".to_string(), "AN002".to_string()]));
    assert_eq!(lookup(&m, "P-A"), None);
}

#[test]
fn regular_and_named_packs_sorted() {
    assert_eq!(
        parse_regular_packs(&master()),
        vec!["AN001".to_string(), "AN002".to_string(), "AP001".to_string()]
    );
    assert_eq!(parse_named_pack_ids(&master()), vec!["AN001".to_string(), "AN002".to_string()]);
}

#[test]
fn pack_expansions() {
    let m = parse_pack_expansion(&master());
    assert_eq!(lookup(&m, "AN001").map(String::as_str), Some("A1"));
    assert_eq!(lookup(&m, "AP001").map(String::as_str), Some("P-A"));
    assert_eq!(lookup(&m, "BX001").map(String::as_str), Some("P-B"));
    assert_eq!(m.len(), 4);
}

#[test]
fn promo_pack_subtitles() {
    let m = parse_promo_pack_subtitles(&master());
    assert_eq!(m.len(), 1);
    assert_eq!(lookup(&m, "AP001").map(String::as_str), Some("PROMO_SHOP_1"));
}

#[test]
fn source_codes_in_display_order() {
    assert_eq!(
        parse_card_source_codes(&master()),
        vec!["Pack".to_string(), "Wonder Pick".to_string(), "SPECIAL".to_string()]
    );
}

#[test]
fn rarity_codes_sorted_once_each() {
    assert_eq!(parse_rarity_codes(&master()), vec!["AR".to_string(), "C".to_string()]);
}

#[test]
fn promo_pack_card_puts_pack_first() {
    let raw = obj(vec![(
        "cardEntryMap",
        obj(vec![
            (
                "p1",
                obj(vec![
                    ("promotion", obj(vec![("sourceI18nId", s("MISSION"))])),
                    ("source", obj(vec![("pack", arr(vec![s("AP001")]))])),
                ]),
            ),
            ("p2", obj(vec![("promotion", obj(vec![("sourceI18nId", s("FEED"))]))])),
        ]),
    )]);
    assert_eq!(
        parse_card_source_codes(&raw),
        vec!["Pack".to_string(), "Wonder Pick".to_string(), "Mission".to_string()]
    );
}

#[test]
fn named_packs_are_regular_packs_without_promo_packs() {
    let raw = master();
    let promo = parse_promo_pack_subtitles(&raw);
    let expected: Vec<String> = parse_regular_packs(&raw)
        .into_iter()
        .filter(|k| lookup(&promo, k).is_none())
        .collect();
    assert_eq!(parse_named_pack_ids(&raw), expected);
}

#[test]
fn rarity_points_split_whole_and_other_numbers() {
    let raw = obj(vec![(
        "cardPackPointMap",
        obj(vec![("C", n("35")), ("AR", n("12.5")), ("X", s("nope")), ("UR", n("4294967297"))]),
    )]);
    let (whole, other) = rarity_points(&raw, "cardPackPointMap");
    assert_eq!(whole, vec![("C".to_string(), 35), ("UR".to_string(), 1)]);
    assert_eq!(other, vec![("AR".to_string(), "12.5".to_string())]);
    let (w2, o2) = rarity_points(&raw, "missing");
    assert!(w2.is_empty() && o2.is_empty());
}
