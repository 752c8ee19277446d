use ptcgp_data::db::{
    checked_common_denominator, checked_lcm, checked_rate_to_integers, common_denominator, gcd, lcm,
    rarity_numerator, rate_to_integers, scaled_numerator, scaled_rate, scope_fractions, slot_scope,
};
use ptcgp_data::decimal::Dec;
use ptcgp_data::derive::fix_card_rates_from_rarity;
use ptcgp_data::json::JsonValue;
use ptcgp_data::models::{PackPullRates, PackVariantRates, Rate, RaritySlotRates};
use ptcgp_data::rates::{normalize_rate, parse_rate_obj, parse_slot_rates, rate_gcd, Normalized, PullRateError, RateApprox};
use ptcgp_data::rsc::{extract_json_at_key, extract_rsc_chunk, parse_rsc_pull_rates};

fn dec(mantissa: i128, scale: u32) -> Dec {
    Dec { mantissa, scale }
}

fn rate(n: (i128, u32), d: (i128, u32)) -> Rate {
    Rate { numerator: dec(n.0, n.1), denominator: dec(d.0, d.1) }
}

fn no_table() -> RateApprox {
    RateApprox { entries: Vec::new() }
}

fn rate_json(n: &str, d: &str) -> JsonValue {
    JsonValue::Object(vec![
        ("numerator".to_string(), JsonValue::Number(n.to_string())),
        ("denominator".to_string(), JsonValue::Number(d.to_string())),
    ])
}

#[test]
fn euclid_gcd() {
    assert_eq!(rate_gcd(12, 18), 6);
    assert_eq!(rate_gcd(7, 0), 7);
    assert_eq!(rate_gcd(0, 5), 5);
    assert_eq!(gcd(48, 36), 12);
    assert_eq!(gcd(-4, 6), 2);
}

#[test]
fn lcm_of_two_denominators() {
    assert_eq!(lcm(4, 6), 12);
    assert_eq!(lcm(33, 2000), 66000);
    assert_eq!(lcm(5, 5), 5);
}

#[test]
fn common_denominator_is_a_multiple_of_each() {
    let ds = vec![4i64, 6, 10];
    let l = common_denominator(&ds);
    assert_eq!(l, 60);
    for d in &ds {
        assert_eq!(l % d, 0);
    }
    assert_eq!(common_denominator(&vec![]), 1);
}

#[test]
fn scaled_numerators_keep_the_value() {
    // 1/4 and 1/6 over 12: 3/12 and 2/12.
    assert_eq!(scaled_numerator(1, 4, 12), 3);
    assert_eq!(scaled_numerator(1, 6, 12), 2);
    assert_eq!(scaled_numerator(5, 3, 60) * 3, 5 * 60);
}

#[test]
fn rate_as_integer_fraction() {
    assert_eq!(rate_to_integers(&rate((25, 2), (1, 0))), (1, 4));
    assert_eq!(rate_to_integers(&rate((1999, 0), (2000, 0))), (1999, 2000));
    assert_eq!(rate_to_integers(&rate((5, 1), (10, 0))), (1, 20));
    assert_eq!(checked_rate_to_integers(&rate((3, 0), (9, 0))), Some((1, 3)));
}

#[test]
fn normalize_exact_rates() {
    assert!(matches!(normalize_rate(&dec(25, 2), &dec(1, 0)), Normalized::Exact(1, 4)));
    assert!(matches!(normalize_rate(&dec(1, 0), &dec(33, 0)), Normalized::Exact(1, 33)));
    assert!(matches!(normalize_rate(&dec(-6, 0), &dec(8, 0)), Normalized::Exact(-3, 4)));
}

#[test]
fn normalize_float_artifact_needs_approximation() {
    // 0.013333333333333333 / 1 scales to a denominator of 10^18.
    assert!(matches!(normalize_rate(&dec(13333333333333333, 18), &dec(1, 0)), Normalized::Approximate));
}

#[test]
fn rate_objects() {
    let r = parse_rate_obj(&rate_json("0.25", "1"), &no_table());
    match r {
        Ok(Some(x)) => {
            assert_eq!((x.numerator.mantissa, x.numerator.scale), (1, 0));
            assert_eq!((x.denominator.mantissa, x.denominator.scale), (4, 0));
        }
        _ => panic!("expected an exact rate"),
    }
    let missing = JsonValue::Object(vec![("numerator".to_string(), JsonValue::Number("1".to_string()))]);
    assert!(matches!(parse_rate_obj(&missing, &no_table()), Ok(None)));
}

#[test]
fn rate_object_float_uses_the_table() {
    let v = rate_json("0.013333333333333333", "1");
    assert!(matches!(parse_rate_obj(&v, &no_table()), Err(PullRateError::MissingApproximation)));
    let table = RateApprox { entries: vec![(dec(13333333333333333, 18), dec(1, 0), 1, 75)] };
    match parse_rate_obj(&v, &table) {
        Ok(Some(x)) => {
            assert_eq!(x.numerator.mantissa, 1);
            assert_eq!(x.denominator.mantissa, 75);
        }
        _ => panic!("expected the approximated rate"),
    }
}

#[test]
fn slot_arrays() {
    let v = JsonValue::Array(vec![rate_json("1", "33"), JsonValue::Null, rate_json("2", "4")]);
    match parse_slot_rates(&v, &no_table()) {
        Ok(slots) => {
            assert_eq!(slots.len(), 3);
            assert_eq!(slots[0].as_ref().map(|r| r.denominator.mantissa), Some(33));
            assert!(slots[1].is_none());
            assert_eq!(slots[2].as_ref().map(|r| (r.numerator.mantissa, r.denominator.mantissa)), Some((1, 2)));
        }
        Err(_) => panic!("expected slots"),
    }
    assert!(matches!(parse_slot_rates(&JsonValue::Null, &no_table()), Ok(ref s) if s.is_empty()));
}

#[test]
fn rsc_chunk_with_the_key() {
    let html = r#"<script>self.__next_f.push([1,"other"])</script><script>self.__next_f.push([1,"{\"cardPullProbabilityMap\":{\"a\":1}}"])</script>"#;
    let chunk = extract_rsc_chunk(html, "cardPullProbabilityMap").ok().unwrap();
    assert_eq!(chunk, r#"{"cardPullProbabilityMap":{"a":1}}"#);
    let at = extract_json_at_key(&chunk, "cardPullProbabilityMap").ok().unwrap();
    assert_eq!(at, r#"{"a":1}}"#);
}

#[test]
fn rsc_chunk_errors() {
    let html = r#"self.__next_f.push([1,"nothing here"])"#;
    assert!(matches!(extract_rsc_chunk(html, "cardPullProbabilityMap"), Err(PullRateError::ChunkNotFound)));
    let bad = r#"self.__next_f.push([1,"key \u12"])"#;
    assert!(matches!(extract_rsc_chunk(bad, "key"), Err(PullRateError::ChunkUnescape)));
    assert!(matches!(extract_json_at_key("{\"a\":1}", "b"), Err(PullRateError::KeyNotFound)));
}

#[test]
fn checked_lcm_and_overflow() {
    assert_eq!(checked_lcm(4, 6), Some(12));
    assert_eq!(checked_lcm(i64::MAX, i64::MAX - 1), None);
    assert_eq!(checked_common_denominator(&vec![3, 4, 5]), Some(60));
    assert_eq!(checked_common_denominator(&vec![i64::MAX, i64::MAX - 1]), None);
}

#[test]
fn scope_over_a_common_denominator() {
    // 1/4, 1/6 and 0.5 over their lcm 12: 3, 2 and 6.
    let rates = vec![rate((1, 0), (4, 0)), rate((1, 0), (6, 0)), rate((5, 1), (1, 0))];
    let (l, ns) = scope_fractions(&rates).unwrap();
    assert_eq!(l, 12);
    assert_eq!(ns, vec![3, 2, 6]);
    for (r, n) in rates.iter().zip(&ns) {
        let (a, b) = rate_to_integers(r);
        assert_eq!(n * b, a * l);
    }
    assert_eq!(scope_fractions(&vec![]), Some((1, vec![])));
}

#[test]
fn scope_that_overflows() {
    let rates = vec![rate((1, 0), (i64::MAX as i128, 0)), rate((1, 0), ((i64::MAX - 1) as i128, 0))];
    assert_eq!(scope_fractions(&rates), None);
}

#[test]
fn rarity_numerators_add_finishes() {
    assert_eq!(rarity_numerator(Some(3), Some(4)), Some(7));
    assert_eq!(rarity_numerator(Some(3), None), Some(3));
    assert_eq!(rarity_numerator(None, Some(4)), Some(4));
    assert_eq!(rarity_numerator(None, None), None);
    assert_eq!(rarity_numerator(Some(i64::MAX), Some(1)), None);
}


fn obj(v: Vec<(&str, JsonValue)>) -> JsonValue {
    JsonValue::Object(v.into_iter().map(|(k, x)| (k.to_string(), x)).collect())
}

fn fraction(r: &Rate) -> (i128, i128) {
    assert_eq!((r.numerator.scale, r.denominator.scale), (0, 0));
    (r.numerator.mantissa, r.denominator.mantissa)
}

fn variant<'a>(vs: &'a [(String, PackVariantRates)], name: &str) -> Option<&'a PackVariantRates> {
    vs.iter().find(|(k, _)| k == name).map(|(_, v)| v)
}

fn card<'a>(v: &'a PackVariantRates, key: &str) -> Option<&'a Vec<Option<Rate>>> {
    v.card_rates.iter().find(|(k, _)| k == key).map(|(_, s)| s)
}

#[test]
fn pack_variants_with_plus1_alignment() {
    let card_map = obj(vec![
        (
            "c1",
            obj(vec![(
                "byPack",
                obj(vec![(
                    "AN001",
                    obj(vec![(
                        "cardProbability",
                        obj(vec![
                            ("normal", JsonValue::Array(vec![rate_json("1", "33"), JsonValue::Null])),
                            ("plus1", JsonValue::Array(vec![rate_json("1", "50")])),
                        ]),
                    )]),
                )]),
            )]),
        ),
        ("c2", obj(vec![("byPack", obj(vec![("OTHER", obj(vec![]))]))])),
    ]);
    let pack_data = obj(vec![
        ("byPackType", obj(vec![("normal", rate_json("0.95", "1")), ("plus1", rate_json("1", "20"))])),
        (
            "byRarity",
            obj(vec![
                ("normal", JsonValue::Array(vec![obj(vec![("C", rate_json("1", "1"))]), obj(vec![("U", rate_json("1", "1"))])])),
                (
                    "plus1",
                    JsonValue::Array(vec![
                        obj(vec![("C", rate_json("1", "1"))]),
                        obj(vec![("U", rate_json("1", "1"))]),
                        obj(vec![("R", rate_json("1", "1"))]),
                    ]),
                ),
            ]),
        ),
    ]);
    let rates = match parse_rsc_pull_rates(&card_map, Some(&pack_data), "AN001", "A1", "Mewtwo", &no_table()) {
        Ok(r) => r,
        Err(_) => panic!("expected pull rates"),
    };
    assert_eq!(rates.set, "A1");
    assert_eq!(rates.subtitle, "Mewtwo");
    let normal = variant(&rates.variants, "normal").unwrap();
    assert_eq!(fraction(&normal.rate), (19, 20));
    assert_eq!(normal.slot_count, 2);
    assert_eq!(normal.rarity_rates_by_slot.len(), 2);
    let c1 = card(normal, "c1").unwrap();
    assert_eq!(c1.len(), 2);
    assert_eq!(fraction(c1[0].as_ref().unwrap()), (1, 33));
    assert!(c1[1].is_none());
    assert!(card(normal, "c2").is_none());
    assert!(variant(&rates.variants, "rare").is_none());
    let plus1 = variant(&rates.variants, "plus1").unwrap();
    assert_eq!(fraction(&plus1.rate), (1, 20));
    assert_eq!(plus1.slot_count, 3);
    let p = card(plus1, "c1").unwrap();
    assert_eq!(p.len(), 3);
    assert!(p[0].is_none() && p[1].is_none());
    assert_eq!(fraction(p[2].as_ref().unwrap()), (1, 50));
}

#[test]
fn embedded_themed_pack_is_split_from_rare() {
    let card_map = obj(vec![(
        "c3",
        obj(vec![(
            "byPack",
            obj(vec![(
                "AN002",
                obj(vec![("cardProbability", obj(vec![("rare", JsonValue::Array(vec![rate_json("1", "2")]))]))]),
            )]),
        )]),
    )]);
    let pack_data = obj(vec![
        (
            "byPackType",
            obj(vec![
                ("normal", rate_json("0.95", "1")),
                ("rare", rate_json("0.01", "1")),
                ("plus1", rate_json("0.03", "1")),
            ]),
        ),
        (
            "byRarity",
            obj(vec![(
                "rare",
                JsonValue::Array(vec![obj(vec![("SR", rate_json("1", "2"))]), obj(vec![("IM", rate_json("1", "1"))])]),
            )]),
        ),
    ]);
    let rates = match parse_rsc_pull_rates(&card_map, Some(&pack_data), "AN002", "B2b", "Mega Shine", &no_table()) {
        Ok(r) => r,
        Err(_) => panic!("expected pull rates"),
    };
    let rare = variant(&rates.variants, "rare").unwrap();
    assert_eq!(fraction(&rare.rate), (1, 100));
    assert_eq!(rare.rarity_rates_by_slot.len(), 1);
    assert!(rare.card_rates.is_empty());
    assert_eq!(rare.slot_count, 1);
    let themed = variant(&rates.variants, "themed").unwrap();
    assert_eq!(fraction(&themed.rate), (1, 100));
    assert_eq!(themed.rarity_rates_by_slot.len(), 1);
    assert_eq!(themed.rarity_rates_by_slot[0][0].0, "IM");
    assert_eq!(fraction(card(themed, "c3").unwrap()[0].as_ref().unwrap()), (1, 2));
    assert_eq!(fraction(&variant(&rates.variants, "plus1").unwrap().rate), (3, 100));
}

#[test]
fn card_map_must_be_an_object() {
    let r = parse_rsc_pull_rates(&JsonValue::Array(vec![]), None, "AN001", "A1", "Mewtwo", &no_table());
    assert!(matches!(r, Err(PullRateError::CardMapNotObject)));
}

#[test]
fn string_rates_are_read_as_decimals() {
    let v = JsonValue::Object(vec![
        ("numerator".to_string(), JsonValue::Str("0.25".to_string())),
        ("denominator".to_string(), JsonValue::Str("1".to_string())),
    ]);
    match parse_rate_obj(&v, &no_table()) {
        Ok(Some(x)) => assert_eq!(fraction(&x), (1, 4)),
        _ => panic!("expected a rate"),
    }
    let bad = JsonValue::Object(vec![
        ("numerator".to_string(), JsonValue::Str("abc".to_string())),
        ("denominator".to_string(), JsonValue::Str("1".to_string())),
    ]);
    assert!(matches!(parse_rate_obj(&bad, &no_table()), Ok(None)));
}

#[test]
fn slot_scope_and_scaled_rates() {
    let v = PackVariantRates {
        rate: rate((1, 0), (1, 0)),
        slot_count: 2,
        rarity_rates_by_slot: vec![
            vec![
                ("C".to_string(), RaritySlotRates { normal: Some(rate((1, 0), (2, 0))), foil: Some(rate((1, 0), (4, 0))) }),
                ("U".to_string(), RaritySlotRates { normal: None, foil: Some(rate((1, 0), (4, 0))) }),
            ],
            vec![("R".to_string(), RaritySlotRates { normal: Some(rate((1, 0), (1, 0))), foil: None })],
        ],
        card_rates: vec![
            ("001".to_string(), vec![Some(rate((1, 0), (6, 0))), None]),
            ("002".to_string(), vec![None, Some(rate((1, 0), (3, 0)))]),
            ("003".to_string(), vec![Some(rate((1, 0), (12, 0)))]),
        ],
    };
    let s0 = slot_scope(&v, 0);
    let dens: Vec<i128> = s0.iter().map(|r| r.denominator.mantissa).collect();
    assert_eq!(dens, vec![2, 4, 4, 6, 12]);
    let (l, ns) = scope_fractions(&s0).unwrap();
    assert_eq!(l, 12);
    assert_eq!(ns, vec![6, 3, 3, 2, 1]);
    assert_eq!(scaled_rate(&s0[0], l), Some(6));
    assert_eq!(scaled_rate(&rate((1, 0), (5, 0)), 12), Some(2));
    assert_eq!(scaled_rate(&rate((i64::MAX as i128, 0), (1, 0)), 2), None);
    let s1 = slot_scope(&v, 1);
    assert_eq!(s1.len(), 2);
    assert!(slot_scope(&v, 5).is_empty());
}

fn int_rate(n: i128, d: i128) -> Rate {
    rate((n, 0), (d, 0))
}

#[test]
fn card_rates_derived_from_rarity_rates() {
    let cards = ["c1", "c2", "c3", "c4", "c5"];
    let mut rates = PackPullRates {
        set: "A4b".to_string(),
        subtitle: "Deluxe".to_string(),
        variants: vec![(
            "normal".to_string(),
            PackVariantRates {
                rate: int_rate(1, 1),
                slot_count: 1,
                rarity_rates_by_slot: vec![vec![
                    ("C".to_string(), RaritySlotRates { normal: Some(int_rate(1, 2)), foil: None }),
                    ("R".to_string(), RaritySlotRates { normal: Some(int_rate(1, 2)), foil: None }),
                ]],
                card_rates: cards
                    .iter()
                    .map(|c| (c.to_string(), vec![Some(int_rate(1, 3))]))
                    .collect(),
            },
        )],
    };
    let rarity: Vec<(String, String)> = vec![
        ("c1".to_string(), "C".to_string()),
        ("c2".to_string(), "C".to_string()),
        ("c3".to_string(), "R".to_string()),
        ("c4".to_string(), "R".to_string()),
        ("c5".to_string(), "X".to_string()),
    ];
    let foil: Vec<(String, bool)> = vec![
        ("c1".to_string(), true),
        ("c2".to_string(), true),
        ("c3".to_string(), true),
        ("c4".to_string(), false),
    ];
    fix_card_rates_from_rarity(&mut rates, &rarity, &foil);
    let v = &rates.variants[0].1;
    let card_rate = |k: &str| fraction(v.card_rates.iter().find(|(c, _)| c == k).unwrap().1[0].as_ref().unwrap());
    // All-foil C gives the mirror rate (1/2) / 2 = 1/4; the mixed R's non-foil
    // card gets what is left of its rarity after the foil card: 1/2 - 1/4.
    assert_eq!(card_rate("c1"), (1, 4));
    assert_eq!(card_rate("c2"), (1, 4));
    assert_eq!(card_rate("c3"), (1, 4));
    assert_eq!(card_rate("c4"), (1, 4));
    // A rarity the slot does not list keeps the published value.
    assert_eq!(card_rate("c5"), (1, 3));
    let slot = &v.rarity_rates_by_slot[0];
    let c = &slot.iter().find(|(k, _)| k == "C").unwrap().1;
    assert!(c.normal.is_none());
    assert_eq!(fraction(c.foil.as_ref().unwrap()), (1, 2));
    let r = &slot.iter().find(|(k, _)| k == "R").unwrap().1;
    assert_eq!(fraction(r.normal.as_ref().unwrap()), (1, 4));
    assert_eq!(fraction(r.foil.as_ref().unwrap()), (1, 4));
}

#[test]
fn card_rates_without_foils_split_evenly() {
    let mut rates = PackPullRates {
        set: "A1".to_string(),
        subtitle: "Mewtwo".to_string(),
        variants: vec![(
            "normal".to_string(),
            PackVariantRates {
                rate: int_rate(1, 1),
                slot_count: 1,
                rarity_rates_by_slot: vec![vec![("U".to_string(), RaritySlotRates { normal: Some(int_rate(3, 10)), foil: None })]],
                card_rates: vec![
                    ("u1".to_string(), vec![Some(int_rate(1, 10))]),
                    ("u2".to_string(), vec![Some(int_rate(1, 10))]),
                    ("u3".to_string(), vec![None]),
                ],
            },
        )],
    };
    let rarity: Vec<(String, String)> =
        vec![("u1".to_string(), "U".to_string()), ("u2".to_string(), "U".to_string()), ("u3".to_string(), "U".to_string())];
    fix_card_rates_from_rarity(&mut rates, &rarity, &Vec::new());
    let v = &rates.variants[0].1;
    assert_eq!(fraction(v.card_rates[0].1[0].as_ref().unwrap()), (3, 20));
    assert_eq!(fraction(v.card_rates[1].1[0].as_ref().unwrap()), (3, 20));
    assert!(v.card_rates[2].1[0].is_none());
    let u = &v.rarity_rates_by_slot[0][0].1;
    assert_eq!(fraction(u.normal.as_ref().unwrap()), (3, 10));
    assert!(u.foil.is_none());
}
