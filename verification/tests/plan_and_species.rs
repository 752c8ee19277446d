use ptcgp_data::catalog::AbstractGroup;
use ptcgp_data::json::JsonValue;
use ptcgp_data::models::{Availability, BasePokemon, CardEntry, SetSummary, VersionRef};
use ptcgp_data::plan::{
    canonicals_needing_data, card_versions_by_id, cards_to_fetch, natdex_by_name,
    packs_to_fetch, pull_rate_target, release_dates, set_is_promo, set_pack_subtitles,
    sets_to_scrape, version_index, version_target,
};
use ptcgp_data::species::{
    english_name, sort_by_natdex, species_count, species_entries, species_id_from_url,
    species_list_url,
};

fn strings(v: &[&str]) -> Vec<String> {
    v.iter().map(|s| s.to_string()).collect()
}

fn set(code: &str, date: Option<&str>, promo: bool) -> SetSummary {
    SetSummary {
        code: code.to_string(),
        name: code.to_string(),
        series: "A".to_string(),
        availability: date.map(|d| Availability { start: d.to_string(), end: None }),
        is_promo: promo,
        card_count: None,
        packs: Vec::new(),
    }
}

fn find<'a, V>(es: &'a [(String, V)], k: &str) -> Option<&'a V> {
    es.iter().find(|(a, _)| a == k).map(|(_, v)| v)
}

fn sets() -> Vec<SetSummary> {
    vec![set("A1", Some("2024-10-30"), false), set("P-A", None, true), set("A2", Some("2024-12-17"), false)]
}

#[test]
fn release_dates_of_sets_with_availability() {
    let d = release_dates(&sets());
    assert_eq!(d.len(), 2);
    assert_eq!(find(&d, "A1").map(String::as_str), Some("2024-10-30"));
    assert_eq!(find(&d, "A2").map(String::as_str), Some("2024-12-17"));
    assert_eq!(find(&d, "P-A"), None);
}

#[test]
fn promo_flags() {
    assert!(set_is_promo(&sets(), "P-A"));
    assert!(!set_is_promo(&sets(), "A1"));
    assert!(!set_is_promo(&sets(), "ZZ"));
}

#[test]
fn sets_chosen_by_filter() {
    assert_eq!(sets_to_scrape(&sets(), None), strings(&["A1", "P-A", "A2"]));
    assert_eq!(sets_to_scrape(&sets(), Some("A2")), strings(&["A2"]));
    assert!(sets_to_scrape(&sets(), Some("B9")).is_empty());
}

#[test]
fn pack_subtitles_of_a_set() {
    let exp = vec![("A1".to_string(), strings(&["AN001", "AN002", "AN003"]))];
    let names = vec![("AN002".to_string(), "Mewtwo".to_string()), ("AN001".to_string(), "Charizard".to_string())];
    assert_eq!(set_pack_subtitles(&set("A1", None, false), &exp, &names), strings(&["Charizard", "Mewtwo"]));
    assert!(set_pack_subtitles(&set("A1", None, true), &exp, &names).is_empty());
    assert!(set_pack_subtitles(&set("A9", None, false), &exp, &names).is_empty());
}

#[test]
fn packs_chosen_by_filter() {
    let packs = strings(&["AN001", "AN002"]);
    assert_eq!(packs_to_fetch(&packs, None), packs);
    assert_eq!(packs_to_fetch(&packs, Some("AN002")), strings(&["AN002"]));
    assert!(packs_to_fetch(&packs, Some("X")).is_empty());
}

#[test]
fn pull_rate_targets_with_defaults() {
    let exp = vec![("AN001".to_string(), "A1".to_string())];
    let subs = vec![("AN001".to_string(), "Charizard".to_string())];
    assert_eq!(pull_rate_target("AN001", &exp, &subs), ("A1".to_string(), "Charizard".to_string()));
    assert_eq!(pull_rate_target("AN009", &exp, &subs), ("unknown".to_string(), "AN009".to_string()));
}

fn entry(id: &str, nums: &[(&str, u32)]) -> CardEntry {
    CardEntry {
        card_id: id.to_string(),
        card_type: "pokemon".to_string(),
        rarity: "C".to_string(),
        is_foil: false,
        is_tradable: true,
        collection_nums: nums.iter().map(|(s, n)| (s.to_string(), *n)).collect(),
        card_ids_group: vec![id.to_string()],
        source_packs: Vec::new(),
        card_source: None,
    }
}

#[test]
fn versions_by_card_id_later_entry_wins() {
    let es = vec![entry("c1", &[("A1", 1)]), entry("c2", &[("A1", 2)]), entry("c1", &[("A2", 9)])];
    let m = card_versions_by_id(&es);
    assert_eq!(m.len(), 2);
    assert_eq!(find(&m, "c1"), Some(&vec![("A2".to_string(), 9)]));
    assert_eq!(find(&m, "c2"), Some(&vec![("A1".to_string(), 2)]));
}

fn group(id: u32, indices: &[usize], canonical: (&str, u32)) -> AbstractGroup {
    AbstractGroup {
        abstract_id: id,
        entry_indices: indices.to_vec(),
        versions: vec![VersionRef { set: canonical.0.to_string(), number: canonical.1 }],
        canonical: (canonical.0.to_string(), canonical.1),
    }
}

#[test]
fn version_index_and_lookup() {
    let es = vec![entry("a", &[("A1", 1), ("A2", 5)]), entry("b", &[("A1", 2)])];
    let gs = vec![group(1, &[0], ("A1", 1)), group(2, &[1], ("A1", 2))];
    let idx = version_index(&gs, &es);
    assert_eq!(idx.len(), 3);
    assert_eq!(version_target(&idx, "A2", 5), Some((1, 0)));
    assert_eq!(version_target(&idx, "A1", 2), Some((2, 1)));
    assert_eq!(version_target(&idx, "A1", 3), None);
}

#[test]
fn canonicals_of_groups_to_build() {
    let gs = vec![group(1, &[0], ("A1", 1)), group(2, &[1], ("A1", 2))];
    assert_eq!(canonicals_needing_data(&gs, &vec![true, false], true, false), vec![("A1".to_string(), 2)]);
    assert_eq!(canonicals_needing_data(&gs, &vec![true, false], true, true).len(), 2);
    assert!(canonicals_needing_data(&gs, &vec![false, false], false, true).is_empty());
}

#[test]
fn cards_to_fetch_for_a_set() {
    let canon = vec![("A1".to_string(), 3)];
    let numbers = vec![1, 2, 3];
    assert_eq!(cards_to_fetch("A1", &numbers, &vec![true, false, true], false, &canon), vec![2, 3]);
    assert_eq!(cards_to_fetch("A2", &numbers, &vec![true, true, true], false, &canon), Vec::<u32>::new());
    assert_eq!(cards_to_fetch("A2", &numbers, &vec![true, true, true], true, &canon), numbers);
}

#[test]
fn natdex_names_with_straight_apostrophes() {
    let ps = vec![
        BasePokemon { name: "Farfetch\u{2019}d".to_string(), natdex_number: 83 },
        BasePokemon { name: "Bulbasaur".to_string(), natdex_number: 1 },
    ];
    let m = natdex_by_name(&ps);
    assert_eq!(find(&m, "Farfetch'd"), Some(&83));
    assert_eq!(find(&m, "Bulbasaur"), Some(&1));
    assert_eq!(find(&m, "Farfetch\u{2019}d"), None);
}

fn s(x: &str) -> JsonValue {
    JsonValue::Str(x.to_string())
}

fn obj(v: Vec<(&str, JsonValue)>) -> JsonValue {
    JsonValue::Object(v.into_iter().map(|(k, x)| (k.to_string(), x)).collect())
}

#[test]
fn species_list_addresses_and_count() {
    assert_eq!(species_list_url(1), "https://pokeapi.co/api/v2/pokemon-species?limit=1");
    assert_eq!(species_list_url(1025), "https://pokeapi.co/api/v2/pokemon-species?limit=1025");
    let probe = obj(vec![("count", JsonValue::Number("1025".to_string()))]);
    assert_eq!(species_count(&probe), Some(1025));
    assert_eq!(species_count(&obj(vec![])), None);
    assert_eq!(species_count(&obj(vec![("count", s("many"))])), None);
}

#[test]
fn species_ids_from_urls() {
    assert_eq!(species_id_from_url("https://pokeapi.co/api/v2/pokemon-species/25/"), Some(25));
    assert_eq!(species_id_from_url("https://pokeapi.co/api/v2/pokemon-species/151"), Some(151));
    assert_eq!(species_id_from_url("https://pokeapi.co/api/v2/pokemon-species/mew/"), None);
    assert_eq!(species_id_from_url("7///"), Some(7));
    assert_eq!(species_id_from_url(""), None);
}

#[test]
fn species_list_entries() {
    let list = obj(vec![(
        "results",
        JsonValue::Array(vec![
            obj(vec![("name", s("bulbasaur")), ("url", s("https://pokeapi.co/api/v2/pokemon-species/1/"))]),
            obj(vec![("name", s("broken")), ("url", s("https://x/abc/"))]),
            obj(vec![("name", s("nourl"))]),
            obj(vec![("url", s("https://pokeapi.co/api/v2/pokemon-species/4/"))]),
        ]),
    )]);
    let es = species_entries(&list).unwrap();
    assert_eq!(
        es,
        vec![
            (1, "https://pokeapi.co/api/v2/pokemon-species/1/".to_string()),
            (4, "https://pokeapi.co/api/v2/pokemon-species/4/".to_string()),
        ]
    );
    assert!(species_entries(&obj(vec![("results", s("none"))])).is_none());
}

#[test]
fn english_species_name() {
    let name = |lang: &str, n: &str| obj(vec![("language", obj(vec![("name", s(lang))])), ("name", s(n))]);
    let sp = obj(vec![("names", JsonValue::Array(vec![name("ja", "フシギダネ"), name("en", "Bulbasaur"), name("en", "Other")]))]);
    assert_eq!(english_name(&sp).as_deref(), Some("Bulbasaur"));
    let none = obj(vec![("names", JsonValue::Array(vec![name("fr", "Bulbizarre")]))]);
    assert_eq!(english_name(&none), None);
    assert_eq!(english_name(&obj(vec![])), None);
}

#[test]
fn base_pokemon_in_dex_order() {
    let ps = vec![
        BasePokemon { name: "Charmander".to_string(), natdex_number: 4 },
        BasePokemon { name: "Bulbasaur".to_string(), natdex_number: 1 },
        BasePokemon { name: "Squirtle".to_string(), natdex_number: 7 },
        BasePokemon { name: "Ivysaur".to_string(), natdex_number: 2 },
    ];
    let sorted = sort_by_natdex(ps);
    let nums: Vec<u32> = sorted.iter().map(|p| p.natdex_number).collect();
    assert_eq!(nums, vec![1, 2, 4, 7]);
    assert_eq!(sorted[0].name, "Bulbasaur");
}
