use ptcgp_data::limitless::{
    count_retreat_pips, extract_variants, letter_to_element, parse_damage, parse_prints_current,
    parse_series, parse_title, parse_type_line, parse_wrr, parse_wrr_field, symbol_to_rarity_code,
    title_case,
};

#[test]
fn type_line_of_a_pokemon() {
    let (kind, stage, trainer) = parse_type_line("Pokémon - Basic");
    assert_eq!(kind, "pokemon");
    assert_eq!(stage.as_deref(), Some("Basic"));
    assert_eq!(trainer, None);
}

#[test]
fn type_line_of_a_trainer() {
    let (kind, stage, trainer) = parse_type_line("Trainer - Item");
    assert_eq!(kind, "trainer");
    assert_eq!(stage, None);
    assert_eq!(trainer.as_deref(), Some("Item"));
}

#[test]
fn type_line_unknown() {
    let (kind, stage, trainer) = parse_type_line("Energy");
    assert_eq!(kind, "unknown");
    assert_eq!(stage, None);
    assert_eq!(trainer, None);
    let (kind2, _, _) = parse_type_line("Tool - Thing");
    assert_eq!(kind2, "unknown");
}

#[test]
fn title_of_a_pokemon_with_hp() {
    let (name, element, hp) = parse_title("Bulbasaur - Grass - 70 HP", "pokemon");
    assert_eq!(name, "Bulbasaur");
    assert_eq!(element.as_deref(), Some("Grass"));
    assert_eq!(hp, Some(70));
}

#[test]
fn title_of_a_pokemon_without_hp() {
    let (name, element, hp) = parse_title("Mew - Psychic", "pokemon");
    assert_eq!(name, "Mew");
    assert_eq!(element.as_deref(), Some("Psychic"));
    assert_eq!(hp, None);
}

#[test]
fn title_of_a_trainer() {
    let (name, element, hp) = parse_title("Potion - Item", "trainer");
    assert_eq!(name, "Potion");
    assert_eq!(element, None);
    assert_eq!(hp, None);
}

#[test]
fn rarity_symbols() {
    assert_eq!(symbol_to_rarity_code("◊"), Some("C"));
    assert_eq!(symbol_to_rarity_code("◊◊"), Some("U"));
    assert_eq!(symbol_to_rarity_code("◊◊◊"), Some("R"));
    assert_eq!(symbol_to_rarity_code("◊◊◊◊"), Some("RR"));
    assert_eq!(symbol_to_rarity_code("☆"), Some("AR"));
    assert_eq!(symbol_to_rarity_code("☆☆"), Some("SR"));
    assert_eq!(symbol_to_rarity_code("☆☆☆"), Some("IM"));
    assert_eq!(symbol_to_rarity_code("♛"), Some("UR"));
    assert_eq!(symbol_to_rarity_code("?"), None);
}

#[test]
fn element_letters() {
    assert_eq!(letter_to_element("G"), Some("Grass"));
    assert_eq!(letter_to_element("r"), Some("Fire"));
    assert_eq!(letter_to_element("N"), Some("Dragon"));
    assert_eq!(letter_to_element("Y"), Some("Dragon"));
    assert_eq!(letter_to_element("C"), Some("Colorless"));
    assert_eq!(letter_to_element("Z"), None);
    assert_eq!(letter_to_element("GG"), None);
}

#[test]
fn prints_line_with_one_pack() {
    let (rarity, packs) = parse_prints_current("#1 · ◊ · Mewtwo pack");
    assert_eq!(rarity, "C");
    assert_eq!(packs, vec!["Mewtwo pack".to_string()]);
}

#[test]
fn prints_line_shared_and_unknown_symbol() {
    let (rarity, packs) = parse_prints_current("#1 · ◊ · Shared");
    assert_eq!(rarity, "C");
    assert_eq!(packs, vec!["Shared".to_string()]);
    let (rarity2, packs2) = parse_prints_current("#9 · Promo");
    assert_eq!(rarity2, "Promo");
    assert!(packs2.is_empty());
    let (rarity3, packs3) = parse_prints_current("");
    assert_eq!(rarity3, "");
    assert!(packs3.is_empty());
}

#[test]
fn weakness_and_retreat() {
    let (weakness, retreat) = parse_wrr("Weakness: Fire ×2 Retreat: ●●");
    assert_eq!(weakness.as_deref(), Some("Fire"));
    assert_eq!(retreat, Some(2));
}

#[test]
fn weakness_over_line_breaks_and_none() {
    let (weakness, retreat) = parse_wrr("Weakness:\nLightning\nRetreat: 3");
    assert_eq!(weakness.as_deref(), Some("Lightning"));
    assert_eq!(retreat, Some(3));
    let (weakness2, retreat2) = parse_wrr("Weakness: none Retreat: —");
    assert_eq!(weakness2, None);
    assert_eq!(retreat2, None);
}

#[test]
fn wrr_field_values() {
    assert_eq!(parse_wrr_field("Weakness: Water Retreat: ●", "Weakness").as_deref(), Some("Water"));
    assert_eq!(parse_wrr_field("Weakness: Water Retreat: ●", "Retreat").as_deref(), Some("●"));
    assert_eq!(parse_wrr_field("Weakness: Water", "Resistance"), None);
    assert_eq!(parse_wrr_field("Weakness: None", "Weakness"), None);
}

#[test]
fn retreat_pips() {
    assert_eq!(count_retreat_pips("●●●"), 3);
    assert_eq!(count_retreat_pips("• C"), 2);
    assert_eq!(count_retreat_pips("x 4 5"), 4);
    assert_eq!(count_retreat_pips("none"), 0);
}

#[test]
fn damage_values() {
    assert_eq!(parse_damage("20+"), (20, Some("+".to_string())));
    assert_eq!(parse_damage("80×"), (80, Some("×".to_string())));
    assert_eq!(parse_damage("40"), (40, None));
    assert_eq!(parse_damage(""), (0, None));
    assert_eq!(parse_damage("  "), (0, None));
}

#[test]
fn name_variants() {
    assert_eq!(extract_variants("Alolan Vulpix"), vec!["Alolan".to_string()]);
    assert_eq!(extract_variants("Galarian Slowpoke ex"), vec!["Galarian".to_string()]);
    assert_eq!(extract_variants("Teal Mask Ogerpon"), Vec::<String>::new());
    assert_eq!(extract_variants("Ogerpon Teal Mask"), vec!["Teal Mask".to_string()]);
    assert!(extract_variants("Pikachu").is_empty());
}

#[test]
fn series_of_a_set_code() {
    assert_eq!(parse_series("A1"), "A");
    assert_eq!(parse_series("B2a"), "B");
    assert_eq!(parse_series("P-A"), "A");
    assert_eq!(parse_series("P-"), "A");
    assert_eq!(parse_series(""), "");
}

#[test]
fn title_case_capitalizes_first_letter() {
    assert_eq!(title_case("grass"), "Grass");
    assert_eq!(title_case("éclair"), "Éclair");
    assert_eq!(title_case(""), "");
    assert_eq!(title_case("ß"), "SS");
}
