use ptcgp_data::pages::{parse_card, parse_card_numbers, parse_set_packs, parse_sets_index};
use ptcgp_data::raenonx::parse_pack_name_from_title;

const SET_PAGE: &str = r#"<html><body>
<div class="pack-selection">
  <button data-value="1"> Charizard pack </button>
  <button data-value="2">Mewtwo pack</button>
  <button>No value</button>
  <button data-value="3">   </button>
</div>
<button data-value="9">Outside</button>
<div class="card-search-grid">
  <a href="/cards/A1/3">Three</a>
  <a href="/cards/A1/1">One</a>
  <a href="/cards/A1/3">Three again</a>
  <a href="/cards/A1/x">Bad</a>
  <a>No link</a>
</div>
<a href="/cards/A1/99">Outside grid</a>
</body></html>"#;

#[test]
fn set_page_packs_in_display_order() {
    assert_eq!(
        parse_set_packs(SET_PAGE),
        vec!["Charizard pack".to_string(), "Mewtwo pack".to_string()]
    );
}

#[test]
fn set_page_card_numbers_sorted_once_each() {
    assert_eq!(parse_card_numbers(SET_PAGE), vec![1, 3]);
}

#[test]
fn set_page_without_grid_has_no_numbers() {
    assert!(parse_card_numbers("<html><body><p>nothing</p></body></html>").is_empty());
    assert!(parse_set_packs("<html><body><p>nothing</p></body></html>").is_empty());
}

const INDEX_PAGE: &str = r#"<html><body>
<table class="sets-table">
  <tr><th>Set</th><th>Date</th></tr>
  <tr>
    <td class="name"><a href="/cards/A1">Genetic Apex <span class="code annotation">A1</span></a></td>
    <td class="date"> 30 Oct 24 </td>
    <td class="count">286</td>
  </tr>
  <tr>
    <td><a href="/cards/P-A"> Promo-A </a></td>
    <td class="date">—</td>
    <td class="count">n/a</td>
  </tr>
  <tr>
    <td><a href="/cards/">Empty code</a></td>
  </tr>
</table>
</body></html>"#;

#[test]
fn set_index_rows() {
    let sets = parse_sets_index(INDEX_PAGE).ok().unwrap();
    assert_eq!(sets.len(), 2);
    assert_eq!(sets[0].code, "A1");
    assert_eq!(sets[0].name, "Genetic Apex A1");
    assert_eq!(sets[0].series, "A");
    assert_eq!(sets[0].availability.as_ref().map(|a| a.start.clone()), Some("30 Oct 24".to_string()));
    assert_eq!(sets[0].card_count, Some(286));
    assert!(!sets[0].is_promo);
    assert!(sets[0].packs.is_empty());
    assert_eq!(sets[1].code, "P-A");
    assert_eq!(sets[1].name, "Promo-A");
    assert_eq!(sets[1].series, "A");
    assert!(sets[1].availability.is_none());
    assert_eq!(sets[1].card_count, None);
    assert!(sets[1].is_promo);
}

#[test]
fn promo_set_on_index_is_flagged() {
    let html = r#"<table class="sets-table"><tr><td><a href="/cards/P-A">Promo-A</a></td></tr></table>"#;
    let sets = parse_sets_index(html).ok().unwrap();
    assert_eq!(sets.len(), 1);
    assert_eq!(sets[0].code, "P-A");
    assert_eq!(sets[0].name, "Promo-A");
    assert_eq!(sets[0].series, "A");
    assert!(sets[0].is_promo);
}

#[test]
fn set_index_without_rows_is_an_error() {
    let r = parse_sets_index("<html><body><table class=\"other\"></table></body></html>");
    assert_eq!(
        r.err(),
        Some("sets-table parse returned no rows — selector may be stale".to_string())
    );
}

const CARD_PAGE: &str = r#"<html><body>
<p class="card-text-title"> Bulbasaur - Grass - 70 HP </p>
<p class="card-text-type">Pokémon - Basic</p>
<div class="card-text-attack">
  <p class="card-text-attack-info">
    <span class="ptcg-symbol">G</span><span class="ptcg-symbol ptcg-symbol-C">x</span>
    <span class="card-text-attack-name">Vine Whip</span>
    <span class="card-text-attack-damage">40</span>
  </p>
</div>
<div class="card-text-attack">
  <p class="card-text-attack-info">
    <span class="ptcg-symbol ptcg-symbol-grass"></span>
    <span class="card-text-attack-name">Leech Seed</span>
    <span class="card-text-attack-damage">20+</span>
  </p>
  <p class="card-text-attack-effect"> Heal 20 damage from this Pokémon. </p>
</div>
<p class="card-text-wrr">Weakness: Fire<br>Retreat: ●</p>
<div class="card-text-flavor"> There is a plant seed on its back. </div>
<div class="card-text-artist">Illustrated by <a href="/x">Narumi Sato</a></div>
</body></html>"#;

#[test]
fn card_page_pokemon() {
    let c = parse_card(CARD_PAGE);
    assert_eq!(c.name, "Bulbasaur");
    assert_eq!(c.card_type, "pokemon");
    assert_eq!(c.element.as_deref(), Some("Grass"));
    assert_eq!(c.stage.as_deref(), Some("Basic"));
    assert_eq!(c.hp, Some(70));
    assert_eq!(c.weakness.as_deref(), Some("Fire"));
    assert_eq!(c.retreat_cost, Some(1));
    assert_eq!(c.flavor.as_deref(), Some("There is a plant seed on its back."));
    assert_eq!(c.illustrator.as_deref(), Some("Narumi Sato"));
    assert!(!c.is_ex);
    assert!(!c.is_mega);
    assert!(c.ability.is_none());
    assert!(c.trainer_kind.is_none());
    assert_eq!(c.attacks.len(), 2);
    assert_eq!(c.attacks[0].name, "Vine Whip");
    assert_eq!(c.attacks[0].cost, vec!["Grass".to_string(), "Colorless".to_string()]);
    assert_eq!(c.attacks[0].damage, 40);
    assert_eq!(c.attacks[0].damage_suffix, None);
    assert_eq!(c.attacks[0].effect, None);
    assert_eq!(c.attacks[1].name, "Leech Seed");
    assert_eq!(c.attacks[1].cost, vec!["Grass".to_string()]);
    assert_eq!(c.attacks[1].damage, 20);
    assert_eq!(c.attacks[1].damage_suffix.as_deref(), Some("+"));
    assert_eq!(c.attacks[1].effect.as_deref(), Some("Heal 20 damage from this Pokémon."));
}

const TRAINER_PAGE: &str = r#"<html><body>
<p class="card-text-title">Mega Potion - Item</p>
<p class="card-text-type">Trainer - Item</p>
<div class="card-text-effect"> Heal 50 damage. </div>
</body></html>"#;

#[test]
fn card_page_trainer() {
    let c = parse_card(TRAINER_PAGE);
    assert_eq!(c.name, "Mega Potion");
    assert_eq!(c.card_type, "trainer");
    assert_eq!(c.trainer_kind.as_deref(), Some("Item"));
    assert_eq!(c.trainer_effect.as_deref(), Some("Heal 50 damage."));
    assert_eq!(c.element, None);
    assert_eq!(c.hp, None);
    assert!(c.is_mega);
    assert!(c.attacks.is_empty());
}

const ABILITY_PAGE: &str = r#"<html><body>
<p class="card-text-title">Butterfree ex - Grass - 120 HP</p>
<p class="card-text-type">Pokémon - Stage 2</p>
<div class="card-text-ability">
  <p class="card-text-ability-name">Ability: Powder Heal</p>
  <p class="card-text-ability-effect">Once during your turn, heal 20 damage.</p>
</div>
</body></html>"#;

#[test]
fn card_page_ability_and_ex() {
    let c = parse_card(ABILITY_PAGE);
    assert!(c.is_ex);
    let a = c.ability.unwrap();
    assert_eq!(a.name, "Ability: Powder Heal");
    assert_eq!(a.effect, "Once during your turn, heal 20 damage.");
    assert_eq!(c.stage.as_deref(), Some("Stage 2"));
}

#[test]
fn pack_name_multi_pack_set() {
    let html = "<html><head><title>Card Pack Info - Genetic Apex: Mewtwo | RaenonX PTCGP</title></head></html>";
    assert_eq!(parse_pack_name_from_title(html).as_deref(), Some("Mewtwo"));
}

#[test]
fn pack_name_single_pack_set() {
    let html = "<title>Card Pack Info - Mythical Island | RaenonX PTCGP</title>";
    assert_eq!(parse_pack_name_from_title(html).as_deref(), Some("Mythical Island"));
}

#[test]
fn pack_name_missing() {
    assert_eq!(parse_pack_name_from_title("<html>no title</html>"), None);
    assert_eq!(parse_pack_name_from_title("<title>No dash here</title>"), None);
    assert_eq!(parse_pack_name_from_title("<title>Info -  | x</title>"), None);
}
