use ptcgp_data::limitless::{cdn_full_url, cdn_thumb_url, set_icon_url};
use ptcgp_data::paths::{
    abstract_card_path, abstract_cards_dir, base_pokemon_path, card_image_path, card_image_url,
    card_version_path, cards_dir, data_dir, font_path, images_dir, pack_slug, pull_rates_dir,
    pull_rates_path, set_logo_path, set_logo_url,
};

#[test]
fn data_dir_is_data() {
    assert_eq!(data_dir(), "data");
}

#[test]
fn data_tree_directories() {
    assert_eq!(cards_dir("A1"), "data/card_versions/A1");
    assert_eq!(abstract_cards_dir(), "data/cards");
    assert_eq!(pull_rates_dir("B2a"), "data/pull_rates/B2a");
    assert_eq!(base_pokemon_path(), "data/base_pokemon.json");
}

#[test]
fn card_version_path_pads_number_to_three_digits() {
    assert_eq!(card_version_path("A1", 1), "data/card_versions/A1/001.json");
    assert_eq!(card_version_path("A1", 286), "data/card_versions/A1/286.json");
    assert_eq!(card_version_path("P-A", 1234), "data/card_versions/P-A/1234.json");
}

#[test]
fn abstract_card_path_pads_id_to_five_digits() {
    assert_eq!(abstract_card_path(1), "data/cards/00001.json");
    assert_eq!(abstract_card_path(12345), "data/cards/12345.json");
}

#[test]
fn pack_slug_lowercases_and_underscores() {
    assert_eq!(pack_slug("Mega Shine"), "mega_shine");
    assert_eq!(pack_slug("Charizard"), "charizard");
    assert_eq!(pull_rates_path("A1", "Mewtwo"), "data/pull_rates/A1/mewtwo.json");
    assert_eq!(pull_rates_path("B2b", "Mega Shine"), "data/pull_rates/B2b/mega_shine.json");
}

#[test]
fn image_paths() {
    assert_eq!(images_dir(), "../ptcgp-images");
    assert_eq!(card_image_path("A1", 7), "../ptcgp-images/cards/A1/007.png");
    assert_eq!(set_logo_path("A1"), "../ptcgp-images/sets/A1/logo.webp");
    assert_eq!(font_path(), "../ptcgp-images/font/ptcg-font.ttf");
}

#[test]
fn image_urls() {
    assert_eq!(
        card_image_url("A1", 1),
        "https://limitlesstcg.nyc3.cdn.digitaloceanspaces.com/pocket/A1/A1_001_EN.png"
    );
    assert_eq!(set_logo_url("B1"), "https://s3.limitlesstcg.com/pocket/sets/B1.webp");
}

#[test]
fn cdn_urls() {
    assert_eq!(
        cdn_thumb_url("A1", 25),
        "https://limitlesstcg.nyc3.cdn.digitaloceanspaces.com/pocket/A1/A1_025_EN_SM.webp"
    );
    assert_eq!(
        cdn_full_url("A1", 25),
        "https://limitlesstcg.nyc3.cdn.digitaloceanspaces.com/pocket/A1/A1_025_EN.png"
    );
    assert_eq!(set_icon_url("A2a"), "https://s3.limitlesstcg.com/pocket/sets/A2a.webp");
}
