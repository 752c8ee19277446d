//! Where the pipeline's files and images live, and the addresses they are
//! fetched from. Paths are `/`-separated strings built the way `Path::join`
//! builds them on Unix.
use vstd::prelude::*;
use crate::text::{chars_of, string_of, concat, padded, padded_spec, to_lowercase, lower_of, replace, replace_spec};

verus! {

/// `Path::join` on Unix: an absolute component replaces the path; otherwise a
/// separator is put between the two unless the base is empty or already ends
/// with one.
pub open spec fn path_join(base: Seq<char>, comp: Seq<char>) -> Seq<char> {
    if comp.len() > 0 && comp[0] == '/' {
        comp
    } else if base.len() == 0 || base.last() == '/' {
        base + comp
    } else {
        base + seq!['/'] + comp
    }
}

pub fn join(base: &[char], comp: &[char]) -> (r: Vec<char>)
    ensures
        r@ == path_join(base@, comp@),
{
    if comp.len() > 0 && comp[0] == '/' {
        concat(&[], comp)
    } else if base.len() == 0 || base[base.len() - 1] == '/' {
        concat(base, comp)
    } else {
        let mut with_sep = concat(base, &[]);
        with_sep.push('/');
        proof {
            assert(with_sep@ =~= base@ + seq!['/']);
        }
        concat(&with_sep, comp)
    }
}

fn lit(s: &str) -> (r: Vec<char>)
    ensures
        r@ == s@,
{
    chars_of(s)
}

// ───────────────────────── data files ─────────────────────────

pub open spec fn data_dir_spec() -> Seq<char> {
    "data"@
}

/// The root of the JSON data tree.
pub fn data_dir() -> (r: String)
    ensures
        r@ == data_dir_spec(),
{
    string_of(&lit("data"))
}

pub open spec fn cards_dir_spec(set_code: Seq<char>) -> Seq<char> {
    path_join(path_join(data_dir_spec(), "card_versions"@), set_code)
}

/// `data/card_versions/{SET}`: the card version files of one set.
pub fn cards_dir(set_code: &str) -> (r: String)
    ensures
        r@ == cards_dir_spec(set_code@),
{
    let d = join(&lit("data"), &lit("card_versions"));
    string_of(&join(&d, &chars_of(set_code)))
}

pub open spec fn abstract_cards_dir_spec() -> Seq<char> {
    path_join(data_dir_spec(), "cards"@)
}

/// `data/cards`: the abstract card files.
pub fn abstract_cards_dir() -> (r: String)
    ensures
        r@ == abstract_cards_dir_spec(),
{
    string_of(&join(&lit("data"), &lit("cards")))
}

pub open spec fn pull_rates_dir_spec(set_code: Seq<char>) -> Seq<char> {
    path_join(path_join(data_dir_spec(), "pull_rates"@), set_code)
}

/// `data/pull_rates/{SET}`: the pull rate files of one set.
pub fn pull_rates_dir(set_code: &str) -> (r: String)
    ensures
        r@ == pull_rates_dir_spec(set_code@),
{
    let d = join(&lit("data"), &lit("pull_rates"));
    string_of(&join(&d, &chars_of(set_code)))
}

pub open spec fn pack_slug_spec(subtitle: Seq<char>) -> Seq<char> {
    replace_spec(lower_of(subtitle), seq![' '], seq!['_'])
}

/// A pack subtitle as a file name: lower-cased, spaces replaced by underscores.
pub fn pack_slug(subtitle: &str) -> (r: String)
    ensures
        r@ == pack_slug_spec(subtitle@),
{
    let low = to_lowercase(subtitle);
    let lc = chars_of(low.as_str());
    let from: [char; 1] = [' '];
    let to: [char; 1] = ['_'];
    proof {
        assert(from@ =~= seq![' ']);
        assert(to@ =~= seq!['_']);
    }
    string_of(&replace(&lc, &from, &to))
}

pub open spec fn json_name(stem: Seq<char>) -> Seq<char> {
    stem + ".json"@
}

fn json_file(stem: &[char]) -> (r: Vec<char>)
    ensures
        r@ == json_name(stem@),
{
    concat(stem, &lit(".json"))
}

pub open spec fn card_version_path_spec(set_code: Seq<char>, number: nat) -> Seq<char> {
    path_join(cards_dir_spec(set_code), json_name(padded_spec(number, 3)))
}

/// `data/card_versions/{SET}/{NUM:03}.json`: where a card version is written.
pub fn card_version_path(set_code: &str, number: u32) -> (r: String)
    ensures
        r@ == card_version_path_spec(set_code@, number as nat),
{
    let dir = cards_dir(set_code);
    string_of(&join(&chars_of(dir.as_str()), &json_file(&padded(number as u64, 3))))
}

pub open spec fn abstract_card_path_spec(id: nat) -> Seq<char> {
    path_join(abstract_cards_dir_spec(), json_name(padded_spec(id, 5)))
}

/// `data/cards/{ID:05}.json`: where an abstract card is written.
pub fn abstract_card_path(id: u32) -> (r: String)
    ensures
        r@ == abstract_card_path_spec(id as nat),
{
    let dir = abstract_cards_dir();
    string_of(&join(&chars_of(dir.as_str()), &json_file(&padded(id as u64, 5))))
}

pub open spec fn pull_rates_path_spec(set_code: Seq<char>, subtitle: Seq<char>) -> Seq<char> {
    path_join(pull_rates_dir_spec(set_code), json_name(pack_slug_spec(subtitle)))
}

/// `data/pull_rates/{SET}/{subtitle_slug}.json`: where a pack's pull rates are
/// written.
pub fn pull_rates_path(set_code: &str, subtitle: &str) -> (r: String)
    ensures
        r@ == pull_rates_path_spec(set_code@, subtitle@),
{
    let dir = pull_rates_dir(set_code);
    let slug = pack_slug(subtitle);
    string_of(&join(&chars_of(dir.as_str()), &json_file(&chars_of(slug.as_str()))))
}

pub open spec fn base_pokemon_path_spec() -> Seq<char> {
    path_join(data_dir_spec(), "base_pokemon.json"@)
}

/// `data/base_pokemon.json`.
pub fn base_pokemon_path() -> (r: String)
    ensures
        r@ == base_pokemon_path_spec(),
{
    string_of(&join(&lit("data"), &lit("base_pokemon.json")))
}

// ───────────────────────── images ─────────────────────────

pub open spec fn images_dir_spec() -> Seq<char> {
    "../ptcgp-images"@
}

/// The root of the companion image tree.
pub fn images_dir() -> (r: String)
    ensures
        r@ == images_dir_spec(),
{
    string_of(&lit("../ptcgp-images"))
}

pub open spec fn card_image_path_spec(set_code: Seq<char>, number: nat) -> Seq<char> {
    path_join(
        path_join(path_join(images_dir_spec(), "cards"@), set_code),
        padded_spec(number, 3) + ".png"@,
    )
}

/// `../ptcgp-images/cards/{SET}/{NUM:03}.png`
pub fn card_image_path(set_code: &str, number: u32) -> (r: String)
    ensures
        r@ == card_image_path_spec(set_code@, number as nat),
{
    let d = join(&join(&lit("../ptcgp-images"), &lit("cards")), &chars_of(set_code));
    let f = concat(&padded(number as u64, 3), &lit(".png"));
    string_of(&join(&d, &f))
}

pub open spec fn set_logo_path_spec(set_code: Seq<char>) -> Seq<char> {
    path_join(path_join(path_join(images_dir_spec(), "sets"@), set_code), "logo.webp"@)
}

/// `../ptcgp-images/sets/{SET}/logo.webp`
pub fn set_logo_path(set_code: &str) -> (r: String)
    ensures
        r@ == set_logo_path_spec(set_code@),
{
    let d = join(&join(&lit("../ptcgp-images"), &lit("sets")), &chars_of(set_code));
    string_of(&join(&d, &lit("logo.webp")))
}

pub open spec fn font_path_spec() -> Seq<char> {
    path_join(path_join(images_dir_spec(), "font"@), "ptcg-font.ttf"@)
}

/// `../ptcgp-images/font/ptcg-font.ttf`
pub fn font_path() -> (r: String)
    ensures
        r@ == font_path_spec(),
{
    string_of(&join(&join(&lit("../ptcgp-images"), &lit("font")), &lit("ptcg-font.ttf")))
}

pub open spec fn card_image_url_spec(set_code: Seq<char>, number: nat) -> Seq<char> {
    "https://limitlesstcg.nyc3.cdn.digitaloceanspaces.com/pocket"@ + "/"@ + set_code + "/"@ + set_code
        + "_"@ + padded_spec(number, 3) + "_EN.png"@
}

/// Full-size card image on the card CDN.
pub fn card_image_url(set_code: &str, number: u32) -> (r: String)
    ensures
        r@ == card_image_url_spec(set_code@, number as nat),
{
    let sc = chars_of(set_code);
    let mut v = concat(&lit("https://limitlesstcg.nyc3.cdn.digitaloceanspaces.com/pocket"), &lit("/"));
    v = concat(&v, &sc);
    v = concat(&v, &lit("/"));
    v = concat(&v, &sc);
    v = concat(&v, &lit("_"));
    v = concat(&v, &padded(number as u64, 3));
    v = concat(&v, &lit("_EN.png"));
    string_of(&v)
}

pub open spec fn set_logo_url_spec(set_code: Seq<char>) -> Seq<char> {
    "https://s3.limitlesstcg.com/pocket/sets"@ + "/"@ + set_code + ".webp"@
}

/// A set's logo on the set CDN.
pub fn set_logo_url(set_code: &str) -> (r: String)
    ensures
        r@ == set_logo_url_spec(set_code@),
{
    let mut v = concat(&lit("https://s3.limitlesstcg.com/pocket/sets"), &lit("/"));
    v = concat(&v, &chars_of(set_code));
    v = concat(&v, &lit(".webp"));
    string_of(&v)
}

} // verus!
