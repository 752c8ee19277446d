//! The records the pipeline produces and exchanges. Maps keyed by strings are
//! held as entry lists whose keys are distinct (see `lists::keys_distinct`).
use vstd::prelude::*;
use crate::decimal::Dec;

verus! {

// ── Set metadata ──────────────────────────────────────────────────────────────

/// Availability window for a set (absent for promo sets).
pub struct Availability {
    /// YYYY-MM-DD date the set became available
    pub start: String,
    /// YYYY-MM-DD date the set stopped being available, if known
    pub end: Option<String>,
}

/// One entry of the set index.
pub struct SetSummary {
    pub code: String,
    pub name: String,
    pub series: String,
    pub availability: Option<Availability>,
    pub is_promo: bool,
    pub card_count: Option<u32>,
    /// Subtitle of each pack in this set (e.g. "Charizard", "Mewtwo")
    pub packs: Vec<String>,
}

// ── Abstract cards and card versions ─────────────────────────────────────────

/// Game content shared by every art/rarity variant of one card.
pub struct AbstractCard {
    pub id: u32,
    pub name: String,
    /// "pokemon" or "trainer"
    pub card_type: String,
    pub natdex_number: Option<u32>,
    pub element: Option<String>,
    pub stage: Option<String>,
    pub hp: Option<u32>,
    pub retreat_cost: Option<u32>,
    pub weakness: Option<String>,
    pub flavor: Option<String>,
    pub is_ex: Option<bool>,
    pub is_mega: Option<bool>,
    pub variants: Vec<String>,
    pub ability: Option<Ability>,
    pub attacks: Vec<Attack>,
    pub evolves_from: Option<String>,
    pub trainer_kind: Option<String>,
    pub trainer_effect: Option<String>,
    /// All known versions of this abstract card
    pub versions: Vec<VersionRef>,
}

/// Reference to one specific card version.
pub struct VersionRef {
    pub set: String,
    pub number: u32,
}

/// One specific physical card: a set, a collector number, a rarity and a finish.
pub struct CardVersion {
    pub set: String,
    pub number: u32,
    /// The abstract card's sequential id
    pub card_id: u32,
    pub rarity: String,
    pub illustrator: Option<String>,
    pub is_promo: bool,
    pub is_foil: bool,
    /// An identical version was released earlier
    pub is_reprint: bool,
    /// Can be offered in a trade
    pub is_tradable: bool,
    /// Pack subtitles this version can be obtained from
    pub packs: Vec<String>,
    /// How this version is obtained (e.g. "Pack", "Shop", "Mission")
    pub source: String,
    /// Ways of obtaining this version listed in the promo-source table
    /// (empty for versions without a promo stamp, unless pulled from a promo pack)
    pub promo_sources: Vec<String>,
    /// Other versions that are the same physical card
    pub duplicates: Vec<VersionRef>,
}

/// The value a card version's `is_tradable` takes when the stored record omits it.
pub fn default_tradable() -> (r: bool)
    ensures
        r,
{
    true
}

// ── Card content read from a card page ───────────────────────────────────────

/// Game content read from one card page.
pub struct LimitlessCardData {
    pub name: String,
    pub card_type: String,
    pub element: Option<String>,
    pub stage: Option<String>,
    pub hp: Option<u32>,
    pub retreat_cost: Option<u32>,
    pub weakness: Option<String>,
    pub flavor: Option<String>,
    pub is_ex: bool,
    pub is_mega: bool,
    pub ability: Option<Ability>,
    pub attacks: Vec<Attack>,
    pub evolves_from: Option<String>,
    pub trainer_kind: Option<String>,
    pub trainer_effect: Option<String>,
    /// Version-specific
    pub illustrator: Option<String>,
    /// Card source label (e.g. "Pack", "Mission"), if shown
    pub card_source: Option<String>,
}

pub struct Attack {
    pub name: String,
    pub cost: Vec<String>,
    pub damage: u32,
    pub damage_suffix: Option<String>,
    pub effect: Option<String>,
}

pub struct Ability {
    pub name: String,
    pub effect: String,
}

// ── Reference data ────────────────────────────────────────────────────────────

pub struct BasePokemon {
    pub name: String,
    pub natdex_number: u32,
}

pub struct ElementInfo {
    /// Single-letter energy symbol; none for Dragon
    pub symbol: Option<String>,
    pub name: String,
}

pub struct RarityInfo {
    pub code: String,
    pub name: String,
    pub group: String,
    pub group_symbol_count: u8,
    pub craft_cost: Option<u32>,
    pub dupe_dust: Option<u32>,
}

pub struct CardSource {
    pub code: String,
    pub description: Option<String>,
}

// ── Master-data card entries ─────────────────────────────────────────────────

/// One entry of the master data's card map, with the fields the pipeline uses.
pub struct CardEntry {
    pub card_id: String,
    pub card_type: String,
    /// Rarity code (e.g. "C", "AR", "UR"); empty when the entry has none
    pub rarity: String,
    pub is_foil: bool,
    pub is_tradable: bool,
    /// (expansion id, card number) pairs
    pub collection_nums: Vec<(String, u32)>,
    /// Ids of the entries that share this entry's abstract card
    pub card_ids_group: Vec<String>,
    /// Pack ids this card can be obtained from
    pub source_packs: Vec<String>,
    pub card_source: Option<String>,
}

// ── Pull rate data ────────────────────────────────────────────────────────────

/// A pull rate as a fraction of two decimals.
pub struct Rate {
    pub numerator: Dec,
    pub denominator: Dec,
}

/// Pull rates of one pack.
pub struct PackPullRates {
    pub set: String,
    pub subtitle: String,
    pub variants: Vec<(String, PackVariantRates)>,
}

pub struct PackVariantRates {
    pub rate: Rate,
    pub slot_count: u32,
    /// For each slot: rarity code -> normal/foil rates
    pub rarity_rates_by_slot: Vec<Vec<(String, RaritySlotRates)>>,
    /// Card key -> one optional rate per slot
    pub card_rates: Vec<(String, Vec<Option<Rate>>)>,
}

/// A rarity's rate in one slot, split by finish.
pub struct RaritySlotRates {
    pub normal: Option<Rate>,
    pub foil: Option<Rate>,
}

} // verus!
