//! Reading the RaenonX master data (card entries, packs, expansions) and the
//! title of a RaenonX pack page.
use vstd::prelude::*;
use crate::text::{
    chars_of, string_of, concat, slice_copy, trim_chars, trim_spec, find, find_spec, match_at,
    lemma_find_spec_some, split_once, split_once_spec, first_piece, first_piece_spec, starts_with,
    starts_with_spec, strip_prefix, seq_eq, str_eq, contains,
};
use crate::json::{JsonValue, jget, jstr, jbool, ju64, jarray, jobject, oget, ostr, oarray, oobject};
use crate::rates::opt_ref;
use crate::lists::{lex_le, lemma_lex_total, lemma_lex_refl, lemma_lex_trans, lemma_lex_antisym};
use crate::lists::{strs, sorted, sorted_distinct, sort_strings, sort_dedup_strings, entries_map, keys_distinct, upsert};
use crate::models::CardEntry;

verus! {

fn lit(s: &str) -> (r: Vec<char>)
    ensures
        r@ == s@,
{
    chars_of(s)
}

fn owned(s: &str) -> (r: String)
    ensures
        r@ == s@,
{
    string_of(&chars_of(s))
}

pub open spec fn opt_str(o: Option<String>) -> Option<Seq<char>> {
    match o {
        Some(s) => Some(s@),
        None => None,
    }
}

/// Why the master data could not be read.
pub enum MasterDataError {
    /// The master data has no `cardEntryMap` object.
    CardEntryMapMissing,
}

// ───────────────────────── JSON access ─────────────────────────

fn get_in<'a>(v: Option<&'a JsonValue>, key: &str) -> (r: Option<&'a JsonValue>)
    ensures
        opt_ref(r) == oget(opt_ref(v), key@),
{
    match v {
        Some(x) => x.get(key),
        None => None,
    }
}

fn str_in(v: Option<&JsonValue>) -> (r: Option<String>)
    ensures
        opt_str(r) == ostr(opt_ref(v)),
{
    match v {
        Some(x) => match x.as_str() {
            Some(s) => Some(s.clone()),
            None => None,
        },
        None => None,
    }
}

fn array_in<'a>(v: Option<&'a JsonValue>) -> (r: Option<&'a Vec<JsonValue>>)
    ensures
        match r {
            Some(a) => oarray(opt_ref(v)) == Some(a@),
            None => oarray(opt_ref(v)) is None,
        },
{
    match v {
        Some(x) => x.as_array(),
        None => None,
    }
}

fn object_in<'a>(v: Option<&'a JsonValue>) -> (r: Option<&'a Vec<(String, JsonValue)>>)
    ensures
        match r {
            Some(o) => oobject(opt_ref(v)) == Some(o@),
            None => oobject(opt_ref(v)) is None,
        },
{
    match v {
        Some(x) => x.as_object(),
        None => None,
    }
}

// ───────────────────────── expansion ids ─────────────────────────

/// "PROMO-A" → "P-A"; any other id is kept.
pub open spec fn normalize_expansion_spec(id: Seq<char>) -> Seq<char> {
    if starts_with_spec(id, "PROMO-"@) {
        "P-"@ + id.subrange("PROMO-"@.len() as int, id.len() as int)
    } else {
        id
    }
}

/// The set code an expansion id stands for.
pub fn normalize_expansion_id(id: &str) -> (r: String)
    ensures
        r@ == normalize_expansion_spec(id@),
{
    let c = chars_of(id);
    match strip_prefix(&c, &lit("PROMO-")) {
        Some(rest) => string_of(&concat(&lit("P-"), &rest)),
        None => string_of(&c),
    }
}

// ───────────────────────── pack page title ─────────────────────────

/// The page's `<title>` text lies between the first `<title>` and the first
/// `</title>` (the page is well formed there).
pub open spec fn title_in_order(html: Seq<char>) -> bool {
    match (find_spec(html, "<title>"@), find_spec(html, "</title>"@)) {
        (Some(s), Some(e)) => s + "<title>"@.len() <= e,
        _ => true,
    }
}

/// "Card Pack Info - Genetic Apex: Mewtwo | RaenonX…" → "Mewtwo";
/// "Card Pack Info - Mythical Island | RaenonX…" → "Mythical Island".
pub open spec fn pack_name_spec(html: Seq<char>) -> Option<Seq<char>> {
    match (find_spec(html, "<title>"@), find_spec(html, "</title>"@)) {
        (Some(s), Some(e)) => {
            let title = html.subrange(s + "<title>"@.len(), e);
            match split_once_spec(title, " - "@) {
                Some((_, after_dash)) => {
                    let chunk = trim_spec(first_piece_spec(after_dash, " | "@));
                    let name = match split_once_spec(chunk, ": "@) {
                        Some((_, after_colon)) => trim_spec(after_colon),
                        None => chunk,
                    };
                    if name.len() == 0 {
                        None
                    } else {
                        Some(name)
                    }
                },
                None => None,
            }
        },
        _ => None,
    }
}

/// The pack name in a RaenonX pack page's title.
pub fn parse_pack_name_from_title(html: &str) -> (r: Option<String>)
    requires
        title_in_order(html@),
    ensures
        opt_str(r) == pack_name_spec(html@),
{
    let h = chars_of(html);
    let open = lit("<title>");
    let close = lit("</title>");
    let start = match find(&h, &open) {
        Some(s) => s,
        None => return None,
    };
    let end = match find(&h, &close) {
        Some(e) => e,
        None => return None,
    };
    proof {
        lemma_find_spec_some(h@, close@);
        assert(match_at(h@, close@, end as int));
    }
    let title = slice_copy(&h, start + open.len(), end);
    let after_dash = match split_once(&title, &lit(" - ")) {
        Some((_, a)) => a,
        None => return None,
    };
    let chunk = trim_chars(&first_piece(&after_dash, &lit(" | ")));
    let name = match split_once(&chunk, &lit(": ")) {
        Some((_, a)) => trim_chars(&a),
        None => chunk,
    };
    if name.len() == 0 {
        None
    } else {
        Some(string_of(&name))
    }
}

// ───────────────────────── card sources ─────────────────────────

/// The array holds the string "PREMIUM".
pub open spec fn has_premium(a: Option<Seq<JsonValue>>) -> bool {
    match a {
        Some(s) => exists|i: int| 0 <= i < s.len() && jstr(#[trigger] s[i]) == Some("PREMIUM"@),
        None => false,
    }
}

pub open spec fn nonempty_array(a: Option<Seq<JsonValue>>) -> bool {
    match a {
        Some(s) => s.len() > 0,
        None => false,
    }
}

/// Some member of the object is a non-empty array.
pub open spec fn any_nonempty_member(o: Option<Seq<(String, JsonValue)>>) -> bool {
    match o {
        Some(es) => exists|i: int| 0 <= i < es.len() && nonempty_array(jarray(#[trigger] es[i].1)),
        None => false,
    }
}

/// How a card is obtained: from `promotion.sourceI18nId` when present, else
/// inferred from the `source` fields.
pub open spec fn card_source_spec(val: JsonValue) -> Option<Seq<char>> {
    let source = jget(val, "source"@);
    match ostr(oget(jget(val, "promotion"@), "sourceI18nId"@)) {
        Some(id) => Some(
            if id == "PACK"@ {
                "Pack"@
            } else if id == "FEED"@ {
                "Wonder Pick"@
            } else if id == "MISSION"@ || id == "CAMPAIGN"@ {
                "Mission"@
            } else if id == "SHOP"@ {
                if has_premium(oarray(oget(source, "itemShop"@))) {
                    "Premium Mission"@
                } else if nonempty_array(oarray(oget(source, "goldShop"@))) {
                    "Gold Shop"@
                } else {
                    "Shop"@
                }
            } else {
                id
            },
        ),
        None => if oobject(source) is None {
            None
        } else if nonempty_array(oarray(oget(source, "pack"@))) {
            Some("Pack"@)
        } else if any_nonempty_member(oobject(oget(source, "wonderPick"@))) {
            Some("Wonder Pick"@)
        } else if nonempty_array(oarray(oget(source, "mission"@))) {
            Some("Mission"@)
        } else if has_premium(oarray(oget(source, "itemShop"@))) {
            Some("Premium Mission"@)
        } else if nonempty_array(oarray(oget(source, "goldShop"@))) {
            Some("Gold Shop"@)
        } else if nonempty_array(oarray(oget(source, "itemShop"@))) {
            Some("Shop"@)
        } else {
            None
        },
    }
}

fn premium_among(arr: &Vec<JsonValue>) -> (r: bool)
    ensures
        r == has_premium(Some(arr@)),
{
    let mut i: usize = 0;
    while i < arr.len()
        invariant
            i <= arr@.len(),
            forall|k: int| 0 <= k < i ==> jstr(#[trigger] arr@[k]) != Some("PREMIUM"@),
        decreases arr.len() - i,
    {
        match arr[i].as_str() {
            Some(s) => {
                if str_eq(s.as_str(), "PREMIUM") {
                    assert(jstr(arr@[i as int]) == Some("PREMIUM"@));
                    return true;
                }
            },
            None => {},
        }
        i += 1;
    }
    false
}

fn premium_in(a: Option<&Vec<JsonValue>>) -> (r: bool)
    ensures
        r == has_premium(match a {
            Some(x) => Some(x@),
            None => None,
        }),
{
    match a {
        Some(arr) => premium_among(arr),
        None => false,
    }
}

fn nonempty_in(a: Option<&Vec<JsonValue>>) -> (r: bool)
    ensures
        r == nonempty_array(match a {
            Some(x) => Some(x@),
            None => None,
        }),
{
    match a {
        Some(arr) => arr.len() > 0,
        None => false,
    }
}

fn member_nonempty_among(es: &Vec<(String, JsonValue)>) -> (r: bool)
    ensures
        r == any_nonempty_member(Some(es@)),
{
    let mut i: usize = 0;
    while i < es.len()
        invariant
            i <= es@.len(),
            forall|k: int| 0 <= k < i ==> !nonempty_array(jarray(#[trigger] es@[k].1)),
        decreases es.len() - i,
    {
        if nonempty_in(es[i].1.as_array()) {
            assert(nonempty_array(jarray(es@[i as int].1)));
            return true;
        }
        i += 1;
    }
    false
}

fn any_member_nonempty(o: Option<&Vec<(String, JsonValue)>>) -> (r: bool)
    ensures
        r == any_nonempty_member(match o {
            Some(x) => Some(x@),
            None => None,
        }),
{
    match o {
        Some(es) => member_nonempty_among(es),
        None => false,
    }
}

/// How a card is obtained (see `card_source_spec`).
pub fn card_source_from_raenonx(val: &JsonValue) -> (r: Option<String>)
    ensures
        opt_str(r) == card_source_spec(*val),
{
    let source = val.get("source");
    let promo = get_in(val.get("promotion"), "sourceI18nId");
    match str_in(promo) {
        Some(id) => {
            let i = id.as_str();
            let display: String = if str_eq(i, "PACK") {
                owned("Pack")
            } else if str_eq(i, "FEED") {
                owned("Wonder Pick")
            } else if str_eq(i, "MISSION") || str_eq(i, "CAMPAIGN") {
                owned("Mission")
            } else if str_eq(i, "SHOP") {
                if premium_in(array_in(get_in(source, "itemShop"))) {
                    owned("Premium Mission")
                } else if nonempty_in(array_in(get_in(source, "goldShop"))) {
                    owned("Gold Shop")
                } else {
                    owned("Shop")
                }
            } else {
                id.clone()
            };
            Some(display)
        },
        None => {
            if object_in(source).is_none() {
                None
            } else if nonempty_in(array_in(get_in(source, "pack"))) {
                Some(owned("Pack"))
            } else if any_member_nonempty(object_in(get_in(source, "wonderPick"))) {
                Some(owned("Wonder Pick"))
            } else if nonempty_in(array_in(get_in(source, "mission"))) {
                Some(owned("Mission"))
            } else if premium_in(array_in(get_in(source, "itemShop"))) {
                Some(owned("Premium Mission"))
            } else if nonempty_in(array_in(get_in(source, "goldShop"))) {
                Some(owned("Gold Shop"))
            } else if nonempty_in(array_in(get_in(source, "itemShop"))) {
                Some(owned("Shop"))
            } else {
                None
            }
        },
    }
}


// ───────────────────────── card entries ─────────────────────────

/// The string members of an array, in order (`filter_map(Value::as_str)`).
pub open spec fn strings_of_array(a: Seq<JsonValue>) -> Seq<Seq<char>>
    decreases a.len(),
{
    if a.len() == 0 {
        Seq::empty()
    } else {
        let r = strings_of_array(a.drop_last());
        match jstr(a.last()) {
            Some(s) => r.push(s),
            None => r,
        }
    }
}

fn strings_in_array(a: &Vec<JsonValue>) -> (r: Vec<String>)
    ensures
        strs(r@) == strings_of_array(a@),
{
    let mut out: Vec<String> = Vec::new();
    let mut i: usize = 0;
    while i < a.len()
        invariant
            i <= a@.len(),
            strs(out@) == strings_of_array(a@.subrange(0, i as int)),
        decreases a.len() - i,
    {
        assert(a@.subrange(0, i + 1).drop_last() =~= a@.subrange(0, i as int));
        match a[i].as_str() {
            Some(t) => {
                let ghost before = out@;
                out.push(t.clone());
                assert(strs(out@) =~= strs(before).push(t@));
            },
            None => {},
        }
        i += 1;
    }
    assert(a@.subrange(0, a@.len() as int) =~= a@);
    out
}

/// One collection number: the expansion's set code and the number (as `u32`,
/// truncated as `as` does).
pub open spec fn collection_num(cn: JsonValue) -> Option<(Seq<char>, nat)> {
    match ostr(oget(jget(cn, "expansion"@), "id"@)) {
        Some(e) => match jget(cn, "num"@) {
            Some(nv) => match ju64(nv) {
                Some(n) => Some((normalize_expansion_spec(e), (n as u32) as nat)),
                None => None,
            },
            None => None,
        },
        None => None,
    }
}

pub open spec fn collection_nums(a: Seq<JsonValue>) -> Seq<(Seq<char>, nat)>
    decreases a.len(),
{
    if a.len() == 0 {
        Seq::empty()
    } else {
        let r = collection_nums(a.drop_last());
        match collection_num(a.last()) {
            Some(x) => r.push(x),
            None => r,
        }
    }
}

pub open spec fn pairs_model(v: Seq<(String, u32)>) -> Seq<(Seq<char>, nat)> {
    v.map_values(|p: (String, u32)| (p.0@, p.1 as nat))
}

fn collection_nums_in(a: &Vec<JsonValue>) -> (r: Vec<(String, u32)>)
    ensures
        pairs_model(r@) == collection_nums(a@),
{
    let mut out: Vec<(String, u32)> = Vec::new();
    let mut i: usize = 0;
    while i < a.len()
        invariant
            i <= a@.len(),
            pairs_model(out@) == collection_nums(a@.subrange(0, i as int)),
        decreases a.len() - i,
    {
        assert(a@.subrange(0, i + 1).drop_last() =~= a@.subrange(0, i as int));
        let cn = &a[i];
        let exp = str_in(get_in(cn.get("expansion"), "id"));
        match exp {
            Some(e) => {
                match get_in(Some(cn), "num") {
                    Some(nv) => match nv.as_u64() {
                        Some(n) => {
                            let ghost before = out@;
                            let code = normalize_expansion_id(e.as_str());
                            out.push((code, n as u32));
                            assert(pairs_model(out@) =~= pairs_model(before).push(
                                (normalize_expansion_spec(e@), (n as u32) as nat),
                            ));
                        },
                        None => {},
                    },
                    None => {},
                }
            },
            None => {},
        }
        i += 1;
    }
    assert(a@.subrange(0, a@.len() as int) =~= a@);
    out
}

pub type EntryModel = (
    Seq<char>,
    Seq<char>,
    Seq<char>,
    bool,
    bool,
    Seq<(Seq<char>, nat)>,
    Seq<Seq<char>>,
    Seq<Seq<char>>,
    Option<Seq<char>>,
);

pub open spec fn entry_model(e: CardEntry) -> EntryModel {
    (
        e.card_id@,
        e.card_type@,
        e.rarity@,
        e.is_foil,
        e.is_tradable,
        pairs_model(e.collection_nums@),
        strs(e.card_ids_group@),
        strs(e.source_packs@),
        opt_str(e.card_source),
    )
}

/// One card entry of the master data. An entry with no `play.cardIds` is its
/// own group; an entry that does not say whether it is tradable is.
pub open spec fn entry_spec(card_id: Seq<char>, val: JsonValue) -> EntryModel {
    (
        card_id,
        match jstr_or(jget(val, "cardType"@)) {
            Some(s) => s,
            None => "unknown"@,
        },
        match jstr_or(jget(val, "rarity"@)) {
            Some(s) => s,
            None => Seq::empty(),
        },
        ostr(jget(val, "mirrorType"@)) == Some("normalMirror"@),
        match jget(val, "isTradable"@) {
            Some(b) => match jbool(b) {
                Some(x) => x,
                None => true,
            },
            None => true,
        },
        match oarray(jget(val, "collectionNums"@)) {
            Some(a) => collection_nums(a),
            None => Seq::empty(),
        },
        match oarray(oget(jget(val, "play"@), "cardIds"@)) {
            Some(a) => strings_of_array(a),
            None => seq![card_id],
        },
        match oarray(oget(jget(val, "source"@), "pack"@)) {
            Some(a) => strings_of_array(a),
            None => Seq::empty(),
        },
        card_source_spec(val),
    )
}

pub open spec fn jstr_or(v: Option<JsonValue>) -> Option<Seq<char>> {
    ostr(v)
}

#[verifier::spinoff_prover]
#[verifier::rlimit(40)]
fn entry_of(card_id: &String, val: &JsonValue) -> (r: CardEntry)
    ensures
        entry_model(r) == entry_spec(card_id@, *val),
{
    let card_type = match str_in(val.get("cardType")) {
        Some(t) => t,
        None => owned("unknown"),
    };
    let rarity = match str_in(val.get("rarity")) {
        Some(t) => t,
        None => owned(""),
    };
    proof {
        reveal_strlit("");
    }
    let collection_nums = match array_in(val.get("collectionNums")) {
        Some(a) => collection_nums_in(a),
        None => Vec::new(),
    };
    let card_ids_group = match array_in(get_in(val.get("play"), "cardIds")) {
        Some(a) => strings_in_array(a),
        None => {
            let mut g: Vec<String> = Vec::new();
            g.push(card_id.clone());
            assert(strs(g@) =~= seq![card_id@]);
            g
        },
    };
    let source_packs = match array_in(get_in(val.get("source"), "pack")) {
        Some(a) => strings_in_array(a),
        None => Vec::new(),
    };
    let card_source = card_source_from_raenonx(val);
    let is_foil = match str_in(val.get("mirrorType")) {
        Some(m) => str_eq(m.as_str(), "normalMirror"),
        None => false,
    };
    let is_tradable = match val.get("isTradable") {
        Some(b) => match b.as_bool() {
            Some(x) => x,
            None => true,
        },
        None => true,
    };
    let r = CardEntry {
        card_id: card_id.clone(),
        card_type,
        rarity,
        is_foil,
        is_tradable,
        collection_nums,
        card_ids_group,
        source_packs,
        card_source,
    };
    assert(pairs_model(r.collection_nums@) == entry_spec(card_id@, *val).5);
    assert(strs(r.source_packs@) == entry_spec(card_id@, *val).7);
    r
}

/// Every card entry of the master data, in the order of its card map.
pub fn parse_card_entries(raw: &JsonValue) -> (r: Result<Vec<CardEntry>, MasterDataError>)
    ensures
        match r {
            Ok(v) => match oobject(jget(*raw, "cardEntryMap"@)) {
                Some(es) => v@.len() == es.len() && forall|k: int|
                    0 <= k < es.len() ==> entry_model(#[trigger] v@[k]) == entry_spec(es[k].0@, es[k].1),
                None => false,
            },
            Err(e) => oobject(jget(*raw, "cardEntryMap"@)) is None && e is CardEntryMapMissing,
        },
{
    let entry_map = match object_in(raw.get("cardEntryMap")) {
        Some(m) => m,
        None => return Err(MasterDataError::CardEntryMapMissing),
    };
    let mut entries: Vec<CardEntry> = Vec::new();
    let mut i: usize = 0;
    while i < entry_map.len()
        invariant
            i <= entry_map@.len(),
            entries@.len() == i,
            forall|k: int| 0 <= k < i ==> entry_model(#[trigger] entries@[k]) == entry_spec(entry_map@[k].0@, entry_map@[k].1),
        decreases entry_map.len() - i,
    {
        entries.push(entry_of(&entry_map[i].0, &entry_map[i].1));
        i += 1;
    }
    Ok(entries)
}


// ───────────────────────── maps of the master data ─────────────────────────

/// A map of strings to strings, by view.
pub open spec fn str_map(m: Map<Seq<char>, String>) -> Map<Seq<char>, Seq<char>> {
    Map::new(|k: Seq<char>| m.dom().contains(k), |k: Seq<char>| m[k]@)
}

/// A map of strings to lists of strings, by view.
pub open spec fn strs_map(m: Map<Seq<char>, Vec<String>>) -> Map<Seq<char>, Seq<Seq<char>>> {
    Map::new(|k: Seq<char>| m.dom().contains(k), |k: Seq<char>| strs(m[k]@))
}

proof fn lemma_str_map_insert(m: Map<Seq<char>, String>, k: Seq<char>, v: String)
    ensures
        str_map(m.insert(k, v)) == str_map(m).insert(k, v@),
{
    assert(str_map(m.insert(k, v)) =~= str_map(m).insert(k, v@));
}

pub proof fn lemma_str_map_insert_pub(m: Map<Seq<char>, String>, k: Seq<char>, v: String)
    ensures
        str_map(m.insert(k, v)) == str_map(m).insert(k, v@),
{
    lemma_str_map_insert(m, k, v);
}

proof fn lemma_strs_map_insert(m: Map<Seq<char>, Vec<String>>, k: Seq<char>, v: Vec<String>)
    ensures
        strs_map(m.insert(k, v)) == strs_map(m).insert(k, strs(v@)),
{
    assert(strs_map(m.insert(k, v)) =~= strs_map(m).insert(k, strs(v@)));
}

fn object_at<'a>(raw: &'a JsonValue, key: &str) -> (r: Option<&'a Vec<(String, JsonValue)>>)
    ensures
        match r {
            Some(o) => oobject(jget(*raw, key@)) == Some(o@),
            None => oobject(jget(*raw, key@)) is None,
        },
{
    object_in(raw.get(key))
}

/// The whole-number points of a rarity → points map: each entry whose value
/// is a `u64` literal, cut to `u32` as `as` does.
pub open spec fn whole_points(es: Seq<(String, JsonValue)>) -> Seq<(Seq<char>, nat)>
    decreases es.len(),
{
    if es.len() == 0 {
        Seq::empty()
    } else {
        let r = whole_points(es.drop_last());
        match ju64(es.last().1) {
            Some(n) => r.push((es.last().0@, n % 0x1_0000_0000)),
            None => r,
        }
    }
}

/// The other numbers of a rarity → points map (fractions, negative or too
/// large numbers), with their literal text.
pub open spec fn other_points(es: Seq<(String, JsonValue)>) -> Seq<(Seq<char>, Seq<char>)>
    decreases es.len(),
{
    if es.len() == 0 {
        Seq::empty()
    } else {
        let r = other_points(es.drop_last());
        match es.last().1 {
            JsonValue::Number(t) => if ju64(es.last().1) is None {
                r.push((es.last().0@, t@))
            } else {
                r
            },
            _ => r,
        }
    }
}

pub open spec fn points_model(v: Seq<(String, u32)>) -> Seq<(Seq<char>, nat)> {
    v.map_values(|p: (String, u32)| (p.0@, p.1 as nat))
}

pub open spec fn texts_model(v: Seq<(String, String)>) -> Seq<(Seq<char>, Seq<char>)> {
    v.map_values(|p: (String, String)| (p.0@, p.1@))
}

/// A rarity → points map of the master data (`key` names it): the entries
/// with a whole-number value, and apart the numbers that are not whole
/// (which are read as floating point); values that are not numbers are
/// skipped, as is a missing map.
pub fn rarity_points(raw: &JsonValue, key: &str) -> (r: (Vec<(String, u32)>, Vec<(String, String)>))
    ensures
        points_model(r.0@) == whole_points(object_entries(*raw, key@)),
        texts_model(r.1@) == other_points(object_entries(*raw, key@)),
{
    let mut whole: Vec<(String, u32)> = Vec::new();
    let mut other: Vec<(String, String)> = Vec::new();
    let es = match object_at(raw, key) {
        Some(m) => m,
        None => {
            assert(points_model(whole@) =~= Seq::<(Seq<char>, nat)>::empty());
            assert(texts_model(other@) =~= Seq::<(Seq<char>, Seq<char>)>::empty());
            return (whole, other);
        },
    };
    let mut i: usize = 0;
    assert(points_model(whole@) =~= whole_points(es@.subrange(0, 0)));
    assert(texts_model(other@) =~= other_points(es@.subrange(0, 0)));
    while i < es.len()
        invariant
            i <= es@.len(),
            points_model(whole@) == whole_points(es@.subrange(0, i as int)),
            texts_model(other@) == other_points(es@.subrange(0, i as int)),
        decreases es.len() - i,
    {
        let ghost sub = es@.subrange(0, i + 1);
        assert(sub.drop_last() =~= es@.subrange(0, i as int));
        assert(sub.last() == es@[i as int]);
        match es[i].1.as_u64() {
            Some(n) => {
                let ghost before = whole@;
                let c = (n % 0x1_0000_0000) as u32;
                whole.push((es[i].0.clone(), c));
                assert(points_model(whole@) =~= points_model(before).push((es@[i as int].0@, (n as nat) % 0x1_0000_0000)));
            },
            None => match &es[i].1 {
                JsonValue::Number(t) => {
                    let ghost before = other@;
                    other.push((es[i].0.clone(), t.clone()));
                    assert(texts_model(other@) =~= texts_model(before).push((es@[i as int].0@, t@)));
                },
                _ => {},
            },
        }
        i += 1;
    }
    assert(es@.subrange(0, es@.len() as int) =~= es@);
    (whole, other)
}

/// Expansion set code → its packs, for expansions that list packs.
pub open spec fn expansion_packs_spec(es: Seq<(String, JsonValue)>) -> Map<Seq<char>, Seq<Seq<char>>>
    decreases es.len(),
{
    if es.len() == 0 {
        Map::empty()
    } else {
        let m = expansion_packs_spec(es.drop_last());
        match oarray(jget(es.last().1, "packsInExpansion"@)) {
            Some(a) => if strings_of_array(a).len() > 0 {
                m.insert(normalize_expansion_spec(es.last().0@), strings_of_array(a))
            } else {
                m
            },
            None => m,
        }
    }
}

pub open spec fn object_entries(raw: JsonValue, key: Seq<char>) -> Seq<(String, JsonValue)> {
    match oobject(jget(raw, key)) {
        Some(es) => es,
        None => Seq::empty(),
    }
}

/// The pack ids of each expansion, in the order the master data lists them.
pub fn parse_expansion_packs(raw: &JsonValue) -> (r: Vec<(String, Vec<String>)>)
    ensures
        keys_distinct(r@),
        strs_map(entries_map(r@)) == expansion_packs_spec(object_entries(*raw, "cardExpansionMap"@)),
{
    let mut out: Vec<(String, Vec<String>)> = Vec::new();
    let es = match object_at(raw, "cardExpansionMap") {
        Some(m) => m,
        None => {
            assert(strs_map(entries_map(out@)) =~= Map::<Seq<char>, Seq<Seq<char>>>::empty());
            return out;
        },
    };
    let mut i: usize = 0;
    assert(strs_map(entries_map(out@)) =~= Map::<Seq<char>, Seq<Seq<char>>>::empty());
    while i < es.len()
        invariant
            i <= es@.len(),
            keys_distinct(out@),
            strs_map(entries_map(out@)) == expansion_packs_spec(es@.subrange(0, i as int)),
        decreases es.len() - i,
    {
        assert(es@.subrange(0, i + 1).drop_last() =~= es@.subrange(0, i as int));
        match array_in(es[i].1.get("packsInExpansion")) {
            Some(a) => {
                let packs = strings_in_array(a);
                if packs.len() > 0 {
                    let key = normalize_expansion_id(es[i].0.as_str());
                    let ghost old_map = entries_map(out@);
                    let ghost kv = key@;
                    let ghost pv = packs;
                    upsert(&mut out, key, packs);
                    proof {
                        lemma_strs_map_insert(old_map, kv, pv);
                    }
                }
            },
            None => {},
        }
        i += 1;
    }
    assert(es@.subrange(0, es@.len() as int) =~= es@);
    out
}

pub open spec fn is_regular(v: JsonValue) -> bool {
    match jget(v, "isRegular"@) {
        Some(b) => jbool(b) == Some(true),
        None => false,
    }
}

pub open spec fn promo_description(v: JsonValue) -> bool {
    match ostr(jget(v, "descriptionId"@)) {
        Some(d) => starts_with_spec(d, "PROMO_"@),
        None => false,
    }
}

/// The keys of the packs that are regular (`named` also excludes promo packs).
pub open spec fn regular_keys(es: Seq<(String, JsonValue)>, named: bool) -> Seq<Seq<char>>
    decreases es.len(),
{
    if es.len() == 0 {
        Seq::empty()
    } else {
        let r = regular_keys(es.drop_last(), named);
        if is_regular(es.last().1) && !(named && promo_description(es.last().1)) {
            r.push(es.last().0@)
        } else {
            r
        }
    }
}

fn regular_flag(v: &JsonValue) -> (r: bool)
    ensures
        r == is_regular(*v),
{
    match v.get("isRegular") {
        Some(b) => match b.as_bool() {
            Some(x) => x,
            None => false,
        },
        None => false,
    }
}

fn promo_flag(v: &JsonValue) -> (r: bool)
    ensures
        r == promo_description(*v),
{
    match str_in(v.get("descriptionId")) {
        Some(d) => starts_with(&chars_of(d.as_str()), &lit("PROMO_")),
        None => false,
    }
}

fn regular_pack_keys(raw: &JsonValue, named: bool) -> (r: Vec<String>)
    ensures
        strs(r@) == regular_keys(object_entries(*raw, "cardPackMap"@), named),
{
    let mut out: Vec<String> = Vec::new();
    let es = match object_at(raw, "cardPackMap") {
        Some(m) => m,
        None => {
            assert(strs(out@) =~= Seq::<Seq<char>>::empty());
            return out;
        },
    };
    let mut i: usize = 0;
    assert(strs(out@) =~= Seq::<Seq<char>>::empty());
    while i < es.len()
        invariant
            i <= es@.len(),
            strs(out@) == regular_keys(es@.subrange(0, i as int), named),
        decreases es.len() - i,
    {
        assert(es@.subrange(0, i + 1).drop_last() =~= es@.subrange(0, i as int));
        if regular_flag(&es[i].1) && !(named && promo_flag(&es[i].1)) {
            let ghost before = out@;
            out.push(es[i].0.clone());
            assert(strs(out@) =~= strs(before).push(es@[i as int].0@));
        }
        i += 1;
    }
    assert(es@.subrange(0, es@.len() as int) =~= es@);
    out
}

/// The regular packs' ids, sorted.
pub fn parse_regular_packs(raw: &JsonValue) -> (r: Vec<String>)
    ensures
        sorted(strs(r@)),
        strs(r@).to_multiset() == regular_keys(object_entries(*raw, "cardPackMap"@), false).to_multiset(),
{
    let keys = regular_pack_keys(raw, false);
    sort_strings(&keys)
}

/// The regular packs' ids that are not promo packs (their names come from
/// the pack pages), sorted.
pub fn parse_named_pack_ids(raw: &JsonValue) -> (r: Vec<String>)
    ensures
        sorted(strs(r@)),
        strs(r@).to_multiset() == regular_keys(object_entries(*raw, "cardPackMap"@), true).to_multiset(),
{
    let keys = regular_pack_keys(raw, true);
    sort_strings(&keys)
}

/// Keeps the keys that are not promo packs of `es`.
pub open spec fn not_promo_key(es: Seq<(String, JsonValue)>) -> spec_fn(Seq<char>) -> bool {
    |k: Seq<char>| !promo_subtitles_spec(es).dom().contains(k)
}

proof fn lemma_promo_dom_keys(es: Seq<(String, JsonValue)>, k: Seq<char>)
    requires
        promo_subtitles_spec(es).dom().contains(k),
    ensures
        exists|j: int| 0 <= j < es.len() && (#[trigger] es[j]).0@ == k,
    decreases es.len(),
{
    let p = es.drop_last();
    if es.last().0@ == k {
        assert(es[es.len() - 1].0@ == k);
    } else {
        assert(promo_subtitles_spec(p).dom().contains(k));
        lemma_promo_dom_keys(p, k);
        let j = choose|j: int| 0 <= j < p.len() && (#[trigger] p[j]).0@ == k;
        assert(es[j] == p[j]);
    }
}

proof fn lemma_promo_dom(es: Seq<(String, JsonValue)>, i: int)
    requires
        keys_distinct(es),
        0 <= i < es.len(),
    ensures
        promo_subtitles_spec(es).dom().contains(es[i].0@) == promo_description(es[i].1),
    decreases es.len(),
{
    let p = es.drop_last();
    let last = es.len() - 1;
    assert(keys_distinct(p)) by {
        assert forall|a: int, b: int| 0 <= a < p.len() && 0 <= b < p.len() && a != b implies #[trigger] p[a].0@ != #[trigger] p[b].0@ by {
            assert(p[a] == es[a] && p[b] == es[b]);
        }
    }
    if i == last {
        if promo_subtitles_spec(p).dom().contains(es[i].0@) {
            lemma_promo_dom_keys(p, es[i].0@);
            let j = choose|j: int| 0 <= j < p.len() && (#[trigger] p[j]).0@ == es[i].0@;
            assert(es[j] == p[j]);
            assert(es[j].0@ != es[last].0@);
        }
    } else {
        assert(p[i] == es[i]);
        assert(es[i].0@ != es[last].0@);
        lemma_promo_dom(p, i);
    }
}

proof fn lemma_named_prefix(es: Seq<(String, JsonValue)>, n: int)
    requires
        keys_distinct(es),
        0 <= n <= es.len(),
    ensures
        regular_keys(es.subrange(0, n), true) == regular_keys(es.subrange(0, n), false).filter(not_promo_key(es)),
    decreases n,
{
    reveal(Seq::filter);
    let s = es.subrange(0, n);
    if n == 0 {
        assert(regular_keys(s, false).len() == 0);
        assert(regular_keys(s, false).filter(not_promo_key(es)) =~= Seq::<Seq<char>>::empty());
    } else {
        lemma_named_prefix(es, n - 1);
        assert(s.drop_last() =~= es.subrange(0, n - 1));
        assert(s.last() == es[n - 1]);
        lemma_promo_dom(es, n - 1);
        let all = regular_keys(s, false);
        if is_regular(es[n - 1].1) {
            assert(all.drop_last() == regular_keys(es.subrange(0, n - 1), false));
            assert(all.last() == es[n - 1].0@);
        } else {
            assert(all == regular_keys(es.subrange(0, n - 1), false));
        }
    }
}

/// The named packs are the regular packs that are not promo packs, in the
/// same order: the regular keys with those of the promo-pack subtitles taken
/// out (the pack map's keys being distinct, as in any JSON object).
pub proof fn lemma_named_are_regular_without_promo(es: Seq<(String, JsonValue)>)
    requires
        keys_distinct(es),
    ensures
        regular_keys(es, true) == regular_keys(es, false).filter(not_promo_key(es)),
{
    lemma_named_prefix(es, es.len() as int);
    assert(es.subrange(0, es.len() as int) =~= es);
}

proof fn lemma_filter_count(s: Seq<Seq<char>>, p: spec_fn(Seq<char>) -> bool, x: Seq<char>)
    ensures
        s.filter(p).to_multiset().count(x) == (if p(x) { s.to_multiset().count(x) } else { 0 }),
    decreases s.len(),
{
    reveal(Seq::filter);
    broadcast use vstd::seq_lib::group_to_multiset_ensures;
    if s.len() == 0 {
        assert(s.filter(p).len() == 0);
        assert(s.filter(p).to_multiset() =~= vstd::multiset::Multiset::empty());
        assert(s.to_multiset() =~= vstd::multiset::Multiset::empty());
    } else {
        let t = s.drop_last();
        lemma_filter_count(t, p, x);
        assert(s =~= t.push(s.last()));
    }
}

proof fn lemma_filter_sorted(s: Seq<Seq<char>>, p: spec_fn(Seq<char>) -> bool)
    requires
        sorted(s),
    ensures
        sorted(s.filter(p)),
    decreases s.len(),
{
    reveal(Seq::filter);
    if s.len() > 0 {
        let t = s.drop_last();
        assert(sorted(t)) by {
            assert forall|i: int, j: int| 0 <= i < j < t.len() implies lex_le(t[i], t[j]) by {
                assert(t[i] == s[i] && t[j] == s[j]);
            }
        }
        lemma_filter_sorted(t, p);
        let r = t.filter(p);
        if p(s.last()) {
            let q = r.push(s.last());
            assert forall|i: int, j: int| 0 <= i < j < q.len() implies lex_le(q[i], q[j]) by {
                if j == r.len() {
                    assert(r.contains(r[i]));
                    t.lemma_filter_contains_rev(p, r[i]);
                    let k = choose|k: int| 0 <= k < t.len() && t[k] == r[i];
                    assert(s[k] == r[i]);
                    assert(q[j] == s[s.len() - 1]);
                } else {
                    assert(q[i] == r[i] && q[j] == r[j]);
                }
            }
        }
    }
}

proof fn lemma_lex_total_ordering()
    ensures
        vstd::relations::total_ordering(|a: Seq<char>, b: Seq<char>| lex_le(a, b)),
{
    let leq = |a: Seq<char>, b: Seq<char>| lex_le(a, b);
    assert forall|a: Seq<char>| #[trigger] leq(a, a) by {
        lemma_lex_refl(a);
    }
    assert forall|a: Seq<char>, b: Seq<char>| #[trigger] leq(a, b) && #[trigger] leq(b, a) implies a == b by {
        lemma_lex_antisym(a, b);
    }
    assert forall|a: Seq<char>, b: Seq<char>, c: Seq<char>| #[trigger] leq(a, b) && #[trigger] leq(b, c) implies leq(a, c) by {
        lemma_lex_trans(a, b, c);
    }
    assert forall|a: Seq<char>, b: Seq<char>| #[trigger] leq(a, b) || #[trigger] leq(b, a) by {
        lemma_lex_total(a, b);
    }
}

/// The named pack ids (`parse_named_pack_ids`) are the regular pack ids
/// (`parse_regular_packs`) without the promo packs (the keys of
/// `parse_promo_pack_subtitles`), in the same order. `regular` and `named`
/// stand for the two results, as their contracts describe them; the pack
/// map's keys are distinct, as in any JSON object.
pub proof fn lemma_named_pack_ids(raw: JsonValue, regular: Seq<Seq<char>>, named: Seq<Seq<char>>)
    requires
        keys_distinct(object_entries(raw, "cardPackMap"@)),
        sorted(regular),
        regular.to_multiset() == regular_keys(object_entries(raw, "cardPackMap"@), false).to_multiset(),
        sorted(named),
        named.to_multiset() == regular_keys(object_entries(raw, "cardPackMap"@), true).to_multiset(),
    ensures
        named == regular.filter(not_promo_key(object_entries(raw, "cardPackMap"@))),
{
    let es = object_entries(raw, "cardPackMap"@);
    let p = not_promo_key(es);
    let all = regular_keys(es, false);
    let f = regular.filter(p);
    lemma_named_are_regular_without_promo(es);
    assert(f.to_multiset() =~= named.to_multiset()) by {
        assert forall|x: Seq<char>| f.to_multiset().count(x) == named.to_multiset().count(x) by {
            lemma_filter_count(regular, p, x);
            lemma_filter_count(all, p, x);
        }
    }
    lemma_filter_sorted(regular, p);
    lemma_lex_total_ordering();
    let leq = |a: Seq<char>, b: Seq<char>| lex_le(a, b);
    assert(vstd::relations::sorted_by(named, leq));
    assert(vstd::relations::sorted_by(f, leq));
    vstd::seq_lib::lemma_sorted_unique(named, f, leq);
}

/// Pack id → set code of its expansion.
pub open spec fn pack_expansion_spec(es: Seq<(String, JsonValue)>) -> Map<Seq<char>, Seq<char>>
    decreases es.len(),
{
    if es.len() == 0 {
        Map::empty()
    } else {
        let m = pack_expansion_spec(es.drop_last());
        match ostr(jget(es.last().1, "expansionId"@)) {
            Some(e) => m.insert(es.last().0@, normalize_expansion_spec(e)),
            None => m,
        }
    }
}

/// Pack id → promo description id, for promo packs.
pub open spec fn promo_subtitles_spec(es: Seq<(String, JsonValue)>) -> Map<Seq<char>, Seq<char>>
    decreases es.len(),
{
    if es.len() == 0 {
        Map::empty()
    } else {
        let m = promo_subtitles_spec(es.drop_last());
        match ostr(jget(es.last().1, "descriptionId"@)) {
            Some(d) => if starts_with_spec(d, "PROMO_"@) {
                m.insert(es.last().0@, d)
            } else {
                m
            },
            None => m,
        }
    }
}

/// The set code of each pack's expansion (empty when the master data lacks
/// the pack map or the expansion map).
#[verifier::spinoff_prover]
pub fn parse_pack_expansion(raw: &JsonValue) -> (r: Vec<(String, String)>)
    ensures
        keys_distinct(r@),
        str_map(entries_map(r@)) == (if oobject(jget(*raw, "cardExpansionMap"@)) is Some {
            pack_expansion_spec(object_entries(*raw, "cardPackMap"@))
        } else {
            Map::empty()
        }),
{
    let mut out: Vec<(String, String)> = Vec::new();
    assert(str_map(entries_map(out@)) =~= Map::<Seq<char>, Seq<char>>::empty());
    let es = match object_at(raw, "cardPackMap") {
        Some(m) => m,
        None => return out,
    };
    if object_at(raw, "cardExpansionMap").is_none() {
        return out;
    }
    let mut i: usize = 0;
    while i < es.len()
        invariant
            i <= es@.len(),
            keys_distinct(out@),
            str_map(entries_map(out@)) == pack_expansion_spec(es@.subrange(0, i as int)),
        decreases es.len() - i,
    {
        assert(es@.subrange(0, i + 1).drop_last() =~= es@.subrange(0, i as int));
        match str_in(es[i].1.get("expansionId")) {
            Some(e) => {
                let code = normalize_expansion_id(e.as_str());
                let ghost old_map = entries_map(out@);
                let ghost kv = es@[i as int].0@;
                let ghost cv = code;
                upsert(&mut out, es[i].0.clone(), code);
                proof {
                    lemma_str_map_insert(old_map, kv, cv);
                }
            },
            None => {},
        }
        i += 1;
    }
    assert(es@.subrange(0, es@.len() as int) =~= es@);
    out
}

/// The description id of each promo pack, which serves as its subtitle.
pub fn parse_promo_pack_subtitles(raw: &JsonValue) -> (r: Vec<(String, String)>)
    ensures
        keys_distinct(r@),
        str_map(entries_map(r@)) == promo_subtitles_spec(object_entries(*raw, "cardPackMap"@)),
{
    let mut out: Vec<(String, String)> = Vec::new();
    assert(str_map(entries_map(out@)) =~= Map::<Seq<char>, Seq<char>>::empty());
    let es = match object_at(raw, "cardPackMap") {
        Some(m) => m,
        None => return out,
    };
    let mut i: usize = 0;
    while i < es.len()
        invariant
            i <= es@.len(),
            keys_distinct(out@),
            str_map(entries_map(out@)) == promo_subtitles_spec(es@.subrange(0, i as int)),
        decreases es.len() - i,
    {
        assert(es@.subrange(0, i + 1).drop_last() =~= es@.subrange(0, i as int));
        match str_in(es[i].1.get("descriptionId")) {
            Some(d) => {
                if starts_with(&chars_of(d.as_str()), &lit("PROMO_")) {
                    let ghost old_map = entries_map(out@);
                    let ghost kv = es@[i as int].0@;
                    let ghost dv = d;
                    upsert(&mut out, es[i].0.clone(), d);
                    proof {
                        lemma_str_map_insert(old_map, kv, dv);
                    }
                }
            },
            None => {},
        }
        i += 1;
    }
    assert(es@.subrange(0, es@.len() as int) =~= es@);
    out
}


// ───────────────────────── codes seen in the card entries ─────────────────────────

pub open spec fn source_order() -> Seq<Seq<char>> {
    seq!["Pack"@, "Wonder Pick"@, "Gold Shop"@, "Shop"@, "Mission"@, "Premium Mission"@]
}

/// The pack ids an entry can be pulled from (`source.pack`).
pub open spec fn entry_packs(val: JsonValue) -> Seq<Seq<char>> {
    match oarray(oget(jget(val, "source"@), "pack"@)) {
        Some(a) => strings_of_array(a),
        None => Seq::empty(),
    }
}

/// Whether one of an entry's packs is a promo pack (`AP…`).
pub open spec fn has_ap_pack(val: JsonValue) -> bool {
    exists|i: int| 0 <= i < entry_packs(val).len() && starts_with_spec(#[trigger] entry_packs(val)[i], "AP"@)
}

/// The sources seen in the entries, in entry order: "Pack" for an entry with
/// a promo pack, then the entry's card source when it has one.
pub open spec fn seen_sources(es: Seq<(String, JsonValue)>) -> Seq<Seq<char>>
    decreases es.len(),
{
    if es.len() == 0 {
        Seq::empty()
    } else {
        let r0 = seen_sources(es.drop_last());
        let r = if has_ap_pack(es.last().1) {
            r0.push("Pack"@)
        } else {
            r0
        };
        match card_source_spec(es.last().1) {
            Some(x) => r.push(x),
            None => r,
        }
    }
}

fn ap_pack_of(val: &JsonValue) -> (r: bool)
    ensures
        r == has_ap_pack(*val),
{
    let packs = match array_in(get_in(val.get("source"), "pack")) {
        Some(a) => strings_in_array(a),
        None => {
            let v: Vec<String> = Vec::new();
            assert(strs(v@) =~= Seq::<Seq<char>>::empty());
            v
        },
    };
    let ghost ps = entry_packs(*val);
    assert(strs(packs@) == ps);
    let ap = chars_of("AP");
    let mut i: usize = 0;
    while i < packs.len()
        invariant
            i <= packs@.len(),
            ap@ == "AP"@,
            strs(packs@) == ps,
            ps == entry_packs(*val),
            forall|k: int| 0 <= k < i ==> !starts_with_spec(#[trigger] ps[k], "AP"@),
        decreases packs.len() - i,
    {
        assert(ps[i as int] == packs@[i as int]@);
        if starts_with(&chars_of(packs[i].as_str()), &ap) {
            assert(starts_with_spec(entry_packs(*val)[i as int], "AP"@));
            assert(has_ap_pack(*val));
            return true;
        }
        i += 1;
    }
    false
}

proof fn lemma_pack_seen(es: Seq<(String, JsonValue)>, k: int)
    requires
        0 <= k < es.len(),
        has_ap_pack(es[k].1),
    ensures
        seen_sources(es).contains("Pack"@),
    decreases es.len(),
{
    let r0 = seen_sources(es.drop_last());
    if k == es.len() - 1 {
        let q = r0.push("Pack"@);
        assert(q[r0.len() as int] == "Pack"@);
        match card_source_spec(es.last().1) {
            Some(x) => {
                lemma_push_contains(q, x, "Pack"@);
            },
            None => {},
        }
    } else {
        assert(es.drop_last()[k] == es[k]);
        lemma_pack_seen(es.drop_last(), k);
        let r = if has_ap_pack(es.last().1) {
            r0.push("Pack"@)
        } else {
            r0
        };
        if has_ap_pack(es.last().1) {
            lemma_push_contains(r0, "Pack"@, "Pack"@);
        }
        match card_source_spec(es.last().1) {
            Some(x) => {
                lemma_push_contains(r, x, "Pack"@);
            },
            None => {},
        }
    }
}

proof fn lemma_known_first(order: Seq<Seq<char>>, seen: Seq<Seq<char>>)
    requires
        order.len() > 0,
        seen.contains(order[0]),
    ensures
        known_seen(order, seen).len() > 0,
        known_seen(order, seen)[0] == order[0],
    decreases order.len(),
{
    let r = known_seen(order.drop_last(), seen);
    if order.len() > 1 {
        assert(order.drop_last()[0] == order[0]);
        lemma_known_first(order.drop_last(), seen);
        if seen.contains(order.last()) {
            assert(r.push(order.last())[0] == r[0]);
        }
    } else {
        assert(order.drop_last().len() == 0);
        assert(r.len() == 0);
        assert(order.last() == order[0]);
        assert(r.push(order.last())[0] == order[0]);
    }
}

/// The members of `order` that occur in `seen`, in the order of `order`.
pub open spec fn known_seen(order: Seq<Seq<char>>, seen: Seq<Seq<char>>) -> Seq<Seq<char>>
    decreases order.len(),
{
    if order.len() == 0 {
        Seq::empty()
    } else {
        let r = known_seen(order.drop_last(), seen);
        if seen.contains(order.last()) {
            r.push(order.last())
        } else {
            r
        }
    }
}

proof fn lemma_push_contains(s: Seq<Seq<char>>, x: Seq<char>, y: Seq<char>)
    ensures
        s.push(x).contains(y) <==> (s.contains(y) || y == x),
{
    let q = s.push(x);
    if q.contains(y) && y != x {
        let t = choose|t: int| 0 <= t < q.len() && q[t] == y;
        assert(s[t] == y);
    }
    if s.contains(y) {
        let t = choose|t: int| 0 <= t < s.len() && s[t] == y;
        assert(q[t] == y);
    }
    if y == x {
        assert(q[s.len() as int] == y);
    }
}

fn vec_has(v: &Vec<String>, s: &[char]) -> (r: bool)
    ensures
        r == strs(v@).contains(s@),
{
    let mut i: usize = 0;
    while i < v.len()
        invariant
            i <= v@.len(),
            forall|k: int| 0 <= k < i ==> v@[k]@ != s@,
        decreases v.len() - i,
    {
        if seq_eq(&chars_of(v[i].as_str()), s) {
            assert(strs(v@)[i as int] == s@);
            return true;
        }
        i += 1;
    }
    assert forall|k: int| 0 <= k < strs(v@).len() implies strs(v@)[k] != s@ by {
        assert(strs(v@)[k] == v@[k]@);
    }
    false
}

fn source_order_vec() -> (r: Vec<String>)
    ensures
        strs(r@) == source_order(),
{
    let mut v: Vec<String> = Vec::new();
    v.push(owned("Pack"));
    v.push(owned("Wonder Pick"));
    v.push(owned("Gold Shop"));
    v.push(owned("Shop"));
    v.push(owned("Mission"));
    v.push(owned("Premium Mission"));
    assert(strs(v@) =~= source_order());
    v
}

proof fn lemma_pack_first(es: Seq<(String, JsonValue)>, seen: Seq<Seq<char>>, out: Seq<Seq<char>>)
    requires
        seen == seen_sources(es),
        known_seen(source_order(), seen).len() <= out.len(),
        out.subrange(0, known_seen(source_order(), seen).len() as int) == known_seen(source_order(), seen),
    ensures
        (exists|k: int| 0 <= k < es.len() && has_ap_pack(#[trigger] es[k].1)) ==> out.len() > 0 && out[0] == "Pack"@,
{
    if exists|k: int| 0 <= k < es.len() && has_ap_pack(#[trigger] es[k].1) {
        let k = choose|k: int| 0 <= k < es.len() && has_ap_pack(#[trigger] es[k].1);
        lemma_pack_seen(es, k);
        assert(source_order()[0] == "Pack"@);
        lemma_known_first(source_order(), seen);
        let known = known_seen(source_order(), seen);
        assert(out.subrange(0, known.len() as int)[0] == out[0]);
    }
}

/// Every card source seen in the card entries: the known ones first, in
/// their display order, then any others sorted. "Pack" comes first whenever
/// some card can be pulled from a promo pack.
#[verifier::spinoff_prover]
#[verifier::rlimit(40)]
pub fn parse_card_source_codes(raw: &JsonValue) -> (r: Vec<String>)
    ensures
        ({
            let es = object_entries(*raw, "cardEntryMap"@);
            (exists|k: int| 0 <= k < es.len() && has_ap_pack(#[trigger] es[k].1)) ==> r@.len() > 0 && r@[0]@ == "Pack"@
        }),
        ({
            let seen = seen_sources(object_entries(*raw, "cardEntryMap"@));
            let known = known_seen(source_order(), seen);
            let rest = strs(r@).subrange(known.len() as int, r@.len() as int);
            &&& known.len() <= r@.len()
            &&& strs(r@).subrange(0, known.len() as int) == known
            &&& sorted_distinct(rest)
            &&& forall|y: Seq<char>| rest.contains(y) <==> (seen.contains(y) && !source_order().contains(y))
        }),
{
    let mut seen: Vec<String> = Vec::new();
    let ghost es = object_entries(*raw, "cardEntryMap"@);
    match object_at(raw, "cardEntryMap") {
        Some(m) => {
            let mut i: usize = 0;
            assert(strs(seen@) =~= Seq::<Seq<char>>::empty());
            while i < m.len()
                invariant
                    i <= m@.len(),
                    es == m@,
                    strs(seen@) == seen_sources(m@.subrange(0, i as int)),
                decreases m.len() - i,
            {
                assert(m@.subrange(0, i + 1).drop_last() =~= m@.subrange(0, i as int));
                assert(m@.subrange(0, i + 1).last() == m@[i as int]);
                if ap_pack_of(&m[i].1) {
                    let ghost before = seen@;
                    seen.push(owned("Pack"));
                    assert(strs(seen@) =~= strs(before).push("Pack"@));
                }
                match card_source_from_raenonx(&m[i].1) {
                    Some(x) => {
                        let ghost before = seen@;
                        seen.push(x);
                        assert(strs(seen@) =~= strs(before).push(x@));
                    },
                    None => {},
                }
                i += 1;
            }
            assert(m@.subrange(0, m@.len() as int) =~= m@);
        },
        None => {
            assert(strs(seen@) =~= seen_sources(es));
        },
    }
    let order = source_order_vec();
    let ghost ord = strs(order@);
    let mut out: Vec<String> = Vec::new();
    let mut k: usize = 0;
    assert(strs(out@) =~= known_seen(ord.subrange(0, 0), strs(seen@)));
    while k < order.len()
        invariant
            k <= order@.len(),
            ord == strs(order@),
            strs(out@) == known_seen(ord.subrange(0, k as int), strs(seen@)),
        decreases order.len() - k,
    {
        assert(ord.subrange(0, k + 1).drop_last() =~= ord.subrange(0, k as int));
        if vec_has(&seen, &chars_of(order[k].as_str())) {
            let ghost before = out@;
            out.push(order[k].clone());
            assert(strs(out@) =~= strs(before).push(ord[k as int]));
        }
        k += 1;
    }
    assert(ord.subrange(0, ord.len() as int) =~= ord);
    let ghost known_len = out@.len();
    let mut others: Vec<String> = Vec::new();
    let mut j: usize = 0;
    while j < seen.len()
        invariant
            j <= seen@.len(),
            ord == source_order(),
            ord == strs(order@),
            forall|y: Seq<char>| #[trigger] strs(others@).contains(y) <==> (strs(seen@).subrange(0, j as int).contains(y) && !ord.contains(y)),
        decreases seen.len() - j,
    {
        let ghost pre = strs(seen@).subrange(0, j as int);
        let ghost x = seen@[j as int]@;
        assert(strs(seen@).subrange(0, j + 1) =~= pre.push(x));
        let ghost before = strs(others@);
        assert(forall|y: Seq<char>| #[trigger] before.contains(y) <==> (pre.contains(y) && !ord.contains(y)));
        let pushed = !vec_has(&order, &chars_of(seen[j].as_str()));
        if pushed {
            others.push(seen[j].clone());
            assert(strs(others@) =~= before.push(x));
        }
        assert(pushed == !ord.contains(x));
        assert forall|y: Seq<char>| #[trigger] strs(others@).contains(y) <==> (pre.push(x).contains(y) && !ord.contains(y)) by {
            assert(before.contains(y) <==> (pre.contains(y) && !ord.contains(y)));
            lemma_push_contains(pre, x, y);
            if pushed {
                lemma_push_contains(before, x, y);
            }
        }
        assert forall|y: Seq<char>| #[trigger] strs(others@).contains(y) <==> (strs(seen@).subrange(0, j + 1).contains(y) && !ord.contains(y)) by {
            assert(strs(seen@).subrange(0, j + 1) == pre.push(x));
            assert(strs(others@).contains(y) <==> (pre.push(x).contains(y) && !ord.contains(y)));
        }
        j += 1;
    }
    assert(strs(seen@).subrange(0, seen@.len() as int) =~= strs(seen@));
    let sorted_others = sort_dedup_strings(&others);
    let ghost known = strs(out@);
    let mut t: usize = 0;
    while t < sorted_others.len()
        invariant
            t <= sorted_others@.len(),
            known.len() == known_len,
            strs(out@) == known + strs(sorted_others@).subrange(0, t as int),
        decreases sorted_others.len() - t,
    {
        let ghost before = strs(out@);
        let ghost so = strs(sorted_others@);
        assert(so[t as int] == sorted_others@[t as int]@);
        out.push(sorted_others[t].clone());
        assert(so.subrange(0, t + 1) =~= so.subrange(0, t as int).push(so[t as int]));
        assert(strs(out@) =~= before.push(so[t as int]));
        assert(strs(out@) =~= known + so.subrange(0, t + 1));
        t += 1;
    }
    assert(strs(out@).subrange(0, known.len() as int) =~= known);
    assert(strs(out@).subrange(known.len() as int, out@.len() as int) =~= strs(sorted_others@));
    proof {
        lemma_pack_first(es, strs(seen@), strs(out@));
    }
    out
}

/// The rarity codes of the entries that have a non-empty one.
pub open spec fn rarity_codes_seen(es: Seq<(String, JsonValue)>) -> Seq<Seq<char>>
    decreases es.len(),
{
    if es.len() == 0 {
        Seq::empty()
    } else {
        let r = rarity_codes_seen(es.drop_last());
        match ostr(jget(es.last().1, "rarity"@)) {
            Some(c) => if c.len() > 0 {
                r.push(c)
            } else {
                r
            },
            None => r,
        }
    }
}

/// Every non-empty rarity code of the card entries, sorted, each once.
pub fn parse_rarity_codes(raw: &JsonValue) -> (r: Vec<String>)
    ensures
        sorted_distinct(strs(r@)),
        forall|y: Seq<char>| strs(r@).contains(y) <==> rarity_codes_seen(object_entries(*raw, "cardEntryMap"@)).contains(y),
{
    let mut codes: Vec<String> = Vec::new();
    let ghost es = object_entries(*raw, "cardEntryMap"@);
    match object_at(raw, "cardEntryMap") {
        Some(m) => {
            let mut i: usize = 0;
            assert(strs(codes@) =~= Seq::<Seq<char>>::empty());
            while i < m.len()
                invariant
                    i <= m@.len(),
                    es == m@,
                    strs(codes@) == rarity_codes_seen(m@.subrange(0, i as int)),
                decreases m.len() - i,
            {
                assert(m@.subrange(0, i + 1).drop_last() =~= m@.subrange(0, i as int));
                match str_in(m[i].1.get("rarity")) {
                    Some(c) => {
                        if c.as_str().unicode_len() > 0 {
                            let ghost before = codes@;
                            codes.push(c);
                            assert(strs(codes@) =~= strs(before).push(c@));
                        }
                    },
                    None => {},
                }
                i += 1;
            }
            assert(m@.subrange(0, m@.len() as int) =~= m@);
        },
        None => {
            assert(strs(codes@) =~= rarity_codes_seen(es));
        },
    }
    sort_dedup_strings(&codes)
}

} // verus!

verus! {

/// A card without a promotion that can be pulled from a pack (its
/// `source.pack` is a non-empty array) is obtained from a pack, whatever
/// else its source lists (a Wonder Pick, a mission, a shop).
pub proof fn lemma_pack_source_wins(val: JsonValue)
    requires
        ostr(oget(jget(val, "promotion"@), "sourceI18nId"@)) is None,
        oarray(oget(jget(val, "source"@), "pack"@)) matches Some(a) && a.len() > 0,
    ensures
        card_source_spec(val) == Some("Pack"@),
{
}

/// A card whose promotion names its source takes it from there: "PACK" is a
/// pack, "FEED" a Wonder Pick, "MISSION" and "CAMPAIGN" a mission, whatever
/// its `source` fields hold.
pub proof fn lemma_promotion_source(val: JsonValue)
    ensures
        ostr(oget(jget(val, "promotion"@), "sourceI18nId"@)) == Some("PACK"@) ==> card_source_spec(val) == Some("Pack"@),
        ostr(oget(jget(val, "promotion"@), "sourceI18nId"@)) == Some("FEED"@) ==> card_source_spec(val) == Some("Wonder Pick"@),
        ostr(oget(jget(val, "promotion"@), "sourceI18nId"@)) == Some("MISSION"@) ==> card_source_spec(val) == Some("Mission"@),
        ostr(oget(jget(val, "promotion"@), "sourceI18nId"@)) == Some("CAMPAIGN"@) ==> card_source_spec(val) == Some("Mission"@),
{
    reveal_strlit("PACK");
    reveal_strlit("FEED");
    reveal_strlit("MISSION");
    reveal_strlit("CAMPAIGN");
    assert("FEED"@[0] != "PACK"@[0]);
    assert("MISSION"@.len() != "PACK"@.len() && "MISSION"@.len() != "FEED"@.len());
    assert("CAMPAIGN"@.len() != "PACK"@.len() && "CAMPAIGN"@.len() != "FEED"@.len());
}

} // verus!
