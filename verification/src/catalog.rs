//! Building the published catalog from what was scraped: reference tables
//! (elements, rarities, card sources), card versions and abstract cards,
//! name lookups in the Pokédex, and pack subtitle maps.
use vstd::prelude::*;
use crate::text::{
    chars_of, string_of, concat, replace, replace_spec, words, words_spec, join, join_spec, seq_eq,
    starts_with, starts_with_spec, padded, padded_spec,
};
use crate::lists::{strs, first_value, get_value, entries_map, keys_distinct, upsert};
use crate::raenonx::{known_seen, str_map, opt_str};
use crate::models::{
    ElementInfo, RarityInfo, CardSource, CardEntry, CardVersion, VersionRef, AbstractCard, LimitlessCardData,
    Attack, Ability,
};
use crate::pages::{attack_model, ability_model};
use crate::models::{Rate, PackPullRates, PackVariantRates};
use crate::rates::clone_slots;
use crate::text::slice_copy;

verus! {

fn owned(s: &str) -> (r: String)
    ensures
        r@ == s@,
{
    string_of(&chars_of(s))
}

pub open spec fn vecs(v: Seq<Vec<char>>) -> Seq<Seq<char>> {
    v.map_values(|x: Vec<char>| x@)
}

fn has_string(v: &Vec<String>, s: &[char]) -> (r: bool)
    ensures
        r == strs(v@).contains(s@),
{
    let mut i: usize = 0;
    while i < v.len()
        invariant
            i <= v@.len(),
            forall|k: int| 0 <= k < i ==> v@[k]@ != s@,
        decreases v.len() - i,
    {
        if seq_eq(&chars_of(v[i].as_str()), s) {
            assert(strs(v@)[i as int] == s@);
            return true;
        }
        i += 1;
    }
    assert forall|k: int| 0 <= k < strs(v@).len() implies strs(v@)[k] != s@ by {
        assert(strs(v@)[k] == v@[k]@);
    }
    false
}

// ───────────────────────── elements ─────────────────────────

/// The energy types and their letters; Dragon has none.
pub open spec fn elements_spec() -> Seq<(Seq<char>, Option<Seq<char>>)> {
    seq![
        ("Grass"@, Some("G"@)),
        ("Fire"@, Some("R"@)),
        ("Water"@, Some("W"@)),
        ("Lightning"@, Some("L"@)),
        ("Fighting"@, Some("F"@)),
        ("Psychic"@, Some("P"@)),
        ("Darkness"@, Some("D"@)),
        ("Metal"@, Some("M"@)),
        ("Colorless"@, Some("C"@)),
        ("Dragon"@, None),
    ]
}

pub open spec fn element_model(e: ElementInfo) -> (Seq<char>, Option<Seq<char>>) {
    (e.name@, opt_str(e.symbol))
}

fn element(name: &str, symbol: Option<&str>) -> (r: ElementInfo)
    ensures
        r.name@ == name@,
        match symbol {
            Some(s) => r.symbol is Some && r.symbol->0@ == s@,
            None => r.symbol is None,
        },
{
    ElementInfo {
        symbol: match symbol {
            Some(s) => Some(owned(s)),
            None => None,
        },
        name: owned(name),
    }
}

/// The element table.
pub fn build_elements() -> (r: Vec<ElementInfo>)
    ensures
        r@.map_values(|e: ElementInfo| element_model(e)) == elements_spec(),
{
    let mut v: Vec<ElementInfo> = Vec::new();
    v.push(element("Grass", Some("G")));
    v.push(element("Fire", Some("R")));
    v.push(element("Water", Some("W")));
    v.push(element("Lightning", Some("L")));
    v.push(element("Fighting", Some("F")));
    v.push(element("Psychic", Some("P")));
    v.push(element("Darkness", Some("D")));
    v.push(element("Metal", Some("M")));
    v.push(element("Colorless", Some("C")));
    v.push(element("Dragon", None));
    assert(v@.map_values(|e: ElementInfo| element_model(e)) =~= elements_spec());
    v
}

/// Element names and the letters that stand for them in card text.
pub open spec fn element_symbols() -> Seq<(Seq<char>, Seq<char>)> {
    seq![
        ("Grass"@, "G"@),
        ("Fire"@, "R"@),
        ("Water"@, "W"@),
        ("Lightning"@, "L"@),
        ("Fighting"@, "F"@),
        ("Psychic"@, "P"@),
        ("Darkness"@, "D"@),
        ("Metal"@, "M"@),
        ("Colorless"@, "C"@),
    ]
}

/// Every `[Name]` placeholder replaced by `[Letter]`, one element after the
/// other in table order.
pub open spec fn placeholders_spec(t: Seq<char>, pairs: Seq<(Seq<char>, Seq<char>)>) -> Seq<char>
    decreases pairs.len(),
{
    if pairs.len() == 0 {
        t
    } else {
        let before = placeholders_spec(t, pairs.drop_last());
        replace_spec(
            before,
            seq!['['] + pairs.last().0 + seq![']'],
            seq!['['] + pairs.last().1 + seq![']'],
        )
    }
}

fn bracketed(s: &str) -> (r: Vec<char>)
    ensures
        r@ == seq!['['] + s@ + seq![']'],
{
    let mut v: Vec<char> = Vec::new();
    v.push('[');
    let mut w = concat(&v, &chars_of(s));
    w.push(']');
    assert(w@ =~= seq!['['] + s@ + seq![']']);
    w
}

fn symbol_pairs() -> (r: Vec<(String, String)>)
    ensures
        r@.map_values(|p: (String, String)| (p.0@, p.1@)) == element_symbols(),
{
    let mut v: Vec<(String, String)> = Vec::new();
    v.push((owned("Grass"), owned("G")));
    v.push((owned("Fire"), owned("R")));
    v.push((owned("Water"), owned("W")));
    v.push((owned("Lightning"), owned("L")));
    v.push((owned("Fighting"), owned("F")));
    v.push((owned("Psychic"), owned("P")));
    v.push((owned("Darkness"), owned("D")));
    v.push((owned("Metal"), owned("M")));
    v.push((owned("Colorless"), owned("C")));
    assert(v@.map_values(|p: (String, String)| (p.0@, p.1@)) =~= element_symbols());
    v
}

/// Card text with element names in brackets replaced by their letters:
/// "[Grass]" → "[G]".
pub fn normalize_element_placeholders(text: &str) -> (r: String)
    ensures
        r@ == placeholders_spec(text@, element_symbols()),
{
    let pairs = symbol_pairs();
    let ghost ps = pairs@.map_values(|p: (String, String)| (p.0@, p.1@));
    let mut cur = chars_of(text);
    let mut i: usize = 0;
    while i < pairs.len()
        invariant
            i <= pairs@.len(),
            ps == pairs@.map_values(|p: (String, String)| (p.0@, p.1@)),
            cur@ == placeholders_spec(text@, ps.subrange(0, i as int)),
        decreases pairs.len() - i,
    {
        assert(ps.subrange(0, i + 1).drop_last() =~= ps.subrange(0, i as int));
        let from = bracketed(pairs[i].0.as_str());
        let to = bracketed(pairs[i].1.as_str());
        cur = replace(&cur, &from, &to);
        i += 1;
    }
    assert(ps.subrange(0, ps.len() as int) =~= ps);
    string_of(&cur)
}

// ───────────────────────── card sources ─────────────────────────

pub open spec fn source_descriptions() -> Seq<(Seq<char>, Seq<char>)> {
    seq![
        ("Pack"@, "Obtainable from promo packs"@),
        ("Wonder Pick"@, "Obtainable via Wonder Pick"@),
        ("Gold Shop"@, "Purchasable in the Gold Shop"@),
        ("Shop"@, "Purchasable in the Shop"@),
        ("Mission"@, "Obtainable via Missions"@),
    ]
}

/// The description of the first listed code equal to `code`.
pub open spec fn description_of(table: Seq<(Seq<char>, Seq<char>)>, code: Seq<char>) -> Option<Seq<char>>
    decreases table.len(),
{
    if table.len() == 0 {
        None
    } else if table[0].0 == code {
        Some(table[0].1)
    } else {
        description_of(table.drop_first(), code)
    }
}

pub open spec fn card_source_model(s: CardSource) -> (Seq<char>, Option<Seq<char>>) {
    (s.code@, opt_str(s.description))
}

fn describe(table: &Vec<(String, String)>, code: &[char]) -> (r: Option<String>)
    ensures
        opt_str(r) == description_of(table@.map_values(|p: (String, String)| (p.0@, p.1@)), code@),
{
    let ghost tv = table@.map_values(|p: (String, String)| (p.0@, p.1@));
    let mut j: usize = 0;
    assert(tv.subrange(0, tv.len() as int) =~= tv);
    while j < table.len()
        invariant
            j <= table@.len(),
            tv == table@.map_values(|p: (String, String)| (p.0@, p.1@)),
            description_of(tv, code@) == description_of(tv.subrange(j as int, tv.len() as int), code@),
        decreases table.len() - j,
    {
        let ghost rest = tv.subrange(j as int, tv.len() as int);
        assert(rest.drop_first() =~= tv.subrange(j + 1, tv.len() as int));
        assert(rest[0] == (table@[j as int].0@, table@[j as int].1@));
        if seq_eq(&chars_of(table[j].0.as_str()), code) {
            return Some(table[j].1.clone());
        }
        j += 1;
    }
    assert(tv.subrange(j as int, tv.len() as int) =~= Seq::<(Seq<char>, Seq<char>)>::empty());
    None
}

/// The card-source table: each code with its description when it is a
/// known one.
pub fn build_promo_sources(codes: &Vec<String>) -> (r: Vec<CardSource>)
    ensures
        r@.len() == codes@.len(),
        forall|k: int| 0 <= k < codes@.len() ==> #[trigger] card_source_model(r@[k]) == (codes@[k]@, description_of(source_descriptions(), codes@[k]@)),
{
    let mut table: Vec<(String, String)> = Vec::new();
    table.push((owned("Pack"), owned("Obtainable from promo packs")));
    table.push((owned("Wonder Pick"), owned("Obtainable via Wonder Pick")));
    table.push((owned("Gold Shop"), owned("Purchasable in the Gold Shop")));
    table.push((owned("Shop"), owned("Purchasable in the Shop")));
    table.push((owned("Mission"), owned("Obtainable via Missions")));
    let ghost tv = table@.map_values(|p: (String, String)| (p.0@, p.1@));
    assert(tv =~= source_descriptions());
    let mut out: Vec<CardSource> = Vec::new();
    let mut i: usize = 0;
    while i < codes.len()
        invariant
            i <= codes@.len(),
            tv == table@.map_values(|p: (String, String)| (p.0@, p.1@)),
            tv == source_descriptions(),
            out@.len() == i,
            forall|k: int| 0 <= k < i ==> #[trigger] card_source_model(out@[k]) == (codes@[k]@, description_of(source_descriptions(), codes@[k]@)),
        decreases codes.len() - i,
    {
        let desc = describe(&table, &chars_of(codes[i].as_str()));
        out.push(CardSource { code: codes[i].clone(), description: desc });
        i += 1;
    }
    out
}


// ───────────────────────── rarities ─────────────────────────

/// Code, group, symbol count and name of each known rarity, most common first.
pub open spec fn rarity_metadata() -> Seq<(Seq<char>, Seq<char>, nat, Seq<char>)> {
    seq![
        ("C"@, "Diamond"@, 1nat, "Common"@),
        ("U"@, "Diamond"@, 2nat, "Uncommon"@),
        ("R"@, "Diamond"@, 3nat, "Rare"@),
        ("RR"@, "Diamond"@, 4nat, "Double Rare"@),
        ("AR"@, "Star"@, 1nat, "Art Rare"@),
        ("SR"@, "Star"@, 2nat, "Super Rare"@),
        ("SAR"@, "Star"@, 2nat, "Special Art Rare"@),
        ("IM"@, "Star"@, 3nat, "Immersive"@),
        ("S"@, "Shiny"@, 1nat, "Shiny Rare"@),
        ("SSR"@, "Shiny"@, 2nat, "Shiny Super Rare"@),
        ("UR"@, "Crown"@, 1nat, "Crown Rare"@),
    ]
}

pub open spec fn meta_codes() -> Seq<Seq<char>> {
    rarity_metadata().map_values(|m: (Seq<char>, Seq<char>, nat, Seq<char>)| m.0)
}

pub open spec fn meta_of(meta: Seq<(Seq<char>, Seq<char>, nat, Seq<char>)>, code: Seq<char>) -> Option<(Seq<char>, Seq<char>, nat, Seq<char>)>
    decreases meta.len(),
{
    if meta.len() == 0 {
        None
    } else if meta[0].0 == code {
        Some(meta[0])
    } else {
        meta_of(meta.drop_first(), code)
    }
}

/// `acc` followed by the codes it lacks, in order, each once.
pub open spec fn append_new(acc: Seq<Seq<char>>, codes: Seq<Seq<char>>) -> Seq<Seq<char>>
    decreases codes.len(),
{
    if codes.len() == 0 {
        acc
    } else {
        let r = append_new(acc, codes.drop_last());
        if r.contains(codes.last()) {
            r
        } else {
            r.push(codes.last())
        }
    }
}

/// The rarities to publish: the known ones present, in table order, then
/// the unknown ones in the order first seen.
pub open spec fn rarity_order(codes: Seq<Seq<char>>) -> Seq<Seq<char>> {
    append_new(known_seen(meta_codes(), codes), codes)
}

pub type RarityModel = (Seq<char>, Seq<char>, Seq<char>, nat, Option<u32>, Option<u32>);

/// A rarity's entry: name, group and symbol count from the table ("Unknown",
/// 0 and the code itself for an unknown code), craft cost and dupe dust from
/// the maps.
pub open spec fn rarity_info_spec(code: Seq<char>, craft: Seq<(String, u32)>, dupe: Seq<(String, u32)>) -> RarityModel {
    match meta_of(rarity_metadata(), code) {
        Some(m) => (code, m.3, m.1, m.2, first_value(craft, code), first_value(dupe, code)),
        None => (code, code, "Unknown"@, 0, first_value(craft, code), first_value(dupe, code)),
    }
}

pub open spec fn rarity_model(r: RarityInfo) -> RarityModel {
    (r.code@, r.name@, r.group@, r.group_symbol_count as nat, r.craft_cost, r.dupe_dust)
}

fn metadata_vec() -> (r: Vec<(String, String, u8, String)>)
    ensures
        r@.map_values(|m: (String, String, u8, String)| (m.0@, m.1@, m.2 as nat, m.3@)) == rarity_metadata(),
{
    let mut v: Vec<(String, String, u8, String)> = Vec::new();
    v.push((owned("C"), owned("Diamond"), 1, owned("Common")));
    v.push((owned("U"), owned("Diamond"), 2, owned("Uncommon")));
    v.push((owned("R"), owned("Diamond"), 3, owned("Rare")));
    v.push((owned("RR"), owned("Diamond"), 4, owned("Double Rare")));
    v.push((owned("AR"), owned("Star"), 1, owned("Art Rare")));
    v.push((owned("SR"), owned("Star"), 2, owned("Super Rare")));
    v.push((owned("SAR"), owned("Star"), 2, owned("Special Art Rare")));
    v.push((owned("IM"), owned("Star"), 3, owned("Immersive")));
    v.push((owned("S"), owned("Shiny"), 1, owned("Shiny Rare")));
    v.push((owned("SSR"), owned("Shiny"), 2, owned("Shiny Super Rare")));
    v.push((owned("UR"), owned("Crown"), 1, owned("Crown Rare")));
    assert(v@.map_values(|m: (String, String, u8, String)| (m.0@, m.1@, m.2 as nat, m.3@)) =~= rarity_metadata());
    v
}

fn rarity_entry(
    meta: &Vec<(String, String, u8, String)>,
    code: &String,
    craft: &Vec<(String, u32)>,
    dupe: &Vec<(String, u32)>,
) -> (r: RarityInfo)
    requires
        meta@.map_values(|m: (String, String, u8, String)| (m.0@, m.1@, m.2 as nat, m.3@)) == rarity_metadata(),
    ensures
        rarity_model(r) == rarity_info_spec(code@, craft@, dupe@),
{
    let ghost mv = meta@.map_values(|m: (String, String, u8, String)| (m.0@, m.1@, m.2 as nat, m.3@));
    let c = chars_of(code.as_str());
    let craft_cost = match get_value(craft, &c) {
        Some(x) => Some(*x),
        None => None,
    };
    let dupe_dust = match get_value(dupe, &c) {
        Some(x) => Some(*x),
        None => None,
    };
    let mut j: usize = 0;
    assert(mv.subrange(0, mv.len() as int) =~= mv);
    while j < meta.len()
        invariant
            j <= meta@.len(),
            mv == meta@.map_values(|m: (String, String, u8, String)| (m.0@, m.1@, m.2 as nat, m.3@)),
            mv == rarity_metadata(),
            c@ == code@,
            craft_cost == first_value(craft@, code@),
            dupe_dust == first_value(dupe@, code@),
            meta_of(mv, code@) == meta_of(mv.subrange(j as int, mv.len() as int), code@),
        decreases meta.len() - j,
    {
        let ghost rest = mv.subrange(j as int, mv.len() as int);
        assert(rest.drop_first() =~= mv.subrange(j + 1, mv.len() as int));
        assert(rest[0] == mv[j as int]);
        if seq_eq(&chars_of(meta[j].0.as_str()), &c) {
            return RarityInfo {
                code: code.clone(),
                name: meta[j].3.clone(),
                group: meta[j].1.clone(),
                group_symbol_count: meta[j].2,
                craft_cost,
                dupe_dust,
            };
        }
        j += 1;
    }
    assert(mv.subrange(j as int, mv.len() as int) =~= Seq::<(Seq<char>, Seq<char>, nat, Seq<char>)>::empty());
    RarityInfo { code: code.clone(), name: code.clone(), group: owned("Unknown"), group_symbol_count: 0, craft_cost, dupe_dust }
}

/// The rarity table for the codes seen in the master data.
pub fn build_rarity_list(codes: &Vec<String>, craft_costs: &Vec<(String, u32)>, dupe_dust: &Vec<(String, u32)>) -> (r: Vec<RarityInfo>)
    ensures
        r@.len() == rarity_order(strs(codes@)).len(),
        forall|k: int| 0 <= k < r@.len() ==> #[trigger] rarity_model(r@[k]) == rarity_info_spec(rarity_order(strs(codes@))[k], craft_costs@, dupe_dust@),
{
    let meta = metadata_vec();
    let ghost mv = meta@.map_values(|m: (String, String, u8, String)| (m.0@, m.1@, m.2 as nat, m.3@));
    let ghost cs = strs(codes@);
    let mut ordered: Vec<String> = Vec::new();
    let mut j: usize = 0;
    assert(meta_codes() =~= mv.map_values(|m: (Seq<char>, Seq<char>, nat, Seq<char>)| m.0));
    assert(strs(ordered@) =~= known_seen(meta_codes().subrange(0, 0), cs));
    while j < meta.len()
        invariant
            j <= meta@.len(),
            mv == meta@.map_values(|m: (String, String, u8, String)| (m.0@, m.1@, m.2 as nat, m.3@)),
            mv == rarity_metadata(),
            cs == strs(codes@),
            strs(ordered@) == known_seen(meta_codes().subrange(0, j as int), cs),
        decreases meta.len() - j,
    {
        assert(meta_codes().subrange(0, j + 1).drop_last() =~= meta_codes().subrange(0, j as int));
        assert(meta_codes()[j as int] == meta@[j as int].0@);
        if has_string(codes, &chars_of(meta[j].0.as_str())) {
            let ghost before = ordered@;
            ordered.push(meta[j].0.clone());
            assert(strs(ordered@) =~= strs(before).push(meta@[j as int].0@));
        }
        j += 1;
    }
    assert(meta_codes().subrange(0, meta_codes().len() as int) =~= meta_codes());
    let ghost known = strs(ordered@);
    let mut i: usize = 0;
    assert(cs.subrange(0, 0) =~= Seq::<Seq<char>>::empty());
    while i < codes.len()
        invariant
            i <= codes@.len(),
            cs == strs(codes@),
            strs(ordered@) == append_new(known, cs.subrange(0, i as int)),
        decreases codes.len() - i,
    {
        assert(cs.subrange(0, i + 1).drop_last() =~= cs.subrange(0, i as int));
        assert(cs[i as int] == codes@[i as int]@);
        if !has_string(&ordered, &chars_of(codes[i].as_str())) {
            let ghost before = ordered@;
            ordered.push(codes[i].clone());
            assert(strs(ordered@) =~= strs(before).push(codes@[i as int]@));
        }
        i += 1;
    }
    assert(cs.subrange(0, cs.len() as int) =~= cs);
    let mut out: Vec<RarityInfo> = Vec::new();
    let mut k: usize = 0;
    while k < ordered.len()
        invariant
            k <= ordered@.len(),
            strs(ordered@) == rarity_order(cs),
            cs == strs(codes@),
            mv == rarity_metadata(),
            mv == meta@.map_values(|m: (String, String, u8, String)| (m.0@, m.1@, m.2 as nat, m.3@)),
            out@.len() == k,
            forall|t: int| 0 <= t < k ==> #[trigger] rarity_model(out@[t]) == rarity_info_spec(rarity_order(cs)[t], craft_costs@, dupe_dust@),
        decreases ordered.len() - k,
    {
        assert(rarity_order(cs)[k as int] == ordered@[k as int]@);
        out.push(rarity_entry(&meta, &ordered[k], craft_costs, dupe_dust));
        k += 1;
    }
    out
}


// ───────────────────────── Pokédex names ─────────────────────────

/// The first run of consecutive words, longest first and leftmost first,
/// starting with runs of `len` words at `start`, that joined by single spaces
/// is a key of the map: its bounds and value.
pub open spec fn window_hit(ws: Seq<Seq<char>>, map: Seq<(String, u32)>, len: int, start: int) -> Option<(int, int, u32)>
    decreases len, ws.len() - start,
{
    if len <= 0 {
        None
    } else if start < 0 || start + len > ws.len() {
        window_hit(ws, map, len - 1, 0)
    } else {
        match first_value(map, join_spec(ws.subrange(start, start + len), " "@)) {
            Some(v) => Some((start, start + len, v)),
            None => window_hit(ws, map, len, start + 1),
        }
    }
}

fn window(ws: &Vec<Vec<char>>, start: usize, end: usize) -> (r: Vec<Vec<char>>)
    requires
        start <= end <= ws@.len(),
    ensures
        vecs(r@) == vecs(ws@).subrange(start as int, end as int),
{
    let mut r: Vec<Vec<char>> = Vec::new();
    let mut k = start;
    while k < end
        invariant
            start <= k <= end <= ws@.len(),
            vecs(r@) == vecs(ws@).subrange(start as int, k as int),
        decreases end - k,
    {
        let ghost before = r@;
        let w = slice_copy(&ws[k], 0, ws[k].len());
        assert(w@ =~= ws@[k as int]@);
        r.push(w);
        assert(vecs(r@) =~= vecs(before).push(w@));
        assert(vecs(ws@).subrange(start as int, k + 1) =~= vecs(ws@).subrange(start as int, k as int).push(
            ws@[k as int]@,
        ));
        k += 1;
    }
    r
}

proof fn lemma_window_bounds(ws: Seq<Seq<char>>, map: Seq<(String, u32)>, len: int, start: int)
    ensures
        window_hit(ws, map, len, start) matches Some((a, b, _)) ==> 0 <= a <= b <= ws.len(),
    decreases len, ws.len() - start,
{
    if len <= 0 {
    } else if start < 0 || start + len > ws.len() {
        lemma_window_bounds(ws, map, len - 1, 0);
    } else {
        lemma_window_bounds(ws, map, len, start + 1);
    }
}

fn find_window(ws: &Vec<Vec<char>>, map: &Vec<(String, u32)>, len0: usize) -> (r: Option<(usize, usize, u32)>)
    ensures
        match r {
            Some((a, b, v)) => window_hit(vecs(ws@), map@, len0 as int, 0) == Some((a as int, b as int, v)),
            None => window_hit(vecs(ws@), map@, len0 as int, 0) is None,
        },
{
    let ghost wv = vecs(ws@);
    let n = ws.len();
    let mut len = len0;
    let mut start: usize = 0;
    let space = chars_of(" ");
    while len > 0
        invariant
            wv == vecs(ws@),
            n == ws@.len(),
            space@ == " "@,
            window_hit(wv, map@, len0 as int, 0) == window_hit(wv, map@, len as int, start as int),
        decreases len, n + 1 - start,
    {
        if len > n || start > n - len {
            len = len - 1;
            start = 0;
        } else {
            let w = window(ws, start, start + len);
            let text = join(&w, &space);
            match get_value(map, &text) {
                Some(v) => {
                    return Some((start, start + len, *v));
                },
                None => {
                    start = start + 1;
                },
            }
        }
    }
    None
}

/// The Pokédex number of a card's name: the name itself, or else the
/// longest, leftmost run of its words (shorter than the whole name) that is a
/// species name.
pub open spec fn natdex_spec(name: Seq<char>, map: Seq<(String, u32)>) -> Option<u32> {
    match first_value(map, name) {
        Some(n) => Some(n),
        None => match window_hit(words_spec(name), map, words_spec(name).len() - 1, 0) {
            Some(hit) => Some(hit.2),
            None => None,
        },
    }
}

pub fn find_natdex_number(name: &str, pokemon_map: &Vec<(String, u32)>) -> (r: Option<u32>)
    ensures
        r == natdex_spec(name@, pokemon_map@),
{
    let nc = chars_of(name);
    match get_value(pokemon_map, &nc) {
        Some(n) => return Some(*n),
        None => {},
    }
    let ws = words(&nc);
    assert(vecs(ws@) =~= words_spec(name@));
    if ws.len() == 0 {
        return None;
    }
    match find_window(&ws, pokemon_map, ws.len() - 1) {
        Some((_, _, v)) => Some(v),
        None => None,
    }
}

pub open spec fn is_modifier(w: Seq<char>) -> bool {
    w == "ex"@ || w == "EX"@ || w == "Mega"@
}

/// The words that are not the non-variant modifiers "ex", "EX" and "Mega".
pub open spec fn without_modifiers(ws: Seq<Seq<char>>) -> Seq<Seq<char>>
    decreases ws.len(),
{
    if ws.len() == 0 {
        Seq::empty()
    } else {
        let r = without_modifiers(ws.drop_last());
        if is_modifier(ws.last()) {
            r
        } else {
            r.push(ws.last())
        }
    }
}

/// A card name's variant: the words around the longest species name in it,
/// less the modifiers, joined by spaces ("Alolan Vulpix" → ["Alolan"]); none
/// when no species name is found or nothing is left.
pub open spec fn variant_spec(name: Seq<char>, map: Seq<(String, u32)>) -> Seq<Seq<char>> {
    let ws = words_spec(name);
    match window_hit(ws, map, ws.len() as int, 0) {
        None => Seq::empty(),
        Some((a, b, _)) => {
            let rest = without_modifiers(ws.subrange(0, a) + ws.subrange(b, ws.len() as int));
            if rest.len() == 0 {
                Seq::empty()
            } else {
                seq![join_spec(rest, " "@)]
            }
        },
    }
}

fn is_modifier_word(w: &[char]) -> (r: bool)
    ensures
        r == is_modifier(w@),
{
    seq_eq(w, &chars_of("ex")) || seq_eq(w, &chars_of("EX")) || seq_eq(w, &chars_of("Mega"))
}

pub fn extract_variants(name: &str, pokemon_map: &Vec<(String, u32)>) -> (r: Vec<String>)
    ensures
        strs(r@) == variant_spec(name@, pokemon_map@),
{
    let nc = chars_of(name);
    let ws = words(&nc);
    let ghost wv = vecs(ws@);
    assert(wv =~= words_spec(name@));
    let mut out: Vec<String> = Vec::new();
    match find_window(&ws, pokemon_map, ws.len()) {
        None => {
            assert(strs(out@) =~= Seq::<Seq<char>>::empty());
            out
        },
        Some((a, b, _)) => {
            proof {
                lemma_window_bounds(wv, pokemon_map@, ws@.len() as int, 0);
            }
            let ghost around = wv.subrange(0, a as int) + wv.subrange(b as int, wv.len() as int);
            let mut kept: Vec<Vec<char>> = Vec::new();
            let mut k: usize = 0;
            let wn = ws.len();
            let total = a + (wn - b);
            assert(vecs(kept@) =~= without_modifiers(around.subrange(0, 0)));
            while k < total
                invariant
                    a <= b <= ws@.len(),
                    wn == ws@.len(),
                    total == a + (ws@.len() - b),
                    wv == vecs(ws@),
                    around == wv.subrange(0, a as int) + wv.subrange(b as int, wv.len() as int),
                    k <= total,
                    vecs(kept@) == without_modifiers(around.subrange(0, k as int)),
                decreases total - k,
            {
                assert(around.subrange(0, k + 1).drop_last() =~= around.subrange(0, k as int));
                let idx = if k < a {
                    k
                } else {
                    let off: usize = k - a;
                    assert(b + off < wn);
                    b + off
                };
                assert(around[k as int] == ws@[idx as int]@);
                if !is_modifier_word(&ws[idx]) {
                    let ghost before = kept@;
                    kept.push(slice_copy(&ws[idx], 0, ws[idx].len()));
                    assert(ws@[idx as int]@.subrange(0, ws@[idx as int]@.len() as int) =~= ws@[idx as int]@);
                    assert(vecs(kept@) =~= vecs(before).push(around[k as int]));
                }
                k += 1;
            }
            assert(around.subrange(0, around.len() as int) =~= around);
            if kept.len() == 0 {
                assert(strs(out@) =~= Seq::<Seq<char>>::empty());
                out
            } else {
                out.push(string_of(&join(&kept, &chars_of(" "))));
                assert(strs(out@) =~= seq![join_spec(without_modifiers(around), " "@)]);
                out
            }
        },
    }
}

// ───────────────────────── pack subtitles ─────────────────────────

fn add_entry(out: &mut Vec<(String, String)>, k: String, v: String, Ghost(all): Ghost<Seq<(String, String)>>, Ghost(i): Ghost<int>)
    requires
        0 <= i < all.len(),
        k@ == all[i].0@,
        v@ == all[i].1@,
        keys_distinct(old(out)@),
        str_map(entries_map(old(out)@)) == str_map(entries_map(all.subrange(0, i))),
    ensures
        keys_distinct(final(out)@),
        str_map(entries_map(final(out)@)) == str_map(entries_map(all.subrange(0, i + 1))),
{
    let ghost old_map = entries_map(out@);
    let ghost kv = k@;
    let ghost vv = v;
    upsert(out, k, v);
    proof {
        crate::raenonx::lemma_str_map_insert_pub(old_map, kv, vv);
        let pre = all.subrange(0, i);
        assert(all.subrange(0, i + 1).drop_last() =~= pre);
        crate::raenonx::lemma_str_map_insert_pub(entries_map(pre), all[i].0@, all[i].1);
    }
}

/// Pack id → subtitle: the pack names, overridden by the promo packs'
/// description ids.
pub fn build_pack_subtitle_map(promo_subtitles: &Vec<(String, String)>, pack_names: &Vec<(String, String)>) -> (r: Vec<(String, String)>)
    ensures
        keys_distinct(r@),
        str_map(entries_map(r@)) == str_map(entries_map(pack_names@ + promo_subtitles@)),
{
    let ghost all = pack_names@ + promo_subtitles@;
    let mut out: Vec<(String, String)> = Vec::new();
    let mut i: usize = 0;
    assert(str_map(entries_map(out@)) =~= str_map(entries_map(all.subrange(0, 0))));
    while i < pack_names.len()
        invariant
            all == pack_names@ + promo_subtitles@,
            i <= pack_names@.len(),
            keys_distinct(out@),
            str_map(entries_map(out@)) == str_map(entries_map(all.subrange(0, i as int))),
        decreases pack_names.len() - i,
    {
        let k = pack_names[i].0.clone();
        let v = pack_names[i].1.clone();
        assert(all[i as int] == pack_names@[i as int]);
        add_entry(&mut out, k, v, Ghost(all), Ghost(i as int));
        i += 1;
    }
    let mut j: usize = 0;
    while j < promo_subtitles.len()
        invariant
            all == pack_names@ + promo_subtitles@,
            j <= promo_subtitles@.len(),
            keys_distinct(out@),
            str_map(entries_map(out@)) == str_map(entries_map(all.subrange(0, pack_names@.len() + j))),
        decreases promo_subtitles.len() - j,
    {
        let k = promo_subtitles[j].0.clone();
        let v = promo_subtitles[j].1.clone();
        assert(all[pack_names@.len() + j] == promo_subtitles@[j as int]);
        add_entry(&mut out, k, v, Ghost(all), Ghost(pack_names@.len() + j));
        j += 1;
    }
    assert(all.subrange(0, all.len() as int) =~= all);
    out
}

// ───────────────────────── card versions ─────────────────────────

/// The subtitles of the packs that have one, in the order of the pack ids.
pub open spec fn subtitles_of(ids: Seq<String>, map: Seq<(String, String)>) -> Seq<Seq<char>>
    decreases ids.len(),
{
    if ids.len() == 0 {
        Seq::empty()
    } else {
        let r = subtitles_of(ids.drop_last(), map);
        match first_value(map, ids.last()@) {
            Some(s) => r.push(s@),
            None => r,
        }
    }
}

pub open spec fn any_promo_pack(ids: Seq<String>) -> bool {
    exists|i: int| 0 <= i < ids.len() && starts_with_spec(#[trigger] ids[i]@, "AP"@)
}

/// How a version is obtained: "Pack" when one of its packs is a promo pack,
/// else the entry's card source ("" when it has none).
pub open spec fn version_source(entry: CardEntry) -> Seq<char> {
    if any_promo_pack(entry.source_packs@) {
        "Pack"@
    } else {
        match entry.card_source {
            Some(s) => s@,
            None => Seq::empty(),
        }
    }
}

/// The promo sources of a version: for a promo-stamped version the entry's
/// card source (when it has one), none otherwise; "Pack" is put first when
/// one of its packs is a promo pack and it is not listed yet.
pub open spec fn version_promo_sources(entry: CardEntry, is_promo: bool) -> Seq<Seq<char>> {
    let base: Seq<Seq<char>> = if is_promo {
        match entry.card_source {
            Some(s) => seq![s@],
            None => Seq::empty(),
        }
    } else {
        Seq::empty()
    };
    if any_promo_pack(entry.source_packs@) && !base.contains("Pack"@) {
        seq!["Pack"@] + base
    } else {
        base
    }
}

pub open spec fn refs_model(v: Seq<VersionRef>) -> Seq<(Seq<char>, nat)> {
    v.map_values(|r: VersionRef| (r.set@, r.number as nat))
}

pub(crate) fn pack_subtitles(ids: &Vec<String>, map: &Vec<(String, String)>) -> (r: Vec<String>)
    ensures
        strs(r@) == subtitles_of(ids@, map@),
{
    let mut out: Vec<String> = Vec::new();
    let mut i: usize = 0;
    assert(strs(out@) =~= subtitles_of(ids@.subrange(0, 0), map@));
    while i < ids.len()
        invariant
            i <= ids@.len(),
            strs(out@) == subtitles_of(ids@.subrange(0, i as int), map@),
        decreases ids.len() - i,
    {
        assert(ids@.subrange(0, i + 1).drop_last() =~= ids@.subrange(0, i as int));
        match get_value(map, &chars_of(ids[i].as_str())) {
            Some(s) => {
                let ghost before = out@;
                out.push(s.clone());
                assert(strs(out@) =~= strs(before).push(s@));
            },
            None => {},
        }
        i += 1;
    }
    assert(ids@.subrange(0, ids@.len() as int) =~= ids@);
    out
}

fn has_promo_pack(ids: &Vec<String>) -> (r: bool)
    ensures
        r == any_promo_pack(ids@),
{
    let ap = chars_of("AP");
    let mut i: usize = 0;
    while i < ids.len()
        invariant
            i <= ids@.len(),
            ap@ == "AP"@,
            forall|k: int| 0 <= k < i ==> !starts_with_spec(#[trigger] ids@[k]@, "AP"@),
        decreases ids.len() - i,
    {
        if starts_with(&chars_of(ids[i].as_str()), &ap) {
            return true;
        }
        i += 1;
    }
    false
}

fn promo_sources_of(entry: &CardEntry, is_promo: bool) -> (r: Vec<String>)
    ensures
        strs(r@) == version_promo_sources(*entry, is_promo),
{
    let mut base: Vec<String> = Vec::new();
    let mut has_pack = false;
    if is_promo {
        match &entry.card_source {
            Some(s) => {
                base.push(s.clone());
                has_pack = seq_eq(&chars_of(s.as_str()), &chars_of("Pack"));
                assert(strs(base@) =~= seq![s@]);
            },
            None => {},
        }
    }
    let ghost b = strs(base@);
    assert(b.contains("Pack"@) <==> has_pack) by {
        if b.len() == 1 {
            if has_pack {
                assert(b[0] == "Pack"@);
            }
        }
    }
    if has_promo_pack(&entry.source_packs) && !has_pack {
        let mut out: Vec<String> = Vec::new();
        out.push(owned("Pack"));
        let mut i: usize = 0;
        while i < base.len()
            invariant
                i <= base@.len(),
                b == strs(base@),
                strs(out@) == seq!["Pack"@] + b.subrange(0, i as int),
            decreases base.len() - i,
        {
            let ghost before = strs(out@);
            out.push(base[i].clone());
            assert(b.subrange(0, i + 1) =~= b.subrange(0, i as int).push(b[i as int]));
            assert(strs(out@) =~= before.push(b[i as int]));
            i += 1;
        }
        assert(b.subrange(0, b.len() as int) =~= b);
        out
    } else {
        base
    }
}

/// One card version as published: its packs by subtitle, how it is
/// obtained, and whether it can be traded (never for promo versions); not yet
/// marked as a reprint and without duplicates.
#[verifier::rlimit(30)]
pub fn build_card_version(
    set: &str,
    number: u32,
    abstract_id: u32,
    entry: &CardEntry,
    pack_subtitle_map: &Vec<(String, String)>,
    illustrator: Option<String>,
    is_promo: bool,
    is_foil: bool,
) -> (r: CardVersion)
    ensures
        r.set@ == set@,
        r.number == number,
        r.card_id == abstract_id,
        r.rarity@ == entry.rarity@,
        r.illustrator == illustrator,
        r.is_promo == is_promo,
        r.is_foil == is_foil,
        !r.is_reprint,
        r.is_tradable == (entry.is_tradable && !is_promo),
        strs(r.packs@) == subtitles_of(entry.source_packs@, pack_subtitle_map@),
        r.source@ == version_source(*entry),
        strs(r.promo_sources@) == version_promo_sources(*entry, is_promo),
        r.duplicates@.len() == 0,
{
    let packs = pack_subtitles(&entry.source_packs, pack_subtitle_map);
    let promo_sources = promo_sources_of(entry, is_promo);
    let source = if has_promo_pack(&entry.source_packs) {
        owned("Pack")
    } else {
        match &entry.card_source {
            Some(s) => s.clone(),
            None => {
                proof {
                    reveal_strlit("");
                }
                owned("")
            },
        }
    };
    CardVersion {
        set: owned(set),
        number,
        card_id: abstract_id,
        rarity: entry.rarity.clone(),
        illustrator,
        is_promo,
        is_foil,
        is_reprint: false,
        is_tradable: entry.is_tradable && !is_promo,
        packs,
        source,
        promo_sources,
        duplicates: Vec::new(),
    }
}


// ───────────────────────── abstract cards ─────────────────────────

/// The cards that share one abstract card: its id, the master-data entries
/// that belong to it, its versions (earliest first) and the first of them.
pub struct AbstractGroup {
    pub abstract_id: u32,
    pub entry_indices: Vec<usize>,
    pub versions: Vec<VersionRef>,
    pub canonical: (String, u32),
}

fn clone_opt(o: &Option<String>) -> (r: Option<String>)
    ensures
        opt_str(r) == opt_str(*o),
{
    match o {
        Some(s) => Some(s.clone()),
        None => None,
    }
}

fn clone_strings(v: &Vec<String>) -> (r: Vec<String>)
    ensures
        strs(r@) == strs(v@),
{
    let mut r: Vec<String> = Vec::new();
    let mut i: usize = 0;
    while i < v.len()
        invariant
            i <= v@.len(),
            r@.len() == i,
            forall|k: int| 0 <= k < i ==> #[trigger] r@[k]@ == v@[k]@,
        decreases v.len() - i,
    {
        r.push(v[i].clone());
        i += 1;
    }
    assert(strs(r@) =~= strs(v@));
    r
}

fn clone_attacks(v: &Vec<Attack>) -> (r: Vec<Attack>)
    ensures
        r@.map_values(|a: Attack| attack_model(a)) == v@.map_values(|a: Attack| attack_model(a)),
{
    let mut r: Vec<Attack> = Vec::new();
    let mut i: usize = 0;
    while i < v.len()
        invariant
            i <= v@.len(),
            r@.len() == i,
            forall|k: int| 0 <= k < i ==> #[trigger] attack_model(r@[k]) == attack_model(v@[k]),
        decreases v.len() - i,
    {
        let a = &v[i];
        r.push(
            Attack {
                name: a.name.clone(),
                cost: clone_strings(&a.cost),
                damage: a.damage,
                damage_suffix: clone_opt(&a.damage_suffix),
                effect: clone_opt(&a.effect),
            },
        );
        i += 1;
    }
    assert(r@.map_values(|a: Attack| attack_model(a)) =~= v@.map_values(|a: Attack| attack_model(a)));
    r
}

pub(crate) fn clone_refs(v: &Vec<VersionRef>) -> (r: Vec<VersionRef>)
    ensures
        refs_model(r@) == refs_model(v@),
{
    let mut r: Vec<VersionRef> = Vec::new();
    let mut i: usize = 0;
    while i < v.len()
        invariant
            i <= v@.len(),
            r@.len() == i,
            forall|k: int| 0 <= k < i ==> #[trigger] r@[k].set@ == v@[k].set@ && r@[k].number == v@[k].number,
        decreases v.len() - i,
    {
        r.push(VersionRef { set: v[i].set.clone(), number: v[i].number });
        i += 1;
    }
    assert(refs_model(r@) =~= refs_model(v@));
    r
}

pub open spec fn attacks_model(v: Seq<Attack>) -> Seq<(Seq<char>, Seq<Seq<char>>, nat, Option<Seq<char>>, Option<Seq<char>>)> {
    v.map_values(|a: Attack| attack_model(a))
}

pub open spec fn placeholders_opt(o: Option<String>) -> Option<Seq<char>> {
    match o {
        Some(t) => Some(placeholders_spec(t@, element_symbols())),
        None => None,
    }
}

/// The abstract card built from the page content of its first version.
pub open spec fn card_from_data(r: AbstractCard, id: u32, group: AbstractGroup, d: LimitlessCardData, map: Seq<(String, u32)>) -> bool {
    let pokemon = d.card_type@ == "pokemon"@;
    &&& r.id == id
    &&& r.name@ == d.name@
    &&& r.card_type@ == d.card_type@
    &&& r.natdex_number == (if pokemon { natdex_spec(d.name@, map) } else { None })
    &&& opt_str(r.element) == opt_str(d.element)
    &&& opt_str(r.stage) == opt_str(d.stage)
    &&& r.hp == d.hp
    &&& r.retreat_cost == d.retreat_cost
    &&& opt_str(r.weakness) == opt_str(d.weakness)
    &&& opt_str(r.flavor) == opt_str(d.flavor)
    &&& r.is_ex == (if pokemon { Some(d.is_ex) } else { None })
    &&& r.is_mega == (if pokemon { Some(d.is_mega) } else { None })
    &&& strs(r.variants@) == (if pokemon { variant_spec(d.name@, map) } else { Seq::empty() })
    &&& ability_model(r.ability) == (match d.ability {
        Some(a) => Some((a.name@, placeholders_spec(a.effect@, element_symbols()))),
        None => None,
    })
    &&& attacks_model(r.attacks@) == attacks_model(d.attacks@)
    &&& opt_str(r.evolves_from) == opt_str(d.evolves_from)
    &&& opt_str(r.trainer_kind) == opt_str(d.trainer_kind)
    &&& opt_str(r.trainer_effect) == placeholders_opt(d.trainer_effect)
    &&& refs_model(r.versions@) == refs_model(group.versions@)
}

/// The minimal abstract card of a group whose first version has no page
/// content: named "{SET}-{NUM:03}", typed after its first entry.
pub open spec fn minimal_card(r: AbstractCard, id: u32, group: AbstractGroup, entries: Seq<CardEntry>) -> bool {
    &&& r.id == id
    &&& r.name@ == group.canonical.0@ + "-"@ + padded_spec(group.canonical.1 as nat, 3)
    &&& r.card_type@ == (if group.entry_indices@.len() > 0 {
        entries[group.entry_indices@[0] as int].card_type@
    } else {
        "unknown"@
    })
    &&& r.natdex_number is None && r.element is None && r.stage is None && r.hp is None
    &&& r.retreat_cost is None && r.weakness is None && r.flavor is None && r.is_ex is None
    &&& r.is_mega is None && r.variants@.len() == 0 && r.ability is None && r.attacks@.len() == 0
    &&& r.evolves_from is None && r.trainer_kind is None && r.trainer_effect is None
    &&& refs_model(r.versions@) == refs_model(group.versions@)
}

#[verifier::rlimit(40)]
pub fn build_abstract_card(
    id: u32,
    group: &AbstractGroup,
    card_entries: &Vec<CardEntry>,
    card_data: Option<&LimitlessCardData>,
    pokemon_map: &Vec<(String, u32)>,
) -> (r: AbstractCard)
    requires
        group.entry_indices@.len() > 0 ==> group.entry_indices@[0] < card_entries@.len(),
    ensures
        match card_data {
            Some(d) => card_from_data(r, id, *group, *d, pokemon_map@),
            None => minimal_card(r, id, *group, card_entries@),
        },
{
    match card_data {
        Some(data) => {
            let is_pokemon = seq_eq(&chars_of(data.card_type.as_str()), &chars_of("pokemon"));
            let natdex_number = if is_pokemon {
                find_natdex_number(data.name.as_str(), pokemon_map)
            } else {
                None
            };
            let variants = if is_pokemon {
                extract_variants(data.name.as_str(), pokemon_map)
            } else {
                let v: Vec<String> = Vec::new();
                assert(strs(v@) =~= Seq::<Seq<char>>::empty());
                v
            };
            let ability = match &data.ability {
                Some(a) => Some(Ability { name: a.name.clone(), effect: normalize_element_placeholders(a.effect.as_str()) }),
                None => None,
            };
            let trainer_effect = match &data.trainer_effect {
                Some(t) => Some(normalize_element_placeholders(t.as_str())),
                None => None,
            };
            AbstractCard {
                id,
                name: data.name.clone(),
                card_type: data.card_type.clone(),
                natdex_number,
                element: clone_opt(&data.element),
                stage: clone_opt(&data.stage),
                hp: data.hp,
                retreat_cost: data.retreat_cost,
                weakness: clone_opt(&data.weakness),
                flavor: clone_opt(&data.flavor),
                is_ex: if is_pokemon { Some(data.is_ex) } else { None },
                is_mega: if is_pokemon { Some(data.is_mega) } else { None },
                variants,
                ability,
                attacks: clone_attacks(&data.attacks),
                evolves_from: clone_opt(&data.evolves_from),
                trainer_kind: clone_opt(&data.trainer_kind),
                trainer_effect,
                versions: clone_refs(&group.versions),
            }
        },
        None => {
            let mut name = chars_of(group.canonical.0.as_str());
            name = concat(&name, &chars_of("-"));
            name = concat(&name, &padded(group.canonical.1 as u64, 3));
            let card_type = if group.entry_indices.len() > 0 {
                card_entries[group.entry_indices[0]].card_type.clone()
            } else {
                owned("unknown")
            };
            AbstractCard {
                id,
                name: string_of(&name),
                card_type,
                natdex_number: None,
                element: None,
                stage: None,
                hp: None,
                retreat_cost: None,
                weakness: None,
                flavor: None,
                is_ex: None,
                is_mega: None,
                variants: Vec::new(),
                ability: None,
                attacks: Vec::new(),
                evolves_from: None,
                trainer_kind: None,
                trainer_effect: None,
                versions: clone_refs(&group.versions),
            }
        },
    }
}


// ───────────────────────── pull-rate card keys ─────────────────────────

/// The number of the version in `set`, else of the first version.
pub open spec fn number_in_set(vs: Seq<(String, u32)>, set: Seq<char>) -> Option<u32>
    decreases vs.len(),
{
    if vs.len() == 0 {
        None
    } else if vs[0].0@ == set {
        Some(vs[0].1)
    } else {
        number_in_set(vs.drop_first(), set)
    }
}

pub open spec fn chosen_number(vs: Seq<(String, u32)>, set: Seq<char>) -> Option<u32> {
    match number_in_set(vs, set) {
        Some(n) => Some(n),
        None => if vs.len() > 0 {
            Some(vs[0].1)
        } else {
            None
        },
    }
}

/// Card rates keyed by the three-digit number of the card's version in the
/// pack's set (cards without a known version are dropped).
pub open spec fn remapped(cards: Seq<(String, Vec<Option<Rate>>)>, map: Seq<(String, Vec<(String, u32)>)>, set: Seq<char>) -> Seq<(Seq<char>, Seq<Option<Rate>>)>
    decreases cards.len(),
{
    if cards.len() == 0 {
        Seq::empty()
    } else {
        let r = remapped(cards.drop_last(), map, set);
        match first_value(map, cards.last().0@) {
            Some(vs) => match chosen_number(vs@, set) {
                Some(n) => r.push((padded_spec(n as nat, 3), cards.last().1@)),
                None => r,
            },
            None => r,
        }
    }
}

/// The map an entry list stands for, the later of two equal keys winning.
pub open spec fn pairs_map<X>(s: Seq<(Seq<char>, X)>) -> Map<Seq<char>, X>
    decreases s.len(),
{
    if s.len() == 0 {
        Map::empty()
    } else {
        pairs_map(s.drop_last()).insert(s.last().0, s.last().1)
    }
}

pub open spec fn slots_map(m: Map<Seq<char>, Vec<Option<Rate>>>) -> Map<Seq<char>, Seq<Option<Rate>>> {
    Map::new(|k: Seq<char>| m.dom().contains(k), |k: Seq<char>| m[k]@)
}

fn pick_number(vs: &Vec<(String, u32)>, set: &[char]) -> (r: Option<u32>)
    ensures
        r == chosen_number(vs@, set@),
{
    let mut i: usize = 0;
    assert(vs@.subrange(0, vs@.len() as int) =~= vs@);
    while i < vs.len()
        invariant
            i <= vs@.len(),
            number_in_set(vs@, set@) == number_in_set(vs@.subrange(i as int, vs@.len() as int), set@),
        decreases vs.len() - i,
    {
        let ghost rest = vs@.subrange(i as int, vs@.len() as int);
        assert(rest.drop_first() =~= vs@.subrange(i + 1, vs@.len() as int));
        assert(rest[0] == vs@[i as int]);
        if seq_eq(&chars_of(vs[i].0.as_str()), set) {
            return Some(vs[i].1);
        }
        i += 1;
    }
    assert(vs@.subrange(i as int, vs@.len() as int) =~= Seq::<(String, u32)>::empty());
    if vs.len() > 0 {
        Some(vs[0].1)
    } else {
        None
    }
}

fn remap_cards(
    cards: &Vec<(String, Vec<Option<Rate>>)>,
    map: &Vec<(String, Vec<(String, u32)>)>,
    set: &[char],
) -> (r: Vec<(String, Vec<Option<Rate>>)>)
    ensures
        keys_distinct(r@),
        slots_map(entries_map(r@)) == pairs_map(remapped(cards@, map@, set@)),
{
    let mut out: Vec<(String, Vec<Option<Rate>>)> = Vec::new();
    let mut i: usize = 0;
    assert(slots_map(entries_map(out@)) =~= pairs_map(remapped(cards@.subrange(0, 0), map@, set@)));
    while i < cards.len()
        invariant
            i <= cards@.len(),
            keys_distinct(out@),
            slots_map(entries_map(out@)) == pairs_map(remapped(cards@.subrange(0, i as int), map@, set@)),
        decreases cards.len() - i,
    {
        let ghost pre = cards@.subrange(0, i as int);
        assert(cards@.subrange(0, i + 1).drop_last() =~= pre);
        assert(cards@.subrange(0, i + 1).last() == cards@[i as int]);
        match get_value(map, &chars_of(cards[i].0.as_str())) {
            Some(vs) => match pick_number(vs, set) {
                Some(n) => {
                    assert(remapped(cards@.subrange(0, i + 1), map@, set@) == remapped(pre, map@, set@).push(
                        (padded_spec(n as nat, 3), cards@[i as int].1@),
                    ));
                    let key = string_of(&padded(n as u64, 3));
                    let slots = clone_slots(&cards[i].1);
                    let ghost old_map = entries_map(out@);
                    let ghost kv = key@;
                    let ghost sv = slots;
                    upsert(&mut out, key, slots);
                    assert(slots_map(old_map.insert(kv, sv)) =~= slots_map(old_map).insert(kv, sv@));
                    assert(sv@ == cards@[i as int].1@);
                    assert(kv == padded_spec(n as nat, 3));
                    assert(entries_map(out@) == old_map.insert(kv, sv));
                    assert(slots_map(entries_map(out@)) == pairs_map(remapped(pre, map@, set@)).insert(kv, sv@));
                    let ghost rm = remapped(pre, map@, set@);
                    let ghost pr = (padded_spec(n as nat, 3), cards@[i as int].1@);
                    assert(rm.push(pr).drop_last() =~= rm);
                    assert(pairs_map(rm.push(pr)) == pairs_map(rm).insert(pr.0, pr.1));
                },
                None => {
                    assert(remapped(cards@.subrange(0, i + 1), map@, set@) == remapped(pre, map@, set@));
                },
            },
            None => {
                assert(remapped(cards@.subrange(0, i + 1), map@, set@) == remapped(pre, map@, set@));
            },
        }
        i += 1;
    }
    assert(cards@.subrange(0, cards@.len() as int) =~= cards@);
    out
}

/// The rest of a variant is unchanged and its card rates are re-keyed.
pub open spec fn remapped_variant(
    new: (String, PackVariantRates),
    old: (String, PackVariantRates),
    map: Seq<(String, Vec<(String, u32)>)>,
    set: Seq<char>,
) -> bool {
    &&& new.0@ == old.0@
    &&& new.1.rate == old.1.rate
    &&& new.1.slot_count == old.1.slot_count
    &&& new.1.rarity_rates_by_slot == old.1.rarity_rates_by_slot
    &&& keys_distinct(new.1.card_rates@)
    &&& slots_map(entries_map(new.1.card_rates@)) == pairs_map(remapped(old.1.card_rates@, map, set))
}

/// Re-keys every variant's card rates from master-data card ids to the
/// three-digit card number of the card's version in the pack's set.
pub fn remap_pull_rate_card_ids(rates: &mut PackPullRates, card_id_to_versions: &Vec<(String, Vec<(String, u32)>)>)
    ensures
        final(rates).set == old(rates).set,
        final(rates).subtitle == old(rates).subtitle,
        final(rates).variants@.len() == old(rates).variants@.len(),
        forall|k: int| 0 <= k < final(rates).variants@.len() ==> #[trigger] remapped_variant(
            final(rates).variants@[k],
            old(rates).variants@[k],
            card_id_to_versions@,
            old(rates).set@,
        ),
{
    let set = chars_of(rates.set.as_str());
    let mut pending: Vec<(String, PackVariantRates)> = Vec::new();
    std::mem::swap(&mut pending, &mut rates.variants);
    let ghost orig = pending@;
    let mut done: Vec<(String, PackVariantRates)> = Vec::new();
    while pending.len() > 0
        invariant
            set@ == old(rates).set@,
            rates.set == old(rates).set,
            rates.subtitle == old(rates).subtitle,
            orig == old(rates).variants@,
            done@.len() + pending@.len() == orig.len(),
            pending@ == orig.subrange(done@.len() as int, orig.len() as int),
            forall|k: int| 0 <= k < done@.len() ==> #[trigger] remapped_variant(done@[k], orig[k], card_id_to_versions@, old(rates).set@),
        decreases pending@.len(),
    {
        let ghost d: int = done@.len() as int;
        let (name, v) = pending.remove(0);
        assert(orig[d as int] == (name, v));
        assert(pending@ =~= orig.subrange(d + 1 as int, orig.len() as int));
        let card_rates = remap_cards(&v.card_rates, card_id_to_versions, &set);
        let PackVariantRates { rate, slot_count, rarity_rates_by_slot, card_rates: _ } = v;
        done.push((name, PackVariantRates { rate, slot_count, rarity_rates_by_slot, card_rates }));
    }
    rates.variants = done;
}

} // verus!
