//! The decisions of the scraping commands: the lookup tables built from the
//! set index, the master data and the card groups, and which sets, packs and
//! cards to fetch.
use vstd::prelude::*;
use crate::text::{chars_of, seq_eq};
use crate::lists::{strs, entries_map, keys_distinct, upsert, first_value, get_value};
use crate::models::{SetSummary, CardEntry, BasePokemon};
use crate::catalog::{AbstractGroup, subtitles_of, pack_subtitles};
use crate::groups::{VKey, canonical_of, pairs_view};

verus! {

// ───────────────────────── the set index ─────────────────────────

/// Set code -> start of availability, for the sets that have one (a later
/// set with the same code wins).
pub open spec fn release_map(sets: Seq<SetSummary>) -> Map<Seq<char>, String>
    decreases sets.len(),
{
    if sets.len() == 0 {
        Map::empty()
    } else {
        let m = release_map(sets.drop_last());
        match sets.last().availability {
            Some(a) => m.insert(sets.last().code@, a.start),
            None => m,
        }
    }
}

/// The release date of each set, keyed by set code.
pub fn release_dates(sets: &Vec<SetSummary>) -> (r: Vec<(String, String)>)
    ensures
        keys_distinct(r@),
        entries_map(r@) == release_map(sets@),
{
    let mut out: Vec<(String, String)> = Vec::new();
    let mut i: usize = 0;
    assert(entries_map(out@) =~= release_map(sets@.subrange(0, 0)));
    while i < sets.len()
        invariant
            i <= sets@.len(),
            keys_distinct(out@),
            entries_map(out@) == release_map(sets@.subrange(0, i as int)),
        decreases sets.len() - i,
    {
        assert(sets@.subrange(0, i + 1).drop_last() =~= sets@.subrange(0, i as int));
        assert(sets@.subrange(0, i + 1).last() == sets@[i as int]);
        match &sets[i].availability {
            Some(a) => {
                upsert(&mut out, sets[i].code.clone(), a.start.clone());
            },
            None => {},
        }
        i += 1;
    }
    assert(sets@.subrange(0, sets@.len() as int) =~= sets@);
    out
}

/// Whether the last set with the code is a promo set (false when none has it).
pub open spec fn promo_flag(sets: Seq<SetSummary>, code: Seq<char>) -> bool
    decreases sets.len(),
{
    if sets.len() == 0 {
        false
    } else if sets.last().code@ == code {
        sets.last().is_promo
    } else {
        promo_flag(sets.drop_last(), code)
    }
}

/// Whether the set with this code is a promo set.
pub fn set_is_promo(sets: &Vec<SetSummary>, code: &str) -> (r: bool)
    ensures
        r == promo_flag(sets@, code@),
{
    let c = chars_of(code);
    let mut i = sets.len();
    assert(sets@.subrange(0, sets@.len() as int) =~= sets@);
    while i > 0
        invariant
            i <= sets@.len(),
            c@ == code@,
            promo_flag(sets@, code@) == promo_flag(sets@.subrange(0, i as int), code@),
        decreases i,
    {
        let ghost pre = sets@.subrange(0, i as int);
        assert(pre.drop_last() =~= sets@.subrange(0, i - 1));
        assert(pre.last() == sets@[i - 1]);
        if seq_eq(&chars_of(sets[i - 1].code.as_str()), &c) {
            return sets[i - 1].is_promo;
        }
        i -= 1;
    }
    false
}

/// The codes of the sets a command works on: all of them, or those with the
/// given code.
pub open spec fn chosen_sets(sets: Seq<SetSummary>, filter: Option<Seq<char>>) -> Seq<Seq<char>>
    decreases sets.len(),
{
    if sets.len() == 0 {
        Seq::empty()
    } else {
        let r = chosen_sets(sets.drop_last(), filter);
        match filter {
            Some(f) => if sets.last().code@ == f {
                r.push(sets.last().code@)
            } else {
                r
            },
            None => r.push(sets.last().code@),
        }
    }
}

pub open spec fn opt_view(o: Option<&str>) -> Option<Seq<char>> {
    match o {
        Some(s) => Some(s@),
        None => None,
    }
}

/// The codes of the sets to scrape, in index order.
pub fn sets_to_scrape(sets: &Vec<SetSummary>, filter: Option<&str>) -> (r: Vec<String>)
    ensures
        strs(r@) == chosen_sets(sets@, opt_view(filter)),
{
    let f = match filter {
        Some(s) => Some(chars_of(s)),
        None => None,
    };
    let mut out: Vec<String> = Vec::new();
    let mut i: usize = 0;
    assert(strs(out@) =~= chosen_sets(sets@.subrange(0, 0), opt_view(filter)));
    while i < sets.len()
        invariant
            i <= sets@.len(),
            match f {
                Some(v) => opt_view(filter) == Some(v@),
                None => opt_view(filter) is None,
            },
            strs(out@) == chosen_sets(sets@.subrange(0, i as int), opt_view(filter)),
        decreases sets.len() - i,
    {
        assert(sets@.subrange(0, i + 1).drop_last() =~= sets@.subrange(0, i as int));
        assert(sets@.subrange(0, i + 1).last() == sets@[i as int]);
        let keep = match &f {
            Some(v) => seq_eq(&chars_of(sets[i].code.as_str()), v),
            None => true,
        };
        if keep {
            let ghost before = out@;
            out.push(sets[i].code.clone());
            assert(strs(out@) =~= strs(before).push(sets@[i as int].code@));
        }
        i += 1;
    }
    assert(sets@.subrange(0, sets@.len() as int) =~= sets@);
    out
}

/// The pack subtitles a set lists: none for a promo set (its cards come from
/// elsewhere), else the named packs of its expansion, in expansion order.
pub open spec fn set_subtitles(set: SetSummary, expansion_packs: Seq<(String, Vec<String>)>, pack_names: Seq<(String, String)>) -> Seq<Seq<char>> {
    if set.is_promo {
        Seq::empty()
    } else {
        match first_value(expansion_packs, set.code@) {
            Some(ids) => subtitles_of(ids@, pack_names),
            None => Seq::empty(),
        }
    }
}

/// The subtitles of the packs of one set.
pub fn set_pack_subtitles(
    set: &SetSummary,
    expansion_packs: &Vec<(String, Vec<String>)>,
    pack_names: &Vec<(String, String)>,
) -> (r: Vec<String>)
    ensures
        strs(r@) == set_subtitles(*set, expansion_packs@, pack_names@),
{
    if set.is_promo {
        let r: Vec<String> = Vec::new();
        assert(strs(r@) =~= Seq::<Seq<char>>::empty());
        return r;
    }
    match get_value(expansion_packs, &chars_of(set.code.as_str())) {
        Some(ids) => pack_subtitles(ids, pack_names),
        None => {
            let r: Vec<String> = Vec::new();
            assert(strs(r@) =~= Seq::<Seq<char>>::empty());
            r
        },
    }
}

// ───────────────────────── pull-rate packs ─────────────────────────

/// The packs whose pull rates are fetched: all regular packs, or the one
/// given.
pub open spec fn chosen_packs(packs: Seq<String>, filter: Option<Seq<char>>) -> Seq<Seq<char>>
    decreases packs.len(),
{
    if packs.len() == 0 {
        Seq::empty()
    } else {
        let r = chosen_packs(packs.drop_last(), filter);
        match filter {
            Some(f) => if packs.last()@ == f {
                r.push(packs.last()@)
            } else {
                r
            },
            None => r.push(packs.last()@),
        }
    }
}

/// The pack ids to fetch pull rates for, in the given order.
pub fn packs_to_fetch(regular_packs: &Vec<String>, filter: Option<&str>) -> (r: Vec<String>)
    ensures
        strs(r@) == chosen_packs(regular_packs@, opt_view(filter)),
{
    let f = match filter {
        Some(s) => Some(chars_of(s)),
        None => None,
    };
    let mut out: Vec<String> = Vec::new();
    let mut i: usize = 0;
    assert(strs(out@) =~= chosen_packs(regular_packs@.subrange(0, 0), opt_view(filter)));
    while i < regular_packs.len()
        invariant
            i <= regular_packs@.len(),
            match f {
                Some(v) => opt_view(filter) == Some(v@),
                None => opt_view(filter) is None,
            },
            strs(out@) == chosen_packs(regular_packs@.subrange(0, i as int), opt_view(filter)),
        decreases regular_packs.len() - i,
    {
        assert(regular_packs@.subrange(0, i + 1).drop_last() =~= regular_packs@.subrange(0, i as int));
        assert(regular_packs@.subrange(0, i + 1).last() == regular_packs@[i as int]);
        let keep = match &f {
            Some(v) => seq_eq(&chars_of(regular_packs[i].as_str()), v),
            None => true,
        };
        if keep {
            let ghost before = out@;
            out.push(regular_packs[i].clone());
            assert(strs(out@) =~= strs(before).push(regular_packs@[i as int]@));
        }
        i += 1;
    }
    assert(regular_packs@.subrange(0, regular_packs@.len() as int) =~= regular_packs@);
    out
}

/// Where a pack's pull rates are filed: the set of its expansion ("unknown"
/// when it has none) and its subtitle (the pack id when it has none).
pub open spec fn pull_rate_target_spec(pack_id: Seq<char>, pack_expansion: Seq<(String, String)>, subtitles: Seq<(String, String)>) -> (Seq<char>, Seq<char>) {
    (
        match first_value(pack_expansion, pack_id) {
            Some(s) => s@,
            None => "unknown"@,
        },
        match first_value(subtitles, pack_id) {
            Some(s) => s@,
            None => pack_id,
        },
    )
}

/// The (set code, subtitle) a pack's pull rates are filed under.
pub fn pull_rate_target(pack_id: &str, pack_expansion: &Vec<(String, String)>, subtitles: &Vec<(String, String)>) -> (r: (String, String))
    ensures
        (r.0@, r.1@) == pull_rate_target_spec(pack_id@, pack_expansion@, subtitles@),
{
    let id = chars_of(pack_id);
    let set = match get_value(pack_expansion, &id) {
        Some(s) => s.clone(),
        None => String::from_str("unknown"),
    };
    let subtitle = match get_value(subtitles, &id) {
        Some(s) => s.clone(),
        None => String::from_str(pack_id),
    };
    proof {
        reveal_strlit("unknown");
    }
    (set, subtitle)
}

/// Card id -> the versions of its entry (a later entry with the same id wins).
pub open spec fn versions_by_id(entries: Seq<CardEntry>) -> Map<Seq<char>, Seq<(String, u32)>>
    decreases entries.len(),
{
    if entries.len() == 0 {
        Map::empty()
    } else {
        versions_by_id(entries.drop_last()).insert(entries.last().card_id@, entries.last().collection_nums@)
    }
}

/// A map of lists, by view.
pub open spec fn nums_map(m: Map<Seq<char>, Vec<(String, u32)>>) -> Map<Seq<char>, Seq<(String, u32)>> {
    Map::new(|k: Seq<char>| m.dom().contains(k), |k: Seq<char>| m[k]@)
}

fn clone_nums(v: &Vec<(String, u32)>) -> (r: Vec<(String, u32)>)
    ensures
        r@ == v@,
{
    let mut out: Vec<(String, u32)> = Vec::new();
    let mut i: usize = 0;
    while i < v.len()
        invariant
            i <= v@.len(),
            out@ == v@.subrange(0, i as int),
        decreases v.len() - i,
    {
        out.push((v[i].0.clone(), v[i].1));
        assert(out@ =~= v@.subrange(0, i + 1));
        i += 1;
    }
    assert(v@.subrange(0, v@.len() as int) =~= v@);
    out
}

/// The versions of each master-data card, keyed by card id.
pub fn card_versions_by_id(entries: &Vec<CardEntry>) -> (r: Vec<(String, Vec<(String, u32)>)>)
    ensures
        keys_distinct(r@),
        nums_map(entries_map(r@)) == versions_by_id(entries@),
{
    let mut out: Vec<(String, Vec<(String, u32)>)> = Vec::new();
    let mut i: usize = 0;
    assert(nums_map(entries_map(out@)) =~= versions_by_id(entries@.subrange(0, 0)));
    while i < entries.len()
        invariant
            i <= entries@.len(),
            keys_distinct(out@),
            nums_map(entries_map(out@)) == versions_by_id(entries@.subrange(0, i as int)),
        decreases entries.len() - i,
    {
        assert(entries@.subrange(0, i + 1).drop_last() =~= entries@.subrange(0, i as int));
        assert(entries@.subrange(0, i + 1).last() == entries@[i as int]);
        let nums = clone_nums(&entries[i].collection_nums);
        let ghost before = entries_map(out@);
        let ghost k = entries@[i as int].card_id@;
        upsert(&mut out, entries[i].card_id.clone(), nums);
        assert(nums_map(entries_map(out@)) =~= nums_map(before).insert(k, entries@[i as int].collection_nums@));
        i += 1;
    }
    assert(entries@.subrange(0, entries@.len() as int) =~= entries@);
    out
}

// ───────────────────────── card versions ─────────────────────────

/// Where a version belongs: its abstract card's id and its master-data entry.
pub open spec fn target_view(t: ((String, u32), (u32, usize))) -> (VKey, (u32, usize)) {
    ((t.0.0@, t.0.1 as nat), t.1)
}

pub open spec fn nums_targets(nums: Seq<(String, u32)>, id: u32, idx: usize) -> Seq<(VKey, (u32, usize))>
    decreases nums.len(),
{
    if nums.len() == 0 {
        Seq::empty()
    } else {
        nums_targets(nums.drop_last(), id, idx).push(((nums.last().0@, nums.last().1 as nat), (id, idx)))
    }
}

pub open spec fn group_targets(entries: Seq<CardEntry>, idxs: Seq<usize>, id: u32) -> Seq<(VKey, (u32, usize))>
    decreases idxs.len(),
{
    if idxs.len() == 0 {
        Seq::empty()
    } else {
        group_targets(entries, idxs.drop_last(), id) + nums_targets(entries[idxs.last() as int].collection_nums@, id, idxs.last())
    }
}

/// Every version of every group with its target, group by group, entry by
/// entry.
pub open spec fn all_targets(entries: Seq<CardEntry>, gs: Seq<AbstractGroup>) -> Seq<(VKey, (u32, usize))>
    decreases gs.len(),
{
    if gs.len() == 0 {
        Seq::empty()
    } else {
        all_targets(entries, gs.drop_last()) + group_targets(entries, gs.last().entry_indices@, gs.last().abstract_id)
    }
}

pub open spec fn indices_in_range(gs: Seq<AbstractGroup>, n: int) -> bool {
    forall|k: int, j: int| 0 <= k < gs.len() && 0 <= j < gs[k].entry_indices@.len() ==> (#[trigger] gs[k].entry_indices@[j]) < n
}

fn push_entry_targets(out: &mut Vec<((String, u32), (u32, usize))>, nums: &Vec<(String, u32)>, id: u32, idx: usize)
    ensures
        final(out)@.map_values(|t| target_view(t)) == old(out)@.map_values(|t| target_view(t)) + nums_targets(nums@, id, idx),
{
    let ghost base = out@.map_values(|t| target_view(t));
    let mut i: usize = 0;
    assert(out@.map_values(|t| target_view(t)) =~= base + nums_targets(nums@.subrange(0, 0), id, idx));
    while i < nums.len()
        invariant
            i <= nums@.len(),
            out@.map_values(|t| target_view(t)) == base + nums_targets(nums@.subrange(0, i as int), id, idx),
        decreases nums.len() - i,
    {
        assert(nums@.subrange(0, i + 1).drop_last() =~= nums@.subrange(0, i as int));
        let ghost before = out@;
        out.push(((nums[i].0.clone(), nums[i].1), (id, idx)));
        assert(out@.map_values(|t| target_view(t)) =~= before.map_values(|t| target_view(t)).push(target_view(out@.last())));
        i += 1;
    }
    assert(nums@.subrange(0, nums@.len() as int) =~= nums@);
}

/// Every version of every group, with the group's abstract id and the
/// index of the entry it comes from.
pub fn version_index(groups: &Vec<AbstractGroup>, entries: &Vec<CardEntry>) -> (r: Vec<((String, u32), (u32, usize))>)
    requires
        indices_in_range(groups@, entries@.len() as int),
    ensures
        r@.map_values(|t| target_view(t)) == all_targets(entries@, groups@),
{
    let mut out: Vec<((String, u32), (u32, usize))> = Vec::new();
    let mut k: usize = 0;
    assert(out@.map_values(|t| target_view(t)) =~= all_targets(entries@, groups@.subrange(0, 0)));
    while k < groups.len()
        invariant
            k <= groups@.len(),
            indices_in_range(groups@, entries@.len() as int),
            out@.map_values(|t| target_view(t)) == all_targets(entries@, groups@.subrange(0, k as int)),
        decreases groups.len() - k,
    {
        assert(groups@.subrange(0, k + 1).drop_last() =~= groups@.subrange(0, k as int));
        let g = &groups[k];
        let ghost base = out@.map_values(|t| target_view(t));
        let mut j: usize = 0;
        assert(base =~= base + group_targets(entries@, g.entry_indices@.subrange(0, 0), g.abstract_id));
        while j < g.entry_indices.len()
            invariant
                j <= g.entry_indices@.len(),
                g == groups@[k as int],
                k < groups@.len(),
                indices_in_range(groups@, entries@.len() as int),
                out@.map_values(|t| target_view(t)) == base + group_targets(entries@, g.entry_indices@.subrange(0, j as int), g.abstract_id),
            decreases g.entry_indices.len() - j,
        {
            assert(g.entry_indices@.subrange(0, j + 1).drop_last() =~= g.entry_indices@.subrange(0, j as int));
            let idx = g.entry_indices[j];
            assert(idx < entries@.len()) by {
                assert(groups@[k as int].entry_indices@[j as int] == idx);
            }
            push_entry_targets(&mut out, &entries[idx].collection_nums, g.abstract_id, idx);
            j += 1;
        }
        assert(g.entry_indices@.subrange(0, g.entry_indices@.len() as int) =~= g.entry_indices@);
        k += 1;
    }
    assert(groups@.subrange(0, groups@.len() as int) =~= groups@);
    out
}

/// The target of the last entry for the version (what a map filled in this
/// order keeps).
pub open spec fn last_target(ts: Seq<(VKey, (u32, usize))>, k: VKey) -> Option<(u32, usize)>
    decreases ts.len(),
{
    if ts.len() == 0 {
        None
    } else if ts.last().0 == k {
        Some(ts.last().1)
    } else {
        last_target(ts.drop_last(), k)
    }
}

/// The abstract id and entry index a version belongs to.
pub fn version_target(index: &Vec<((String, u32), (u32, usize))>, set: &str, number: u32) -> (r: Option<(u32, usize)>)
    ensures
        r == last_target(index@.map_values(|t| target_view(t)), (set@, number as nat)),
{
    let c = chars_of(set);
    let ghost ts = index@.map_values(|t| target_view(t));
    let mut i = index.len();
    assert(ts.subrange(0, ts.len() as int) =~= ts);
    while i > 0
        invariant
            i <= index@.len(),
            ts == index@.map_values(|t| target_view(t)),
            c@ == set@,
            last_target(ts, (set@, number as nat)) == last_target(ts.subrange(0, i as int), (set@, number as nat)),
        decreases i,
    {
        let ghost pre = ts.subrange(0, i as int);
        assert(pre.drop_last() =~= ts.subrange(0, i - 1));
        assert(pre.last() == target_view(index@[i - 1]));
        if seq_eq(&chars_of(index[i - 1].0.0.as_str()), &c) && index[i - 1].0.1 == number {
            return Some(index[i - 1].1);
        }
        i -= 1;
    }
    None
}

/// The canonical versions whose abstract cards are to be (re)built: on a run
/// over every set, those of the groups without a cached abstract card (all
/// of them when forced); none on a run over one set.
pub open spec fn needed_canonicals(gs: Seq<AbstractGroup>, cached: Seq<bool>, force: bool) -> Seq<VKey>
    decreases gs.len(),
{
    if gs.len() == 0 {
        Seq::empty()
    } else {
        let r = needed_canonicals(gs.drop_last(), cached.drop_last(), force);
        if force || !cached.last() {
            r.push(canonical_of(gs.last()))
        } else {
            r
        }
    }
}

/// The canonical versions the Limitless data is needed for. `abstract_cached`
/// says, group by group, whether its abstract card is already on disk.
pub fn canonicals_needing_data(groups: &Vec<AbstractGroup>, abstract_cached: &Vec<bool>, whole_catalog: bool, force: bool) -> (r: Vec<(String, u32)>)
    requires
        abstract_cached@.len() == groups@.len(),
    ensures
        pairs_view(r@) == (if whole_catalog {
            needed_canonicals(groups@, abstract_cached@, force)
        } else {
            Seq::empty()
        }),
{
    let mut out: Vec<(String, u32)> = Vec::new();
    if !whole_catalog {
        assert(pairs_view(out@) =~= Seq::<VKey>::empty());
        return out;
    }
    let mut k: usize = 0;
    assert(pairs_view(out@) =~= needed_canonicals(groups@.subrange(0, 0), abstract_cached@.subrange(0, 0), force));
    while k < groups.len()
        invariant
            k <= groups@.len(),
            abstract_cached@.len() == groups@.len(),
            pairs_view(out@) == needed_canonicals(groups@.subrange(0, k as int), abstract_cached@.subrange(0, k as int), force),
        decreases groups.len() - k,
    {
        assert(groups@.subrange(0, k + 1).drop_last() =~= groups@.subrange(0, k as int));
        assert(abstract_cached@.subrange(0, k + 1).drop_last() =~= abstract_cached@.subrange(0, k as int));
        if force || !abstract_cached[k] {
            let ghost before = out@;
            out.push((groups[k].canonical.0.clone(), groups[k].canonical.1));
            assert(pairs_view(out@) =~= pairs_view(before).push(canonical_of(groups@[k as int])));
        }
        k += 1;
    }
    assert(groups@.subrange(0, groups@.len() as int) =~= groups@);
    assert(abstract_cached@.subrange(0, abstract_cached@.len() as int) =~= abstract_cached@);
    out
}

/// The card numbers of a set to fetch: those without a cached version (all of
/// them when forced) and those whose page an abstract card needs.
pub open spec fn fetch_list(set: Seq<char>, numbers: Seq<u32>, cached: Seq<bool>, force: bool, canon: Seq<VKey>) -> Seq<u32>
    decreases numbers.len(),
{
    if numbers.len() == 0 {
        Seq::empty()
    } else {
        let r = fetch_list(set, numbers.drop_last(), cached.drop_last(), force, canon);
        if force || !cached.last() || canon.contains((set, numbers.last() as nat)) {
            r.push(numbers.last())
        } else {
            r
        }
    }
}

fn contains_version(vs: &Vec<(String, u32)>, set: &[char], number: u32) -> (r: bool)
    ensures
        r == pairs_view(vs@).contains((set@, number as nat)),
{
    let mut i: usize = 0;
    while i < vs.len()
        invariant
            i <= vs@.len(),
            forall|j: int| 0 <= j < i ==> pairs_view(vs@)[j] != (set@, number as nat),
        decreases vs.len() - i,
    {
        if seq_eq(&chars_of(vs[i].0.as_str()), set) && vs[i].1 == number {
            assert(pairs_view(vs@)[i as int] == (set@, number as nat));
            return true;
        }
        i += 1;
    }
    false
}

/// The card numbers of one set to fetch. `version_cached` says, number by
/// number, whether that card version is already on disk.
pub fn cards_to_fetch(set: &str, numbers: &Vec<u32>, version_cached: &Vec<bool>, force: bool, canonicals: &Vec<(String, u32)>) -> (r: Vec<u32>)
    requires
        version_cached@.len() == numbers@.len(),
    ensures
        r@ == fetch_list(set@, numbers@, version_cached@, force, pairs_view(canonicals@)),
{
    let c = chars_of(set);
    let mut out: Vec<u32> = Vec::new();
    let mut i: usize = 0;
    assert(out@ =~= fetch_list(set@, numbers@.subrange(0, 0), version_cached@.subrange(0, 0), force, pairs_view(canonicals@)));
    while i < numbers.len()
        invariant
            i <= numbers@.len(),
            c@ == set@,
            version_cached@.len() == numbers@.len(),
            out@ == fetch_list(set@, numbers@.subrange(0, i as int), version_cached@.subrange(0, i as int), force, pairs_view(canonicals@)),
        decreases numbers.len() - i,
    {
        assert(numbers@.subrange(0, i + 1).drop_last() =~= numbers@.subrange(0, i as int));
        assert(version_cached@.subrange(0, i + 1).drop_last() =~= version_cached@.subrange(0, i as int));
        if force || !version_cached[i] || contains_version(canonicals, &c, numbers[i]) {
            out.push(numbers[i]);
        }
        i += 1;
    }
    assert(numbers@.subrange(0, numbers@.len() as int) =~= numbers@);
    assert(version_cached@.subrange(0, version_cached@.len() as int) =~= version_cached@);
    out
}

// ───────────────────────── base Pokémon by name ─────────────────────────

/// A name with curly apostrophes (U+2019) made straight, as card pages
/// write them ("Farfetch’d" -> "Farfetch'd").
pub open spec fn straight_apostrophes(s: Seq<char>) -> Seq<char> {
    s.map_values(|c: char| if c == '\u{2019}' { '\'' } else { c })
}

/// Name -> national dex number (a later Pokémon with the same name wins).
pub open spec fn natdex_map(ps: Seq<BasePokemon>) -> Map<Seq<char>, u32>
    decreases ps.len(),
{
    if ps.len() == 0 {
        Map::empty()
    } else {
        natdex_map(ps.drop_last()).insert(straight_apostrophes(ps.last().name@), ps.last().natdex_number)
    }
}

fn straighten(s: &String) -> (r: String)
    ensures
        r@ == straight_apostrophes(s@),
{
    let c = chars_of(s.as_str());
    let mut out: Vec<char> = Vec::new();
    let mut i: usize = 0;
    while i < c.len()
        invariant
            i <= c@.len(),
            c@ == s@,
            out@ == straight_apostrophes(c@.subrange(0, i as int)),
        decreases c.len() - i,
    {
        out.push(if c[i] == '\u{2019}' { '\'' } else { c[i] });
        assert(out@ =~= straight_apostrophes(c@.subrange(0, i + 1)));
        i += 1;
    }
    assert(c@.subrange(0, c@.len() as int) =~= c@);
    crate::text::string_of(&out)
}

/// The national dex number of each base Pokémon, keyed by its name with
/// straight apostrophes.
pub fn natdex_by_name(pokemon: &Vec<BasePokemon>) -> (r: Vec<(String, u32)>)
    ensures
        keys_distinct(r@),
        entries_map(r@) == natdex_map(pokemon@),
{
    let mut out: Vec<(String, u32)> = Vec::new();
    let mut i: usize = 0;
    assert(entries_map(out@) =~= natdex_map(pokemon@.subrange(0, 0)));
    while i < pokemon.len()
        invariant
            i <= pokemon@.len(),
            keys_distinct(out@),
            entries_map(out@) == natdex_map(pokemon@.subrange(0, i as int)),
        decreases pokemon.len() - i,
    {
        assert(pokemon@.subrange(0, i + 1).drop_last() =~= pokemon@.subrange(0, i as int));
        assert(pokemon@.subrange(0, i + 1).last() == pokemon@[i as int]);
        upsert(&mut out, straighten(&pokemon[i].name), pokemon[i].natdex_number);
        i += 1;
    }
    assert(pokemon@.subrange(0, pokemon@.len() as int) =~= pokemon@);
    out
}

} // verus!
