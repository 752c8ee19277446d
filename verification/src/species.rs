//! Reading PokeAPI's species data: the size of the species list, the
//! species ids and record URLs it lists, a species' English name, and the
//! base Pokémon in national dex order.
use vstd::prelude::*;
use crate::text::{chars_of, string_of, concat, decimal, decimal_spec, parse_u32, parse_unsigned_spec};
use crate::json::{JsonValue, jget, jstr, jarray, ju64, oget, ostr, oarray};
use crate::models::BasePokemon;

verus! {

/// The URL of the species list holding `limit` entries.
pub open spec fn species_list_url_spec(limit: nat) -> Seq<char> {
    "https://pokeapi.co/api/v2/pokemon-species?limit="@ + decimal_spec(limit)
}

pub fn species_list_url(limit: u64) -> (r: String)
    ensures
        r@ == species_list_url_spec(limit as nat),
{
    string_of(&concat(&chars_of("https://pokeapi.co/api/v2/pokemon-species?limit="), &decimal(limit)))
}

/// The number of species a species list reports (its `count`).
pub fn species_count(probe: &JsonValue) -> (r: Option<u64>)
    ensures
        match r {
            Some(n) => ju64_opt(jget(*probe, "count"@)) == Some(n as nat),
            None => ju64_opt(jget(*probe, "count"@)) is None,
        },
{
    match probe.get("count") {
        Some(c) => c.as_u64(),
        None => None,
    }
}

pub open spec fn ju64_opt(v: Option<JsonValue>) -> Option<nat> {
    match v {
        Some(x) => ju64(x),
        None => None,
    }
}

/// The URL without its trailing slashes.
pub open spec fn trim_end_slashes(s: Seq<char>) -> Seq<char>
    decreases s.len(),
{
    if s.len() > 0 && s.last() == '/' {
        trim_end_slashes(s.drop_last())
    } else {
        s
    }
}

/// What follows the last `/` (all of it when there is none).
pub open spec fn last_segment(s: Seq<char>) -> Seq<char>
    decreases s.len(),
{
    if s.len() == 0 {
        s
    } else if s.last() == '/' {
        Seq::empty()
    } else {
        last_segment(s.drop_last()).push(s.last())
    }
}

/// The species id at the end of a species URL.
pub open spec fn species_id_spec(url: Seq<char>) -> Option<nat> {
    parse_unsigned_spec(last_segment(trim_end_slashes(url)), u32::MAX as nat)
}

/// The species id a species URL ends with (`.../pokemon-species/25/` -> 25).
pub fn species_id_from_url(url: &str) -> (r: Option<u32>)
    ensures
        match r {
            Some(id) => species_id_spec(url@) == Some(id as nat),
            None => species_id_spec(url@) is None,
        },
{
    let c = chars_of(url);
    let mut end = c.len();
    assert(c@.subrange(0, end as int) =~= c@);
    while end > 0 && c[end - 1] == '/'
        invariant
            end <= c@.len(),
            c@ == url@,
            trim_end_slashes(c@.subrange(0, end as int)) == trim_end_slashes(url@),
        decreases end,
    {
        assert(c@.subrange(0, end as int).drop_last() =~= c@.subrange(0, end - 1));
        end -= 1;
    }
    let ghost t = c@.subrange(0, end as int);
    assert(trim_end_slashes(t) == t);
    let mut start = end;
    assert(t.subrange(start as int, end as int) =~= Seq::<char>::empty());
    while start > 0 && c[start - 1] != '/'
        invariant
            start <= end <= c@.len(),
            t == c@.subrange(0, end as int),
            last_segment(t) == last_segment(c@.subrange(0, start as int)) + c@.subrange(start as int, end as int),
        decreases start,
    {
        let ghost pre = c@.subrange(0, start as int);
        assert(pre.drop_last() =~= c@.subrange(0, start - 1));
        assert(pre.last() == c@[start - 1]);
        assert(last_segment(c@.subrange(0, start - 1)).push(c@[start - 1]) + c@.subrange(start as int, end as int)
            =~= last_segment(c@.subrange(0, start - 1)) + c@.subrange(start - 1, end as int));
        start -= 1;
    }
    proof {
        let pre = c@.subrange(0, start as int);
        if start > 0 {
            assert(pre.last() == c@[start - 1]);
            assert(last_segment(pre) == Seq::<char>::empty());
        } else {
            assert(pre.len() == 0);
        }
        assert(last_segment(t) =~= c@.subrange(start as int, end as int));
    }
    let seg = crate::text::slice_copy(&c, start, end);
    parse_u32(&seg)
}

/// The (species id, record URL) pairs of a species list: each entry with a
/// string `url` whose last segment is an id, in list order; `None` when the
/// list has no `results` array.
pub open spec fn species_pairs(rs: Seq<JsonValue>) -> Seq<(nat, Seq<char>)>
    decreases rs.len(),
{
    if rs.len() == 0 {
        Seq::empty()
    } else {
        let p = species_pairs(rs.drop_last());
        match jstr_opt(jget(rs.last(), "url"@)) {
            Some(u) => match species_id_spec(u) {
                Some(id) => p.push((id, u)),
                None => p,
            },
            None => p,
        }
    }
}

pub open spec fn jstr_opt(v: Option<JsonValue>) -> Option<Seq<char>> {
    match v {
        Some(x) => jstr(x),
        None => None,
    }
}

pub open spec fn pairs_model(v: Seq<(u32, String)>) -> Seq<(nat, Seq<char>)> {
    v.map_values(|p: (u32, String)| (p.0 as nat, p.1@))
}

pub fn species_entries(list: &JsonValue) -> (r: Option<Vec<(u32, String)>>)
    ensures
        match r {
            Some(v) => oarray(jget(*list, "results"@)) matches Some(rs) && pairs_model(v@) == species_pairs(rs),
            None => oarray(jget(*list, "results"@)) is None,
        },
{
    let rs = match list.get("results") {
        Some(x) => match x.as_array() {
            Some(a) => a,
            None => return None,
        },
        None => return None,
    };
    let mut out: Vec<(u32, String)> = Vec::new();
    let mut i: usize = 0;
    assert(pairs_model(out@) =~= species_pairs(rs@.subrange(0, 0)));
    while i < rs.len()
        invariant
            i <= rs@.len(),
            pairs_model(out@) == species_pairs(rs@.subrange(0, i as int)),
        decreases rs.len() - i,
    {
        assert(rs@.subrange(0, i + 1).drop_last() =~= rs@.subrange(0, i as int));
        assert(rs@.subrange(0, i + 1).last() == rs@[i as int]);
        match rs[i].get("url") {
            Some(u) => match u.as_str() {
                Some(url) => match species_id_from_url(url.as_str()) {
                    Some(id) => {
                        let ghost before = out@;
                        out.push((id, url.clone()));
                        assert(pairs_model(out@) =~= pairs_model(before).push((id as nat, url@)));
                    },
                    None => {},
                },
                None => {},
            },
            None => {},
        }
        i += 1;
    }
    assert(rs@.subrange(0, rs@.len() as int) =~= rs@);
    Some(out)
}

/// The first of a species' names whose language is English.
pub open spec fn first_english(ns: Seq<JsonValue>) -> Option<JsonValue>
    decreases ns.len(),
{
    if ns.len() == 0 {
        None
    } else if ostr(oget(jget(ns[0], "language"@), "name"@)) == Some("en"@) {
        Some(ns[0])
    } else {
        first_english(ns.drop_first())
    }
}

/// A species' English name: the `name` of the first of its `names` in
/// English, when that is a string.
pub open spec fn english_name_spec(species: JsonValue) -> Option<Seq<char>> {
    match oarray(jget(species, "names"@)) {
        Some(ns) => match first_english(ns) {
            Some(n) => jstr_opt(jget(n, "name"@)),
            None => None,
        },
        None => None,
    }
}

fn is_english(n: &JsonValue) -> (r: bool)
    ensures
        r == (ostr(oget(jget(*n, "language"@), "name"@)) == Some("en"@)),
{
    match n.get("language") {
        Some(l) => match l.get("name") {
            Some(x) => match x.as_str() {
                Some(s) => crate::text::seq_eq(&chars_of(s.as_str()), &chars_of("en")),
                None => false,
            },
            None => false,
        },
        None => false,
    }
}

fn name_of(n: &JsonValue) -> (r: Option<String>)
    ensures
        match r {
            Some(s) => jstr_opt(jget(*n, "name"@)) == Some(s@),
            None => jstr_opt(jget(*n, "name"@)) is None,
        },
{
    match n.get("name") {
        Some(x) => match x.as_str() {
            Some(s) => Some(s.clone()),
            None => None,
        },
        None => None,
    }
}

pub fn english_name(species: &JsonValue) -> (r: Option<String>)
    ensures
        match r {
            Some(s) => english_name_spec(*species) == Some(s@),
            None => english_name_spec(*species) is None,
        },
{
    let ns = match species.get("names") {
        Some(x) => match x.as_array() {
            Some(a) => a,
            None => return None,
        },
        None => return None,
    };
    let mut i: usize = 0;
    assert(ns@.subrange(0, ns@.len() as int) =~= ns@);
    while i < ns.len()
        invariant
            i <= ns@.len(),
            oarray(jget(*species, "names"@)) == Some(ns@),
            first_english(ns@) == first_english(ns@.subrange(i as int, ns@.len() as int)),
        decreases ns.len() - i,
    {
        let ghost rest = ns@.subrange(i as int, ns@.len() as int);
        assert(rest.drop_first() =~= ns@.subrange(i + 1, ns@.len() as int));
        assert(rest[0] == ns@[i as int]);
        if is_english(&ns[i]) {
            return name_of(&ns[i]);
        }
        i += 1;
    }
    assert(ns@.subrange(i as int, ns@.len() as int) =~= Seq::<JsonValue>::empty());
    None
}

// ───────────────────────── national dex order ─────────────────────────

pub open spec fn by_natdex(s: Seq<BasePokemon>) -> bool {
    forall|i: int, j: int| 0 <= i < j < s.len() ==> (#[trigger] s[i]).natdex_number <= (#[trigger] s[j]).natdex_number
}

fn insert_by_natdex(v: &mut Vec<BasePokemon>, x: BasePokemon)
    requires
        by_natdex(old(v)@),
    ensures
        by_natdex(final(v)@),
        final(v)@.to_multiset() == old(v)@.to_multiset().insert(x),
{
    let ghost s = v@;
    let mut p: usize = 0;
    while p < v.len() && v[p].natdex_number <= x.natdex_number
        invariant
            p <= v@.len(),
            v@ == s,
            forall|k: int| 0 <= k < p ==> (#[trigger] s[k]).natdex_number <= x.natdex_number,
        decreases v.len() - p,
    {
        p += 1;
    }
    let ghost xv = x;
    v.insert(p, x);
    proof {
        let nv = v@;
        assert(nv =~= s.insert(p as int, xv));
        vstd::seq_lib::to_multiset_insert(s, p as int, xv);
        assert forall|i: int, j: int| 0 <= i < j < nv.len() implies (#[trigger] nv[i]).natdex_number <= (#[trigger] nv[j]).natdex_number by {
            if j < p {
                assert(nv[i] == s[i] && nv[j] == s[j]);
            } else if j == p {
                assert(nv[i] == s[i]);
            } else if i == p {
                assert(nv[j] == s[j - 1]);
                assert(s[p as int].natdex_number > xv.natdex_number);
                assert(s[p as int].natdex_number <= s[j - 1].natdex_number || p as int == j - 1);
            } else if i < p {
                assert(nv[i] == s[i] && nv[j] == s[j - 1]);
            } else {
                assert(nv[i] == s[i - 1] && nv[j] == s[j - 1]);
            }
        }
    }
}

/// The base Pokémon ordered by national dex number (the same ones).
pub fn sort_by_natdex(pokemon: Vec<BasePokemon>) -> (r: Vec<BasePokemon>)
    ensures
        by_natdex(r@),
        r@.to_multiset() == pokemon@.to_multiset(),
{
    let mut rest = pokemon;
    let ghost all = rest@;
    let mut out: Vec<BasePokemon> = Vec::new();
    proof {
        broadcast use vstd::seq_lib::group_to_multiset_ensures;
        assert(out@ =~= Seq::<BasePokemon>::empty());
        assert(out@.to_multiset() =~= vstd::multiset::Multiset::empty());
        assert(out@.to_multiset().add(rest@.to_multiset()) =~= all.to_multiset());
    }
    while rest.len() > 0
        invariant
            by_natdex(out@),
            out@.to_multiset().add(rest@.to_multiset()) == all.to_multiset(),
        decreases rest@.len(),
    {
        let ghost r0 = rest@;
        let x = rest.pop().unwrap();
        proof {
            assert(r0 =~= rest@.push(x));
            vstd::seq_lib::to_multiset_build(rest@, x);
        }
        let ghost o0 = out@;
        insert_by_natdex(&mut out, x);
        proof {
            assert(out@.to_multiset().add(rest@.to_multiset()) =~= o0.to_multiset().add(r0.to_multiset()));
        }
    }
    proof {
        assert(rest@ =~= Seq::<BasePokemon>::empty());
        assert(rest@.to_multiset() =~= vstd::multiset::Multiset::empty());
        assert(out@.to_multiset().add(rest@.to_multiset()) =~= out@.to_multiset());
    }
    out
}

} // verus!
