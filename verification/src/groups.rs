//! Grouping card versions: versions ordered by the release date of their
//! set and their number, master-data entries grouped into abstract cards,
//! and identical prints grouped into originals and reprints.
use vstd::prelude::*;
use crate::text::{chars_of, string_of, seq_eq};
use crate::models::{CardEntry, VersionRef, CardVersion};
use crate::catalog::{AbstractGroup, refs_model, clone_refs};
use crate::lists::{lex_le, lex_lt, lex_le_exec, lemma_lex_total, lemma_lex_trans, lemma_lex_antisym, lemma_lex_refl, strs, first_value, get_value};

verus! {

broadcast use vstd::seq_lib::group_to_multiset_ensures, vstd::multiset::group_multiset_axioms;

// ───────────────────────── ordering versions ─────────────────────────

/// A version as (set code, number).
pub type VKey = (Seq<char>, nat);

/// The release date of a set, or "9999-99-99" (after every date) when unknown.
pub open spec fn date_of(dates: Seq<(String, String)>, set: Seq<char>) -> Seq<char> {
    match first_value(dates, set) {
        Some(d) => d@,
        None => "9999-99-99"@,
    }
}

/// `a` comes no later than `b`: by release date, then by number.
pub open spec fn vle(dates: Seq<(String, String)>, a: VKey, b: VKey) -> bool {
    lex_lt(date_of(dates, a.0), date_of(dates, b.0)) || (date_of(dates, a.0) == date_of(dates, b.0) && a.1 <= b.1)
}

pub proof fn lemma_vle_total(dates: Seq<(String, String)>, a: VKey, b: VKey)
    ensures
        vle(dates, a, b) || vle(dates, b, a),
{
    lemma_lex_total(date_of(dates, a.0), date_of(dates, b.0));
}

pub proof fn lemma_vle_trans(dates: Seq<(String, String)>, a: VKey, b: VKey, c: VKey)
    requires
        vle(dates, a, b),
        vle(dates, b, c),
    ensures
        vle(dates, a, c),
{
    let (da, db, dc) = (date_of(dates, a.0), date_of(dates, b.0), date_of(dates, c.0));
    if da == db && db == dc {
    } else if da == db {
    } else if db == dc {
    } else {
        lemma_lex_trans(da, db, dc);
        if da == dc {
            lemma_lex_antisym(da, db);
        }
    }
}

pub proof fn lemma_vle_refl(dates: Seq<(String, String)>, a: VKey)
    ensures
        vle(dates, a, a),
{
}

fn date_exec(dates: &Vec<(String, String)>, set: &[char]) -> (r: Vec<char>)
    ensures
        r@ == date_of(dates@, set@),
{
    match get_value(dates, set) {
        Some(d) => chars_of(d.as_str()),
        None => chars_of("9999-99-99"),
    }
}

pub fn vle_exec(dates: &Vec<(String, String)>, a: (&[char], u32), b: (&[char], u32)) -> (r: bool)
    ensures
        r == vle(dates@, (a.0@, a.1 as nat), (b.0@, b.1 as nat)),
{
    let da = date_exec(dates, a.0);
    let db = date_exec(dates, b.0);
    let eq = seq_eq(&da, &db);
    (lex_le_exec(&da, &db) && !eq) || (eq && a.1 <= b.1)
}

// ───────────────────────── stable sort and dedup ─────────────────────────

/// `x` inserted after the last element that comes no later than it.
pub open spec fn insert_after_le(dates: Seq<(String, String)>, s: Seq<VKey>, x: VKey) -> Seq<VKey>
    decreases s.len(),
{
    if s.len() == 0 {
        seq![x]
    } else if vle(dates, s.last(), x) {
        s.push(x)
    } else {
        insert_after_le(dates, s.drop_last(), x).push(s.last())
    }
}

/// The versions in release order, versions that tie keeping their order
/// (`sort_by`, which is stable).
pub open spec fn stable_sort(dates: Seq<(String, String)>, s: Seq<VKey>) -> Seq<VKey>
    decreases s.len(),
{
    if s.len() == 0 {
        Seq::empty()
    } else {
        insert_after_le(dates, stable_sort(dates, s.drop_last()), s.last())
    }
}

/// Each version once, where it first occurs.
pub open spec fn dedup(s: Seq<VKey>) -> Seq<VKey>
    decreases s.len(),
{
    if s.len() == 0 {
        s
    } else if dedup(s.drop_last()).contains(s.last()) {
        dedup(s.drop_last())
    } else {
        dedup(s.drop_last()).push(s.last())
    }
}

/// A list with repeats removed holds no version twice and every version of
/// the list, and keeps the first one in front.
pub proof fn lemma_dedup_distinct(s: Seq<VKey>)
    ensures
        dedup(s).no_duplicates(),
        forall|x: VKey| #[trigger] dedup(s).contains(x) <==> s.contains(x),
        s.len() > 0 ==> dedup(s).len() > 0 && dedup(s)[0] == s[0],
    decreases s.len(),
{
    if s.len() > 0 {
        let t = s.drop_last();
        let r = dedup(t);
        lemma_dedup_distinct(t);
        assert forall|x: VKey| #[trigger] dedup(s).contains(x) <==> s.contains(x) by {
            if s.contains(x) && x != s.last() {
                let k = choose|k: int| 0 <= k < s.len() && s[k] == x;
                assert(t[k] == x);
            }
            if t.contains(x) {
                let k = choose|k: int| 0 <= k < t.len() && t[k] == x;
                assert(s[k] == x);
            }
            if x == s.last() {
                assert(s[s.len() - 1] == x);
            }
            if !r.contains(s.last()) {
                let q = r.push(s.last());
                if q.contains(x) && x != s.last() {
                    let k = choose|k: int| 0 <= k < q.len() && q[k] == x;
                    assert(r[k] == x);
                }
                if r.contains(x) {
                    let k = choose|k: int| 0 <= k < r.len() && r[k] == x;
                    assert(q[k] == x);
                }
                assert(q[r.len() as int] == s.last());
            }
        }
        if t.len() == 0 {
            assert(r.len() == 0);
            assert(dedup(s) =~= seq![s[0]]);
        } else {
            assert(t[0] == s[0]);
        }
    }
}

pub open spec fn pairs_view(v: Seq<(String, u32)>) -> Seq<VKey> {
    v.map_values(|p: (String, u32)| (p.0@, p.1 as nat))
}

proof fn lemma_insert_at(dates: Seq<(String, String)>, s: Seq<VKey>, x: VKey, p: int)
    requires
        0 <= p <= s.len(),
        p == 0 || vle(dates, s[p - 1], x),
        forall|q: int| p <= q < s.len() ==> !vle(dates, #[trigger] s[q], x),
    ensures
        insert_after_le(dates, s, x) == s.subrange(0, p).push(x) + s.subrange(p, s.len() as int),
    decreases s.len(),
{
    if s.len() == 0 {
        assert(s.subrange(0, p).push(x) + s.subrange(p, s.len() as int) =~= seq![x]);
    } else if p == s.len() {
        assert(s.subrange(0, p) =~= s);
        assert(s.subrange(0, p).push(x) + s.subrange(p, s.len() as int) =~= s.push(x));
    } else {
        assert(!vle(dates, s.last(), x));
        let t = s.drop_last();
        lemma_insert_at(dates, t, x, p);
        assert(t.subrange(0, p) =~= s.subrange(0, p));
        assert((t.subrange(0, p).push(x) + t.subrange(p, t.len() as int)).push(s.last()) =~= s.subrange(0, p).push(x)
            + s.subrange(p, s.len() as int));
    }
}

fn clone_pair(p: &(String, u32)) -> (r: (String, u32))
    ensures
        r.0@ == p.0@ && r.1 == p.1,
{
    (p.0.clone(), p.1)
}

/// Inserts `x` after the last element that comes no later than it.
fn insert_stable(dates: &Vec<(String, String)>, v: &mut Vec<(String, u32)>, x: (String, u32))
    ensures
        pairs_view(final(v)@) == insert_after_le(dates@, pairs_view(old(v)@), (x.0@, x.1 as nat)),
{
    let ghost s = pairs_view(v@);
    let ghost xv = (x.0@, x.1 as nat);
    let xc = chars_of(x.0.as_str());
    let mut p = v.len();
    while p > 0
        invariant
            p <= v@.len(),
            v@ == old(v)@,
            s == pairs_view(v@),
            xc@ == x.0@,
            xv == (x.0@, x.1 as nat),
            forall|q: int| p <= q < s.len() ==> !vle(dates@, #[trigger] s[q], xv),
        ensures
            p == 0 || vle(dates@, s[p - 1], xv),
            p <= v@.len(),
            v@ == old(v)@,
            forall|q: int| p <= q < s.len() ==> !vle(dates@, #[trigger] s[q], xv),
        decreases p,
    {
        assert(s[p - 1] == (v@[p - 1].0@, v@[p - 1].1 as nat));
        let le = vle_exec(dates, (&chars_of(v[p - 1].0.as_str()), v[p - 1].1), (&xc, x.1));
        if le {
            break;
        }
        p -= 1;
    }
    proof {
        lemma_insert_at(dates@, s, xv, p as int);
    }
    v.insert(p, x);
    assert(pairs_view(v@) =~= s.subrange(0, p as int).push(xv) + s.subrange(p as int, s.len() as int));
}

/// The versions in release order, ties keeping their order.
pub fn sort_versions(dates: &Vec<(String, String)>, v: &Vec<(String, u32)>) -> (r: Vec<(String, u32)>)
    ensures
        pairs_view(r@) == stable_sort(dates@, pairs_view(v@)),
{
    let ghost s = pairs_view(v@);
    let mut out: Vec<(String, u32)> = Vec::new();
    let mut i: usize = 0;
    assert(pairs_view(out@) =~= stable_sort(dates@, s.subrange(0, 0)));
    while i < v.len()
        invariant
            i <= v@.len(),
            s == pairs_view(v@),
            pairs_view(out@) == stable_sort(dates@, s.subrange(0, i as int)),
        decreases v.len() - i,
    {
        assert(s.subrange(0, i + 1).drop_last() =~= s.subrange(0, i as int));
        assert(s[i as int] == (v@[i as int].0@, v@[i as int].1 as nat));
        insert_stable(dates, &mut out, clone_pair(&v[i]));
        i += 1;
    }
    assert(s.subrange(0, s.len() as int) =~= s);
    out
}

fn has_pair(v: &Vec<(String, u32)>, x: &(String, u32)) -> (r: bool)
    ensures
        r == pairs_view(v@).contains((x.0@, x.1 as nat)),
{
    let ghost s = pairs_view(v@);
    let xc = chars_of(x.0.as_str());
    let mut i: usize = 0;
    while i < v.len()
        invariant
            i <= v@.len(),
            s == pairs_view(v@),
            xc@ == x.0@,
            forall|k: int| 0 <= k < i ==> s[k] != (x.0@, x.1 as nat),
        decreases v.len() - i,
    {
        assert(s[i as int] == (v@[i as int].0@, v@[i as int].1 as nat));
        if seq_eq(&chars_of(v[i].0.as_str()), &xc) && v[i].1 == x.1 {
            return true;
        }
        i += 1;
    }
    false
}

/// Each version once, where it first occurs.
pub fn dedup_versions(v: &Vec<(String, u32)>) -> (r: Vec<(String, u32)>)
    ensures
        pairs_view(r@) == dedup(pairs_view(v@)),
{
    let ghost s = pairs_view(v@);
    let mut out: Vec<(String, u32)> = Vec::new();
    let mut i: usize = 0;
    assert(pairs_view(out@) =~= dedup(s.subrange(0, 0)));
    while i < v.len()
        invariant
            i <= v@.len(),
            s == pairs_view(v@),
            pairs_view(out@) == dedup(s.subrange(0, i as int)),
        decreases v.len() - i,
    {
        let ghost t = s.subrange(0, i + 1);
        assert(t.drop_last() =~= s.subrange(0, i as int));
        assert(t.last() == s[i as int]);
        assert(s[i as int] == (v@[i as int].0@, v@[i as int].1 as nat));
        if !has_pair(&out, &v[i]) {
            let ghost before = out@;
            out.push(clone_pair(&v[i]));
            assert(pairs_view(out@) =~= pairs_view(before).push(s[i as int]));
        }
        i += 1;
    }
    assert(s.subrange(0, s.len() as int) =~= s);
    out
}

// ───────────────────────── group keys ─────────────────────────

fn count_of(v: &Vec<String>, x: &[char]) -> (r: usize)
    ensures
        r == strs(v@).to_multiset().count(x@),
{
    let ghost s = strs(v@);
    let mut c: usize = 0;
    let mut i: usize = 0;
    while i < v.len()
        invariant
            i <= v@.len(),
            s == strs(v@),
            c == s.subrange(0, i as int).to_multiset().count(x@),
            c <= i,
        decreases v.len() - i,
    {
        assert(s.subrange(0, i + 1) =~= s.subrange(0, i as int).push(s[i as int]));
        assert(s[i as int] == v@[i as int]@);
        if seq_eq(&chars_of(v[i].as_str()), x) {
            c += 1;
        }
        i += 1;
    }
    assert(s.subrange(0, s.len() as int) =~= s);
    c
}

fn counts_agree(a: &Vec<String>, b: &Vec<String>) -> (r: bool)
    ensures
        r == (forall|k: int| 0 <= k < a@.len() ==> strs(a@).to_multiset().count(#[trigger] a@[k]@) == strs(b@).to_multiset().count(a@[k]@)),
{
    let mut i: usize = 0;
    while i < a.len()
        invariant
            i <= a@.len(),
            forall|k: int| 0 <= k < i ==> strs(a@).to_multiset().count(#[trigger] a@[k]@) == strs(b@).to_multiset().count(a@[k]@),
        decreases a.len() - i,
    {
        let x = chars_of(a[i].as_str());
        if count_of(a, &x) != count_of(b, &x) {
            return false;
        }
        i += 1;
    }
    true
}

/// Two lists hold the same strings as often (their sorted forms are equal).
pub fn same_strings(a: &Vec<String>, b: &Vec<String>) -> (r: bool)
    ensures
        r == (strs(a@).to_multiset() == strs(b@).to_multiset()),
{
    let ab = counts_agree(a, b);
    let ba = counts_agree(b, a);
    proof {
        let (ma, mb) = (strs(a@).to_multiset(), strs(b@).to_multiset());
        if ab && ba {
            assert forall|y: Seq<char>| ma.count(y) == mb.count(y) by {
                if strs(a@).contains(y) {
                    let k = choose|k: int| 0 <= k < strs(a@).len() && strs(a@)[k] == y;
                    assert(a@[k]@ == y);
                } else if strs(b@).contains(y) {
                    let k = choose|k: int| 0 <= k < strs(b@).len() && strs(b@)[k] == y;
                    assert(b@[k]@ == y);
                } else {
                    assert(ma.count(y) == 0);
                    assert(mb.count(y) == 0);
                }
            }
            assert(ma =~= mb);
        }
        if ma == mb {
            assert(ab);
            assert(ba);
        }
    }
    ab && ba
}


// ───────────────────────── abstract card groups ─────────────────────────

/// An entry's group key: the ids of the entries that share its abstract card,
/// in any order.
pub open spec fn ekey(entries: Seq<CardEntry>, i: int) -> vstd::multiset::Multiset<Seq<char>> {
    strs(entries[i].card_ids_group@).to_multiset()
}

/// The collection numbers of the group's entries, entry after entry.
pub open spec fn group_pairs(entries: Seq<CardEntry>, idx: Seq<usize>) -> Seq<VKey>
    decreases idx.len(),
{
    if idx.len() == 0 {
        Seq::empty()
    } else {
        group_pairs(entries, idx.drop_last()) + pairs_view(entries[idx.last() as int].collection_nums@)
    }
}

/// A group's versions: its collection numbers in release order, each once.
pub open spec fn group_versions_spec(entries: Seq<CardEntry>, dates: Seq<(String, String)>, idx: Seq<usize>) -> Seq<VKey> {
    dedup(stable_sort(dates, group_pairs(entries, idx)))
}

/// Some entry of the same group has a collection number.
pub open spec fn group_has_version(entries: Seq<CardEntry>, i: int) -> bool {
    exists|j: int| 0 <= j < entries.len() && ekey(entries, j) == ekey(entries, i) && #[trigger] entries[j].collection_nums@.len() > 0
}

pub open spec fn canonical_of(g: AbstractGroup) -> VKey {
    (g.canonical.0@, g.canonical.1 as nat)
}

/// A group as built: its entries are exactly those with its key, in order;
/// its versions as `group_versions_spec` says; its canonical version the first.
pub open spec fn group_ok(entries: Seq<CardEntry>, dates: Seq<(String, String)>, g: AbstractGroup) -> bool {
    let idx = g.entry_indices@;
    &&& idx.len() > 0
    &&& forall|t: int| 0 <= t < idx.len() ==> #[trigger] idx[t] < entries.len()
    &&& forall|t1: int, t2: int| 0 <= t1 < t2 < idx.len() ==> idx[t1] < idx[t2]
    &&& forall|j: int| 0 <= j < entries.len() ==> (#[trigger] ekey(entries, j) == ekey(entries, idx[0] as int) <==> idx.contains(j as usize))
    &&& refs_model(g.versions@) == group_versions_spec(entries, dates, idx)
    &&& g.versions@.len() > 0
    &&& canonical_of(g) == refs_model(g.versions@)[0]
}

proof fn lemma_insert_len(dates: Seq<(String, String)>, s: Seq<VKey>, x: VKey)
    ensures
        insert_after_le(dates, s, x).len() == s.len() + 1,
    decreases s.len(),
{
    if s.len() > 0 && !vle(dates, s.last(), x) {
        lemma_insert_len(dates, s.drop_last(), x);
    }
}

proof fn lemma_sort_len(dates: Seq<(String, String)>, s: Seq<VKey>)
    ensures
        stable_sort(dates, s).len() == s.len(),
    decreases s.len(),
{
    if s.len() > 0 {
        lemma_sort_len(dates, s.drop_last());
        lemma_insert_len(dates, stable_sort(dates, s.drop_last()), s.last());
    }
}

proof fn lemma_dedup_nonempty(s: Seq<VKey>)
    ensures
        s.len() > 0 ==> dedup(s).len() > 0,
{
    lemma_dedup_distinct(s);
}

proof fn lemma_group_pairs_nonempty(entries: Seq<CardEntry>, idx: Seq<usize>, t: int)
    requires
        0 <= t < idx.len(),
        idx[t] < entries.len(),
        entries[idx[t] as int].collection_nums@.len() > 0,
    ensures
        group_pairs(entries, idx).len() > 0,
    decreases idx.len(),
{
    if t < idx.len() - 1 {
        lemma_group_pairs_nonempty(entries, idx.drop_last(), t);
    }
}

fn class_pairs(entries: &Vec<CardEntry>, idx: &Vec<usize>) -> (r: Vec<(String, u32)>)
    requires
        forall|t: int| 0 <= t < idx@.len() ==> #[trigger] idx@[t] < entries@.len(),
    ensures
        pairs_view(r@) == group_pairs(entries@, idx@),
{
    let mut out: Vec<(String, u32)> = Vec::new();
    let mut t: usize = 0;
    assert(pairs_view(out@) =~= group_pairs(entries@, idx@.subrange(0, 0)));
    while t < idx.len()
        invariant
            t <= idx@.len(),
            forall|q: int| 0 <= q < idx@.len() ==> #[trigger] idx@[q] < entries@.len(),
            pairs_view(out@) == group_pairs(entries@, idx@.subrange(0, t as int)),
        decreases idx.len() - t,
    {
        assert(idx@.subrange(0, t + 1).drop_last() =~= idx@.subrange(0, t as int));
        let nums = &entries[idx[t]].collection_nums;
        let ghost base = pairs_view(out@);
        let mut q: usize = 0;
        while q < nums.len()
            invariant
                q <= nums@.len(),
                pairs_view(out@) == base + pairs_view(nums@.subrange(0, q as int)),
            decreases nums.len() - q,
        {
            let ghost before = pairs_view(out@);
            out.push(clone_pair(&nums[q]));
            assert(pairs_view(nums@.subrange(0, q + 1)) =~= pairs_view(nums@.subrange(0, q as int)).push(
                (nums@[q as int].0@, nums@[q as int].1 as nat),
            ));
            assert(pairs_view(out@) =~= before.push((nums@[q as int].0@, nums@[q as int].1 as nat)));
            q += 1;
        }
        assert(nums@.subrange(0, nums@.len() as int) =~= nums@);
        t += 1;
    }
    assert(idx@.subrange(0, idx@.len() as int) =~= idx@);
    out
}

fn copy_indices(v: &Vec<usize>) -> (r: Vec<usize>)
    ensures
        r@ == v@,
{
    let mut r: Vec<usize> = Vec::new();
    let mut i: usize = 0;
    while i < v.len()
        invariant
            i <= v@.len(),
            r@ == v@.subrange(0, i as int),
        decreases v.len() - i,
    {
        r.push(v[i]);
        i += 1;
    }
    assert(v@.subrange(0, v@.len() as int) =~= v@);
    r
}

/// Some class holds entry `j`.
pub open spec fn covered(cls: Seq<Vec<usize>>, j: int) -> bool {
    exists|k: int| 0 <= k < cls.len() && #[trigger] cls[k]@.contains(j as usize)
}

/// The classes of entries with equal keys, as built so far.
pub open spec fn classes_inv(entries: Seq<CardEntry>, cls: Seq<Vec<usize>>, i: int) -> bool {
    &&& forall|k: int| 0 <= k < cls.len() ==> (#[trigger] cls[k])@.len() > 0
    &&& forall|k: int, t: int| 0 <= k < cls.len() && 0 <= t < cls[k]@.len() ==> (#[trigger] cls[k]@[t]) < i
    &&& forall|k: int, t1: int, t2: int| 0 <= k < cls.len() && 0 <= t1 < t2 < cls[k]@.len() ==> #[trigger] cls[k]@[t1] < #[trigger] cls[k]@[t2]
    &&& forall|k: int, t: int| 0 <= k < cls.len() && 0 <= t < cls[k]@.len() ==> ekey(entries, #[trigger] cls[k]@[t] as int) == ekey(entries, cls[k]@[0] as int)
    &&& forall|k1: int, k2: int| 0 <= k1 < cls.len() && 0 <= k2 < cls.len() && k1 != k2 ==> ekey(entries, (#[trigger] cls[k1])@[0] as int) != ekey(entries, (#[trigger] cls[k2])@[0] as int)
    &&& forall|j: int| 0 <= j < i ==> #[trigger] covered(cls, j)
    &&& forall|k: int, j: int| #![trigger cls[k], ekey(entries, j)] 0 <= k < cls.len() && 0 <= j < i && ekey(entries, j) == ekey(entries, cls[k]@[0] as int) ==> cls[k]@.contains(j as usize)
}

fn find_class(entries: &Vec<CardEntry>, classes: &Vec<Vec<usize>>, i: usize) -> (r: Option<usize>)
    requires
        i < entries@.len(),
        forall|k: int| 0 <= k < classes@.len() ==> (#[trigger] classes@[k])@.len() > 0 && classes@[k]@[0] < entries@.len(),
    ensures
        match r {
            Some(k) => k < classes@.len() && ekey(entries@, classes@[k as int]@[0] as int) == ekey(entries@, i as int),
            None => forall|k: int| 0 <= k < classes@.len() ==> ekey(entries@, (#[trigger] classes@[k])@[0] as int) != ekey(entries@, i as int),
        },
{
    let mut k: usize = 0;
    while k < classes.len()
        invariant
            k <= classes@.len(),
            i < entries@.len(),
            forall|q: int| 0 <= q < classes@.len() ==> (#[trigger] classes@[q])@.len() > 0 && classes@[q]@[0] < entries@.len(),
            forall|q: int| 0 <= q < k ==> ekey(entries@, (#[trigger] classes@[q])@[0] as int) != ekey(entries@, i as int),
        decreases classes.len() - k,
    {
        if same_strings(&entries[classes[k][0]].card_ids_group, &entries[i].card_ids_group) {
            return Some(k);
        }
        k += 1;
    }
    None
}

/// The classes of entries with equal keys, each in entry order.
fn entry_classes(entries: &Vec<CardEntry>) -> (r: Vec<Vec<usize>>)
    ensures
        classes_inv(entries@, r@, entries@.len() as int),
{
    let mut classes: Vec<Vec<usize>> = Vec::new();
    let mut i: usize = 0;
    while i < entries.len()
        invariant
            i <= entries@.len(),
            classes_inv(entries@, classes@, i as int),
        decreases entries.len() - i,
    {
        proof {
            assert forall|k: int| 0 <= k < classes@.len() implies (#[trigger] classes@[k])@.len() > 0 && classes@[k]@[0] < entries@.len() by {
                assert(classes@[k]@[0] < i);
            }
        }
        let ghost old_cls = classes@;
        match find_class(entries, &classes, i) {
            Some(k) => {
                let mut c = copy_indices(&classes[k]);
                c.push(i);
                classes.set(k, c);
                proof {
                    let cls = classes@;
                    assert forall|q: int| 0 <= q < cls.len() && q != k implies cls[q] == old_cls[q] by {}
                    assert(cls[k as int]@ == old_cls[k as int]@.push(i));
                    assert forall|j: int| 0 <= j < i + 1 implies #[trigger] covered(cls, j) by {
                        if j == i {
                            assert(cls[k as int]@[old_cls[k as int]@.len() as int] == i);
                            assert(cls[k as int]@.contains(j as usize));
                        } else {
                            assert(covered(old_cls, j));
                            let q = choose|q: int| 0 <= q < old_cls.len() && #[trigger] old_cls[q]@.contains(j as usize);
                            if q == k {
                                let t = choose|t: int| 0 <= t < old_cls[q]@.len() && old_cls[q]@[t] == j as usize;
                                assert(cls[q]@[t] == j as usize);
                                assert(cls[q]@.contains(j as usize));
                            } else {
                                assert(cls[q] == old_cls[q]);
                            }
                        }
                    }
                    assert forall|q: int, j: int| #![trigger cls[q], ekey(entries@, j)] 0 <= q < cls.len() && 0 <= j < i + 1 && ekey(entries@, j) == ekey(entries@, cls[q]@[0] as int) implies cls[q]@.contains(j as usize) by {
                        if j == i {
                            if q == k {
                                assert(cls[k as int]@[old_cls[k as int]@.len() as int] == i);
                            } else {
                                assert(cls[q] == old_cls[q]);
                                assert(ekey(entries@, old_cls[q]@[0] as int) != ekey(entries@, old_cls[k as int]@[0] as int));
                            }
                        } else {
                            if q == k {
                                assert(old_cls[q]@.contains(j as usize));
                                let t = choose|t: int| 0 <= t < old_cls[q]@.len() && old_cls[q]@[t] == j as usize;
                                assert(cls[q]@[t] == j as usize);
                            } else {
                                assert(cls[q] == old_cls[q]);
                            }
                        }
                    }
                    assert forall|q: int, t1: int, t2: int| 0 <= q < cls.len() && 0 <= t1 < t2 < cls[q]@.len() implies #[trigger] cls[q]@[t1] < #[trigger] cls[q]@[t2] by {
                        if q != k {
                            assert(cls[q] == old_cls[q]);
                        } else if t2 == old_cls[k as int]@.len() {
                            assert(old_cls[k as int]@[t1] < i);
                        } else {
                            assert(old_cls[k as int]@[t1] < old_cls[k as int]@[t2]);
                        }
                    }
                    assert forall|q: int, t: int| 0 <= q < cls.len() && 0 <= t < cls[q]@.len() implies (#[trigger] cls[q]@[t]) < i + 1 by {
                        if q != k {
                            assert(cls[q] == old_cls[q]);
                        } else if t < old_cls[k as int]@.len() {
                            assert(old_cls[k as int]@[t] < i);
                        }
                    }
                    assert forall|q: int, t: int| 0 <= q < cls.len() && 0 <= t < cls[q]@.len() implies ekey(entries@, #[trigger] cls[q]@[t] as int) == ekey(entries@, cls[q]@[0] as int) by {
                        if q != k {
                            assert(cls[q] == old_cls[q]);
                        } else if t < old_cls[k as int]@.len() {
                            assert(cls[q]@[t] == old_cls[q]@[t]);
                        }
                    }
                    assert forall|k1: int, k2: int| 0 <= k1 < cls.len() && 0 <= k2 < cls.len() && k1 != k2 implies ekey(entries@, (#[trigger] cls[k1])@[0] as int) != ekey(entries@, (#[trigger] cls[k2])@[0] as int) by {
                        assert(cls[k1]@[0] == old_cls[k1]@[0]);
                        assert(cls[k2]@[0] == old_cls[k2]@[0]);
                    }
                }
            },
            None => {
                let mut c: Vec<usize> = Vec::new();
                c.push(i);
                classes.push(c);
                proof {
                    let cls = classes@;
                    let m = old_cls.len();
                    assert forall|q: int| 0 <= q < m implies cls[q] == old_cls[q] by {}
                    assert(cls[m as int]@ == seq![i]);
                    assert forall|j: int| 0 <= j < i + 1 implies #[trigger] covered(cls, j) by {
                        if j == i {
                            assert(cls[m as int]@[0] == i);
                            assert(cls[m as int]@.contains(j as usize));
                        } else {
                            assert(covered(old_cls, j));
                            let q = choose|q: int| 0 <= q < old_cls.len() && #[trigger] old_cls[q]@.contains(j as usize);
                            assert(cls[q] == old_cls[q]);
                            assert(cls[q]@.contains(j as usize));
                        }
                    }
                    assert forall|q: int, j: int| #![trigger cls[q], ekey(entries@, j)] 0 <= q < cls.len() && 0 <= j < i + 1 && ekey(entries@, j) == ekey(entries@, cls[q]@[0] as int) implies cls[q]@.contains(j as usize) by {
                        if q == m {
                            if j < i {
                                assert(covered(old_cls, j));
                                let q2 = choose|q2: int| 0 <= q2 < old_cls.len() && #[trigger] old_cls[q2]@.contains(j as usize);
                                let t = choose|t: int| 0 <= t < old_cls[q2]@.len() && old_cls[q2]@[t] == j as usize;
                                assert(ekey(entries@, old_cls[q2]@[t] as int) == ekey(entries@, old_cls[q2]@[0] as int));
                                assert(false);
                            } else {
                                assert(cls[q]@[0] == j as usize);
                            }
                        } else {
                            assert(cls[q] == old_cls[q]);
                            if j == i {
                                assert(false);
                            }
                        }
                    }
                    assert forall|k1: int, k2: int| 0 <= k1 < cls.len() && 0 <= k2 < cls.len() && k1 != k2 implies ekey(entries@, (#[trigger] cls[k1])@[0] as int) != ekey(entries@, (#[trigger] cls[k2])@[0] as int) by {
                        if k1 < m && k2 < m {
                            assert(cls[k1] == old_cls[k1] && cls[k2] == old_cls[k2]);
                        } else if k1 < m {
                            assert(cls[k1] == old_cls[k1]);
                        } else {
                            assert(cls[k2] == old_cls[k2]);
                        }
                    }
                    assert forall|q: int, t: int| 0 <= q < cls.len() && 0 <= t < cls[q]@.len() implies (#[trigger] cls[q]@[t]) < i + 1 by {
                        if q < m {
                            assert(cls[q] == old_cls[q]);
                        }
                    }
                    assert forall|q: int, t: int| 0 <= q < cls.len() && 0 <= t < cls[q]@.len() implies ekey(entries@, #[trigger] cls[q]@[t] as int) == ekey(entries@, cls[q]@[0] as int) by {
                        if q < m {
                            assert(cls[q] == old_cls[q]);
                        }
                    }
                    assert forall|q: int, t1: int, t2: int| 0 <= q < cls.len() && 0 <= t1 < t2 < cls[q]@.len() implies #[trigger] cls[q]@[t1] < #[trigger] cls[q]@[t2] by {
                        if q < m {
                            assert(cls[q] == old_cls[q]);
                        }
                    }
                }
            },
        }
        i += 1;
    }
    classes
}


fn group_of(entries: &Vec<CardEntry>, dates: &Vec<(String, String)>, idx: &Vec<usize>) -> (r: AbstractGroup)
    requires
        forall|t: int| 0 <= t < idx@.len() ==> #[trigger] idx@[t] < entries@.len(),
        exists|t: int| 0 <= t < idx@.len() && #[trigger] entries@[idx@[t] as int].collection_nums@.len() > 0,
    ensures
        r.entry_indices@ == idx@,
        refs_model(r.versions@) == group_versions_spec(entries@, dates@, idx@),
        r.versions@.len() > 0,
        canonical_of(r) == refs_model(r.versions@)[0],
{
    let pairs = class_pairs(entries, idx);
    let sorted = sort_versions(dates, &pairs);
    let ded = dedup_versions(&sorted);
    proof {
        let t = choose|t: int| 0 <= t < idx@.len() && #[trigger] entries@[idx@[t] as int].collection_nums@.len() > 0;
        lemma_group_pairs_nonempty(entries@, idx@, t);
        lemma_sort_len(dates@, group_pairs(entries@, idx@));
        lemma_dedup_nonempty(stable_sort(dates@, group_pairs(entries@, idx@)));
    }
    let mut versions: Vec<VersionRef> = Vec::new();
    let mut q: usize = 0;
    while q < ded.len()
        invariant
            q <= ded@.len(),
            versions@.len() == q,
            forall|k: int| 0 <= k < q ==> #[trigger] versions@[k].set@ == ded@[k].0@ && versions@[k].number == ded@[k].1,
        decreases ded.len() - q,
    {
        versions.push(VersionRef { set: ded[q].0.clone(), number: ded[q].1 });
        q += 1;
    }
    assert(refs_model(versions@) =~= pairs_view(ded@));
    let canonical = (versions[0].set.clone(), versions[0].number);
    AbstractGroup { abstract_id: 0, entry_indices: copy_indices(idx), versions, canonical }
}

/// The order of the groups by their canonical versions, as positions.
pub open spec fn perm_ok(dates: Seq<(String, String)>, canon: Seq<VKey>, perm: Seq<usize>, t: int) -> bool {
    &&& perm.len() == t
    &&& forall|a: int| 0 <= a < perm.len() ==> #[trigger] perm[a] < t
    &&& forall|a: int, b: int| 0 <= a < b < perm.len() ==> perm[a] != perm[b]
    &&& forall|x: int| 0 <= x < t ==> #[trigger] perm.contains(x as usize)
    &&& forall|a: int, b: int| 0 <= a < b < perm.len() ==> vle(dates, #[trigger] canon[perm[a] as int], #[trigger] canon[perm[b] as int])
}

fn order_by_canonical(dates: &Vec<(String, String)>, groups: &Vec<AbstractGroup>) -> (perm: Vec<usize>)
    ensures
        perm_ok(dates@, groups@.map_values(|g: AbstractGroup| canonical_of(g)), perm@, groups@.len() as int),
{
    let ghost canon = groups@.map_values(|g: AbstractGroup| canonical_of(g));
    let mut perm: Vec<usize> = Vec::new();
    let mut t: usize = 0;
    while t < groups.len()
        invariant
            t <= groups@.len(),
            canon == groups@.map_values(|g: AbstractGroup| canonical_of(g)),
            perm_ok(dates@, canon, perm@, t as int),
        decreases groups.len() - t,
    {
        let xc = chars_of(groups[t].canonical.0.as_str());
        let xn = groups[t].canonical.1;
        assert(canon[t as int] == (xc@, xn as nat));
        let ghost old_perm = perm@;
        let mut p = perm.len();
        while p > 0
            invariant
                p <= perm@.len(),
                perm@ == old_perm,
                t < groups@.len(),
                canon == groups@.map_values(|g: AbstractGroup| canonical_of(g)),
                canon[t as int] == (xc@, xn as nat),
                forall|a: int| 0 <= a < perm@.len() ==> #[trigger] perm@[a] < t,
                forall|q: int| p <= q < perm@.len() ==> !vle(dates@, canon[#[trigger] perm@[q] as int], canon[t as int]),
            ensures
                p == 0 || vle(dates@, canon[perm@[p - 1] as int], canon[t as int]),
                p <= perm@.len(),
                perm@ == old_perm,
                forall|q: int| p <= q < perm@.len() ==> !vle(dates@, canon[#[trigger] perm@[q] as int], canon[t as int]),
            decreases p,
        {
            let u = perm[p - 1];
            assert(canon[u as int] == (groups@[u as int].canonical.0@, groups@[u as int].canonical.1 as nat));
            let le = vle_exec(dates, (&chars_of(groups[u].canonical.0.as_str()), groups[u].canonical.1), (&xc, xn));
            if le {
                break;
            }
            p -= 1;
        }
        perm.insert(p, t);
        proof {
            let np = perm@;
            assert(np =~= old_perm.insert(p as int, t));
            assert forall|a: int| 0 <= a < np.len() implies #[trigger] np[a] < t + 1 by {
                if a < p {
                    assert(np[a] == old_perm[a]);
                } else if a > p {
                    assert(np[a] == old_perm[a - 1]);
                }
            }
            assert forall|a: int, b: int| 0 <= a < b < np.len() implies np[a] != np[b] by {
                if a == p {
                    assert(np[b] == old_perm[b - 1]);
                } else if b == p {
                    assert(np[a] == old_perm[a]);
                } else {
                    let a0 = if a < p { a } else { a - 1 };
                    let b0 = if b < p { b } else { b - 1 };
                    assert(np[a] == old_perm[a0] && np[b] == old_perm[b0]);
                }
            }
            assert forall|x: int| 0 <= x < t + 1 implies #[trigger] np.contains(x as usize) by {
                if x == t {
                    assert(np[p as int] == t);
                } else {
                    assert(old_perm.contains(x as usize));
                    let a = choose|a: int| 0 <= a < old_perm.len() && old_perm[a] == x as usize;
                    if a < p {
                        assert(np[a] == x as usize);
                    } else {
                        assert(np[a + 1] == x as usize);
                    }
                }
            }
            assert forall|a: int, b: int| 0 <= a < b < np.len() implies vle(dates@, #[trigger] canon[np[a] as int], #[trigger] canon[np[b] as int]) by {
                let ct = canon[t as int];
                if a == p {
                    assert(np[b] == old_perm[b - 1]);
                    assert(!vle(dates@, canon[old_perm[b - 1] as int], ct));
                    lemma_vle_total(dates@, canon[old_perm[b - 1] as int], ct);
                } else if b == p {
                    assert(np[a] == old_perm[a]);
                    if a < p - 1 {
                        assert(vle(dates@, canon[old_perm[a] as int], canon[old_perm[p - 1] as int]));
                        lemma_vle_trans(dates@, canon[old_perm[a] as int], canon[old_perm[p - 1] as int], ct);
                    }
                } else {
                    let a0 = if a < p { a } else { a - 1 };
                    let b0 = if b < p { b } else { b - 1 };
                    assert(np[a] == old_perm[a0] && np[b] == old_perm[b0]);
                    assert(a0 < b0);
                }
            }
        }
        t += 1;
    }
    perm
}

/// Some group holds entry `j`.
pub open spec fn in_some_group(gs: Seq<AbstractGroup>, j: int) -> bool {
    exists|k: int| 0 <= k < gs.len() && #[trigger] gs[k].entry_indices@.contains(j as usize)
}

fn has_version_in_group(entries: &Vec<CardEntry>, i: usize) -> (r: bool)
    requires
        i < entries@.len(),
    ensures
        r == group_has_version(entries@, i as int),
{
    let mut j: usize = 0;
    while j < entries.len()
        invariant
            i < entries@.len(),
            j <= entries@.len(),
            forall|k: int| 0 <= k < j ==> !(ekey(entries@, k) == ekey(entries@, i as int) && #[trigger] entries@[k].collection_nums@.len() > 0),
        decreases entries.len() - j,
    {
        if entries[j].collection_nums.len() > 0 && same_strings(&entries[j].card_ids_group, &entries[i].card_ids_group) {
            assert(entries@[j as int].collection_nums@.len() > 0);
            return true;
        }
        j += 1;
    }
    false
}

/// Whether every entry's group has a collection number (so that each group
/// has a first version).
pub fn groups_have_versions(entries: &Vec<CardEntry>) -> (r: bool)
    ensures
        r == forall|i: int| 0 <= i < entries@.len() ==> #[trigger] group_has_version(entries@, i),
{
    let mut i: usize = 0;
    while i < entries.len()
        invariant
            i <= entries@.len(),
            forall|k: int| 0 <= k < i ==> #[trigger] group_has_version(entries@, k),
        decreases entries.len() - i,
    {
        if !has_version_in_group(entries, i) {
            return false;
        }
        i += 1;
    }
    true
}

/// The abstract cards: entries grouped by the ids of the entries that share
/// their card, numbered from 1 in the order of their first versions.
pub fn build_abstract_groups(card_entries: &Vec<CardEntry>, release_dates: &Vec<(String, String)>) -> (r: Vec<AbstractGroup>)
    requires
        forall|i: int| 0 <= i < card_entries@.len() ==> #[trigger] group_has_version(card_entries@, i),
    ensures
        forall|k: int| 0 <= k < r@.len() ==> #[trigger] group_ok(card_entries@, release_dates@, r@[k]) && r@[k].abstract_id == ((k + 1) as u32),
        forall|k1: int, k2: int| 0 <= k1 < r@.len() && 0 <= k2 < r@.len() && k1 != k2 ==> ekey(card_entries@, (#[trigger] r@[k1]).entry_indices@[0] as int) != ekey(card_entries@, (#[trigger] r@[k2]).entry_indices@[0] as int),
        forall|j: int| 0 <= j < card_entries@.len() ==> #[trigger] in_some_group(r@, j),
        forall|k1: int, k2: int| 0 <= k1 < k2 < r@.len() ==> vle(release_dates@, canonical_of(#[trigger] r@[k1]), canonical_of(#[trigger] r@[k2])),
{
    let entries = card_entries;
    let n = entries.len();
    let classes = entry_classes(entries);
    let ghost cls = classes@;
    let mut unsorted: Vec<AbstractGroup> = Vec::new();
    let mut u: usize = 0;
    while u < classes.len()
        invariant
            u <= classes@.len(),
            n == entries@.len(),
            cls == classes@,
            classes_inv(entries@, cls, entries@.len() as int),
            forall|i: int| 0 <= i < entries@.len() ==> #[trigger] group_has_version(entries@, i),
            unsorted@.len() == u,
            forall|k: int| 0 <= k < u ==> #[trigger] group_ok(entries@, release_dates@, unsorted@[k]) && unsorted@[k].entry_indices@ == cls[k]@,
        decreases classes.len() - u,
    {
        proof {
            let idx = cls[u as int]@;
            assert(idx.len() > 0);
            assert(idx[0] < entries@.len());
            assert(group_has_version(entries@, idx[0] as int));
            let j = choose|j: int| 0 <= j < entries@.len() && ekey(entries@, j) == ekey(entries@, idx[0] as int) && #[trigger] entries@[j].collection_nums@.len() > 0;
            assert(idx.contains(j as usize));
            let t = choose|t: int| 0 <= t < idx.len() && idx[t] == j as usize;
            assert(entries@[idx[t] as int].collection_nums@.len() > 0);
            assert forall|t2: int| 0 <= t2 < idx.len() implies #[trigger] idx[t2] < entries@.len() by {
                assert(cls[u as int]@[t2] < entries@.len());
            }
        }
        let g = group_of(entries, release_dates, &classes[u]);
        proof {
            let idx = cls[u as int]@;
            assert forall|j: int| 0 <= j < entries@.len() implies (#[trigger] ekey(entries@, j) == ekey(entries@, idx[0] as int) <==> idx.contains(j as usize)) by {
                if idx.contains(j as usize) {
                    let t = choose|t: int| 0 <= t < idx.len() && idx[t] == j as usize;
                    assert(ekey(entries@, cls[u as int]@[t] as int) == ekey(entries@, cls[u as int]@[0] as int));
                }
            }
            assert forall|t1: int, t2: int| 0 <= t1 < t2 < idx.len() implies idx[t1] < idx[t2] by {
                assert(cls[u as int]@[t1] < cls[u as int]@[t2]);
            }
            assert forall|t: int| 0 <= t < idx.len() implies #[trigger] idx[t] < entries@.len() by {
                assert(cls[u as int]@[t] < entries@.len());
            }
        }
        unsorted.push(g);
        u += 1;
    }
    let perm = order_by_canonical(release_dates, &unsorted);
    let ghost canon = unsorted@.map_values(|g: AbstractGroup| canonical_of(g));
    let mut out: Vec<AbstractGroup> = Vec::new();
    let mut k: usize = 0;
    while k < perm.len()
        invariant
            k <= perm@.len(),
            n == entries@.len(),
            unsorted@.len() == cls.len(),
            classes_inv(entries@, cls, entries@.len() as int),
            forall|q: int| 0 <= q < unsorted@.len() ==> #[trigger] group_ok(entries@, release_dates@, unsorted@[q]) && unsorted@[q].entry_indices@ == cls[q]@,
            perm_ok(release_dates@, canon, perm@, unsorted@.len() as int),
            canon == unsorted@.map_values(|g: AbstractGroup| canonical_of(g)),
            out@.len() == k,
            forall|q: int| 0 <= q < k ==> (#[trigger] out@[q]).entry_indices@ == unsorted@[perm@[q] as int].entry_indices@
                && refs_model(out@[q].versions@) == refs_model(unsorted@[perm@[q] as int].versions@)
                && out@[q].canonical.0@ == unsorted@[perm@[q] as int].canonical.0@
                && out@[q].canonical.1 == unsorted@[perm@[q] as int].canonical.1
                && out@[q].abstract_id == ((q + 1) as u32),
        decreases perm.len() - k,
    {
        let src = &unsorted[perm[k]];
        let id: u32 = (k + 1) as u32;
        out.push(AbstractGroup {
            abstract_id: id,
            entry_indices: copy_indices(&src.entry_indices),
            versions: clone_refs(&src.versions),
            canonical: (src.canonical.0.clone(), src.canonical.1),
        });
        k += 1;
    }
    proof {
        assert forall|q: int| 0 <= q < out@.len() implies #[trigger] group_ok(entries@, release_dates@, out@[q]) && out@[q].abstract_id == ((q + 1) as u32) by {
            let g0 = unsorted@[perm@[q] as int];
            assert(group_ok(entries@, release_dates@, g0));
            assert(canonical_of(out@[q]) == canonical_of(g0));
        }
        assert forall|k1: int, k2: int| 0 <= k1 < out@.len() && 0 <= k2 < out@.len() && k1 != k2 implies ekey(entries@, (#[trigger] out@[k1]).entry_indices@[0] as int) != ekey(entries@, (#[trigger] out@[k2]).entry_indices@[0] as int) by {
            let (u1, u2) = (perm@[k1] as int, perm@[k2] as int);
            if k1 < k2 {
                assert(perm@[k1] != perm@[k2]);
            } else {
                assert(perm@[k2] != perm@[k1]);
            }
            assert(group_ok(entries@, release_dates@, unsorted@[u1]));
            assert(group_ok(entries@, release_dates@, unsorted@[u2]));
            assert(unsorted@[u1].entry_indices@ == cls[u1]@);
            assert(unsorted@[u2].entry_indices@ == cls[u2]@);
        }
        assert forall|j: int| 0 <= j < entries@.len() implies #[trigger] in_some_group(out@, j) by {
            assert(covered(cls, j));
            let c = choose|c: int| 0 <= c < cls.len() && #[trigger] cls[c]@.contains(j as usize);
            assert(perm@.contains(c as usize));
            let q = choose|q: int| 0 <= q < perm@.len() && perm@[q] == c as usize;
            assert(group_ok(entries@, release_dates@, unsorted@[c]));
            assert(out@[q].entry_indices@ == cls[c]@);
            assert(out@[q].entry_indices@.contains(j as usize));
        }
        assert forall|k1: int, k2: int| 0 <= k1 < k2 < out@.len() implies vle(release_dates@, canonical_of(#[trigger] out@[k1]), canonical_of(#[trigger] out@[k2])) by {
            assert(canonical_of(out@[k1]) == canon[perm@[k1] as int]);
            assert(canonical_of(out@[k2]) == canon[perm@[k2] as int]);
        }
    }
    out
}


// ───────────────────────── originals and reprints ─────────────────────────

/// What makes two versions the same physical card.
pub type Identity = (u32, Seq<char>, Option<Seq<char>>, bool, bool);

pub open spec fn opt_s(o: Option<String>) -> Option<Seq<char>> {
    match o {
        Some(s) => Some(s@),
        None => None,
    }
}

pub open spec fn identity(v: CardVersion) -> Identity {
    (v.card_id, v.rarity@, opt_s(v.illustrator), v.is_promo, v.is_foil)
}

pub open spec fn vkey(v: CardVersion) -> VKey {
    (v.set@, v.number as nat)
}

/// The versions with the given identity, in order.
pub open spec fn identity_group(vs: Seq<CardVersion>, id: Identity) -> Seq<VKey>
    decreases vs.len(),
{
    if vs.len() == 0 {
        Seq::empty()
    } else {
        let r = identity_group(vs.drop_last(), id);
        if identity(vs.last()) == id {
            r.push(vkey(vs.last()))
        } else {
            r
        }
    }
}

/// The last position of `k` in `s` (-1 when absent).
pub open spec fn last_pos(s: Seq<VKey>, k: VKey) -> int
    decreases s.len(),
{
    if s.len() == 0 {
        -1
    } else if s.last() == k {
        s.len() - 1
    } else {
        last_pos(s.drop_last(), k)
    }
}

/// The members other than `k`, in order.
pub open spec fn others(s: Seq<VKey>, k: VKey) -> Seq<VKey>
    decreases s.len(),
{
    if s.len() == 0 {
        Seq::empty()
    } else if s.last() == k {
        others(s.drop_last(), k)
    } else {
        others(s.drop_last(), k).push(s.last())
    }
}

/// A version is a reprint when it is not the first of its identity group in
/// release order; its duplicates are the rest of the group, in release order.
pub open spec fn dup_state(vs: Seq<CardVersion>, dates: Seq<(String, String)>, i: int) -> (bool, Seq<VKey>) {
    let sorted = stable_sort(dates, identity_group(vs, identity(vs[i])));
    (last_pos(sorted, vkey(vs[i])) > 0, others(sorted, vkey(vs[i])))
}

/// No later version has the same set and number (the one a re-read keeps).
pub open spec fn last_with_key(vs: Seq<CardVersion>, i: int) -> bool {
    forall|j: int| i < j < vs.len() ==> vkey(#[trigger] vs[j]) != vkey(vs[i])
}

pub open spec fn needs_update(vs: Seq<CardVersion>, dates: Seq<(String, String)>, i: int) -> bool {
    last_with_key(vs, i) && (vs[i].is_reprint, refs_model(vs[i].duplicates@)) != dup_state(vs, dates, i)
}

/// The positions of the versions whose reprint flag or duplicates change.
pub open spec fn update_positions(vs: Seq<CardVersion>, dates: Seq<(String, String)>, n: int) -> Seq<int>
    decreases n,
{
    if n <= 0 {
        Seq::empty()
    } else {
        let r = update_positions(vs, dates, n - 1);
        if needs_update(vs, dates, n - 1) {
            r.push(n - 1)
        } else {
            r
        }
    }
}

/// `u` is `v` with the given reprint flag and duplicates.
pub open spec fn updated_as(u: CardVersion, v: CardVersion, st: (bool, Seq<VKey>)) -> bool {
    &&& u.set@ == v.set@ && u.number == v.number && u.card_id == v.card_id && u.rarity@ == v.rarity@
    &&& opt_s(u.illustrator) == opt_s(v.illustrator) && u.is_promo == v.is_promo && u.is_foil == v.is_foil
    &&& u.is_tradable == v.is_tradable && strs(u.packs@) == strs(v.packs@) && u.source@ == v.source@
    &&& strs(u.promo_sources@) == strs(v.promo_sources@)
    &&& u.is_reprint == st.0 && refs_model(u.duplicates@) == st.1
}

fn same_identity(a: &CardVersion, b: &CardVersion) -> (r: bool)
    ensures
        r == (identity(*a) == identity(*b)),
{
    let ill = match (&a.illustrator, &b.illustrator) {
        (Some(x), Some(y)) => seq_eq(&chars_of(x.as_str()), &chars_of(y.as_str())),
        (None, None) => true,
        _ => false,
    };
    a.card_id == b.card_id && seq_eq(&chars_of(a.rarity.as_str()), &chars_of(b.rarity.as_str())) && ill
        && a.is_promo == b.is_promo && a.is_foil == b.is_foil
}

fn same_key(a: (&[char], u32), b: (&[char], u32)) -> (r: bool)
    ensures
        r == ((a.0@, a.1 as nat) == (b.0@, b.1 as nat)),
{
    seq_eq(a.0, b.0) && a.1 == b.1
}

fn group_keys(vs: &Vec<CardVersion>, i: usize) -> (r: Vec<(String, u32)>)
    requires
        i < vs@.len(),
    ensures
        pairs_view(r@) == identity_group(vs@, identity(vs@[i as int])),
{
    let mut out: Vec<(String, u32)> = Vec::new();
    let mut j: usize = 0;
    assert(pairs_view(out@) =~= identity_group(vs@.subrange(0, 0), identity(vs@[i as int])));
    while j < vs.len()
        invariant
            i < vs@.len(),
            j <= vs@.len(),
            pairs_view(out@) == identity_group(vs@.subrange(0, j as int), identity(vs@[i as int])),
        decreases vs.len() - j,
    {
        assert(vs@.subrange(0, j + 1).drop_last() =~= vs@.subrange(0, j as int));
        if same_identity(&vs[j], &vs[i]) {
            let ghost before = pairs_view(out@);
            out.push((vs[j].set.clone(), vs[j].number));
            assert(pairs_view(out@) =~= before.push(vkey(vs@[j as int])));
        }
        j += 1;
    }
    assert(vs@.subrange(0, vs@.len() as int) =~= vs@);
    out
}

fn state_of(vs: &Vec<CardVersion>, dates: &Vec<(String, String)>, i: usize) -> (r: (bool, Vec<VersionRef>))
    requires
        i < vs@.len(),
    ensures
        (r.0, refs_model(r.1@)) == dup_state(vs@, dates@, i as int),
{
    let group = group_keys(vs, i);
    let sorted = sort_versions(dates, &group);
    let ghost sv = pairs_view(sorted@);
    let me = chars_of(vs[i].set.as_str());
    let num = vs[i].number;
    let ghost k = vkey(vs@[i as int]);
    let mut last: Option<usize> = None;
    let mut dups: Vec<VersionRef> = Vec::new();
    let mut t: usize = 0;
    assert(refs_model(dups@) =~= others(sv.subrange(0, 0), k));
    while t < sorted.len()
        invariant
            t <= sorted@.len(),
            sv == pairs_view(sorted@),
            me@ == vs@[i as int].set@,
            num == vs@[i as int].number,
            k == vkey(vs@[i as int]),
            match last {
                Some(p) => p as int == last_pos(sv.subrange(0, t as int), k),
                None => last_pos(sv.subrange(0, t as int), k) == -1,
            },
            refs_model(dups@) == others(sv.subrange(0, t as int), k),
        decreases sorted.len() - t,
    {
        assert(sv.subrange(0, t + 1).drop_last() =~= sv.subrange(0, t as int));
        assert(sv[t as int] == (sorted@[t as int].0@, sorted@[t as int].1 as nat));
        if same_key((&chars_of(sorted[t].0.as_str()), sorted[t].1), (&me, num)) {
            last = Some(t);
        } else {
            let ghost before = refs_model(dups@);
            dups.push(VersionRef { set: sorted[t].0.clone(), number: sorted[t].1 });
            assert(refs_model(dups@) =~= before.push(sv[t as int]));
        }
        t += 1;
    }
    assert(sv.subrange(0, sv.len() as int) =~= sv);
    let reprint = match last {
        Some(p) => p > 0,
        None => false,
    };
    (reprint, dups)
}

fn same_state(a: &CardVersion, reprint: bool, dups: &Vec<VersionRef>) -> (r: bool)
    ensures
        r == ((a.is_reprint, refs_model(a.duplicates@)) == (reprint, refs_model(dups@))),
{
    if a.is_reprint != reprint {
        return false;
    }
    if a.duplicates.len() != dups.len() {
        assert(refs_model(a.duplicates@).len() != refs_model(dups@).len());
        return false;
    }
    let mut t: usize = 0;
    while t < dups.len()
        invariant
            t <= dups@.len(),
            a.duplicates@.len() == dups@.len(),
            forall|q: int| 0 <= q < t ==> refs_model(a.duplicates@)[q] == refs_model(dups@)[q],
        decreases dups.len() - t,
    {
        if !same_key((&chars_of(a.duplicates[t].set.as_str()), a.duplicates[t].number), (&chars_of(dups[t].set.as_str()), dups[t].number)) {
            assert(refs_model(a.duplicates@)[t as int] != refs_model(dups@)[t as int]);
            return false;
        }
        t += 1;
    }
    assert(refs_model(a.duplicates@) =~= refs_model(dups@));
    true
}

fn clone_strs(v: &Vec<String>) -> (r: Vec<String>)
    ensures
        strs(r@) == strs(v@),
{
    let mut r: Vec<String> = Vec::new();
    let mut i: usize = 0;
    while i < v.len()
        invariant
            i <= v@.len(),
            r@.len() == i,
            forall|k: int| 0 <= k < i ==> #[trigger] r@[k]@ == v@[k]@,
        decreases v.len() - i,
    {
        r.push(v[i].clone());
        i += 1;
    }
    assert(strs(r@) =~= strs(v@));
    r
}

fn is_last_with_key(vs: &Vec<CardVersion>, i: usize) -> (r: bool)
    requires
        i < vs@.len(),
    ensures
        r == last_with_key(vs@, i as int),
{
    let me = chars_of(vs[i].set.as_str());
    let n = vs.len();
    assert(i < n);
    let mut j = i + 1;
    while j < vs.len()
        invariant
            i < j <= vs@.len(),
            me@ == vs@[i as int].set@,
            forall|q: int| i < q < j ==> vkey(#[trigger] vs@[q]) != vkey(vs@[i as int]),
        decreases vs.len() - j,
    {
        if same_key((&chars_of(vs[j].set.as_str()), vs[j].number), (&me, vs[i].number)) {
            return false;
        }
        j += 1;
    }
    true
}

/// The card versions whose reprint flag or duplicate links change, updated:
/// within each identity group (same abstract card, rarity, illustrator, promo
/// and foil status) in release order, the first is the original and each
/// version links the others.
pub fn duplicate_updates(versions: &Vec<CardVersion>, release_dates: &Vec<(String, String)>) -> (r: Vec<CardVersion>)
    ensures
        r@.len() == update_positions(versions@, release_dates@, versions@.len() as int).len(),
        forall|k: int| 0 <= k < r@.len() ==> {
            let i = #[trigger] update_positions(versions@, release_dates@, versions@.len() as int)[k];
            updated_as(r@[k], versions@[i], dup_state(versions@, release_dates@, i))
        },
{
    let mut out: Vec<CardVersion> = Vec::new();
    let mut i: usize = 0;
    while i < versions.len()
        invariant
            i <= versions@.len(),
            out@.len() == update_positions(versions@, release_dates@, i as int).len(),
            forall|k: int| 0 <= k < out@.len() ==> {
                let p = #[trigger] update_positions(versions@, release_dates@, i as int)[k];
                updated_as(out@[k], versions@[p], dup_state(versions@, release_dates@, p))
            },
        decreases versions.len() - i,
    {
        let ghost before = update_positions(versions@, release_dates@, i as int);
        if is_last_with_key(versions, i) {
            let (reprint, dups) = state_of(versions, release_dates, i);
            if !same_state(&versions[i], reprint, &dups) {
                let v = &versions[i];
                out.push(CardVersion {
                    set: v.set.clone(),
                    number: v.number,
                    card_id: v.card_id,
                    rarity: v.rarity.clone(),
                    illustrator: match &v.illustrator {
                        Some(s) => Some(s.clone()),
                        None => None,
                    },
                    is_promo: v.is_promo,
                    is_foil: v.is_foil,
                    is_reprint: reprint,
                    is_tradable: v.is_tradable,
                    packs: clone_strs(&v.packs),
                    source: v.source.clone(),
                    promo_sources: clone_strs(&v.promo_sources),
                    duplicates: dups,
                });
                assert(update_positions(versions@, release_dates@, i + 1) == before.push(i as int));
            } else {
                assert(update_positions(versions@, release_dates@, i + 1) == before);
            }
        } else {
            assert(update_positions(versions@, release_dates@, i + 1) == before);
        }
        i += 1;
    }
    out
}


// ───────────────────────── laws of release order ─────────────────────────

/// Every element comes no later than each element after it.
pub open spec fn release_sorted(dates: Seq<(String, String)>, s: Seq<VKey>) -> bool {
    forall|i: int, j: int| 0 <= i < j < s.len() ==> vle(dates, #[trigger] s[i], #[trigger] s[j])
}

proof fn lemma_insert_after_le(dates: Seq<(String, String)>, s: Seq<VKey>, x: VKey)
    requires
        release_sorted(dates, s),
    ensures
        insert_after_le(dates, s, x).to_multiset() == s.to_multiset().insert(x),
        release_sorted(dates, insert_after_le(dates, s, x)),
    decreases s.len(),
{
    broadcast use vstd::seq_lib::group_to_multiset_ensures;
    let r = insert_after_le(dates, s, x);
    if s.len() == 0 {
        assert(r =~= Seq::<VKey>::empty().push(x));
        assert(Seq::<VKey>::empty().to_multiset() =~= vstd::multiset::Multiset::empty());
    } else if vle(dates, s.last(), x) {
        assert forall|i: int, j: int| 0 <= i < j < r.len() implies vle(dates, #[trigger] r[i], #[trigger] r[j]) by {
            if j == s.len() {
                if i < s.len() - 1 {
                    lemma_vle_trans(dates, s[i], s.last(), x);
                }
            }
        }
    } else {
        let t = s.drop_last();
        assert(release_sorted(dates, t)) by {
            assert forall|i: int, j: int| 0 <= i < j < t.len() implies vle(dates, #[trigger] t[i], #[trigger] t[j]) by {
                assert(t[i] == s[i] && t[j] == s[j]);
            }
        }
        lemma_insert_after_le(dates, t, x);
        let r0 = insert_after_le(dates, t, x);
        assert(r == r0.push(s.last()));
        assert(t.push(s.last()) =~= s);
        assert(r.to_multiset() =~= s.to_multiset().insert(x));
        lemma_vle_total(dates, s.last(), x);
        assert forall|i: int, j: int| 0 <= i < j < r.len() implies vle(dates, #[trigger] r[i], #[trigger] r[j]) by {
            if j == r.len() - 1 {
                let y = r0[i];
                assert(r0.to_multiset().count(y) > 0);
                if y != x {
                    assert(t.to_multiset().count(y) > 0);
                    assert(t.contains(y));
                    let k = choose|k: int| 0 <= k < t.len() && t[k] == y;
                    assert(s[k] == y);
                    assert(vle(dates, s[k], s[s.len() - 1]));
                }
            } else {
                assert(r[i] == r0[i] && r[j] == r0[j]);
            }
        }
    }
}

proof fn lemma_dedup_sorted(dates: Seq<(String, String)>, s: Seq<VKey>)
    requires
        release_sorted(dates, s),
    ensures
        release_sorted(dates, dedup(s)),
    decreases s.len(),
{
    if s.len() > 0 {
        let t = s.drop_last();
        assert(release_sorted(dates, t)) by {
            assert forall|i: int, j: int| 0 <= i < j < t.len() implies vle(dates, #[trigger] t[i], #[trigger] t[j]) by {
                assert(t[i] == s[i] && t[j] == s[j]);
            }
        }
        lemma_dedup_sorted(dates, t);
        lemma_dedup_distinct(t);
        let r = dedup(t);
        if !r.contains(s.last()) {
            let q = r.push(s.last());
            assert forall|i: int, j: int| 0 <= i < j < q.len() implies vle(dates, #[trigger] q[i], #[trigger] q[j]) by {
                if j == r.len() {
                    assert(r.contains(r[i]));
                    let k = choose|k: int| 0 <= k < t.len() && t[k] == r[i];
                    assert(s[k] == r[i]);
                    assert(q[j] == s[s.len() - 1]);
                } else {
                    assert(q[i] == r[i] && q[j] == r[j]);
                }
            }
        }
    }
}

/// A group's versions hold each of its collection numbers exactly once, in
/// release order.
pub proof fn lemma_group_versions(entries: Seq<CardEntry>, dates: Seq<(String, String)>, idx: Seq<usize>)
    ensures
        group_versions_spec(entries, dates, idx).no_duplicates(),
        release_sorted(dates, group_versions_spec(entries, dates, idx)),
        forall|x: VKey| #[trigger] group_versions_spec(entries, dates, idx).contains(x) <==> group_pairs(entries, idx).contains(x),
{
    let p = group_pairs(entries, idx);
    let st = stable_sort(dates, p);
    lemma_stable_sort(dates, p);
    lemma_dedup_distinct(st);
    lemma_dedup_sorted(dates, st);
    assert forall|x: VKey| #[trigger] group_versions_spec(entries, dates, idx).contains(x) <==> p.contains(x) by {
        vstd::seq_lib::to_multiset_contains(st, x);
        vstd::seq_lib::to_multiset_contains(p, x);
        assert(st.to_multiset().count(x) == p.to_multiset().count(x));
    }
}

/// Sorting into release order keeps the same versions and puts them in
/// release order.
pub proof fn lemma_stable_sort(dates: Seq<(String, String)>, s: Seq<VKey>)
    ensures
        stable_sort(dates, s).to_multiset() == s.to_multiset(),
        release_sorted(dates, stable_sort(dates, s)),
    decreases s.len(),
{
    broadcast use vstd::seq_lib::group_to_multiset_ensures;
    if s.len() == 0 {
        assert(stable_sort(dates, s) =~= s);
    } else {
        lemma_stable_sort(dates, s.drop_last());
        lemma_insert_after_le(dates, stable_sort(dates, s.drop_last()), s.last());
        assert(s.drop_last().push(s.last()) =~= s);
    }
}

/// The set and number of every version are distinct (as file names are).
pub open spec fn keys_unique(vs: Seq<CardVersion>) -> bool {
    forall|a: int, b: int| 0 <= a < vs.len() && 0 <= b < vs.len() && a != b ==> vkey(#[trigger] vs[a]) != vkey(#[trigger] vs[b])
}

proof fn lemma_identity_group_member(vs: Seq<CardVersion>, id: Identity, k: VKey)
    ensures
        identity_group(vs, id).contains(k) <==> exists|m: int| 0 <= m < vs.len() && identity(#[trigger] vs[m]) == id && vkey(vs[m]) == k,
    decreases vs.len(),
{
    let g = identity_group(vs, id);
    if vs.len() > 0 {
        let pre = vs.drop_last();
        lemma_identity_group_member(pre, id, k);
        let g0 = identity_group(pre, id);
        if g.contains(k) {
            let q = choose|q: int| 0 <= q < g.len() && g[q] == k;
            if q < g0.len() {
                assert(g[q] == g0[q]);
                assert(g0.contains(k));
                let m = choose|m: int| 0 <= m < pre.len() && identity(#[trigger] pre[m]) == id && vkey(pre[m]) == k;
                assert(vs[m] == pre[m]);
            } else {
                assert(identity(vs[vs.len() - 1]) == id);
            }
        }
        if exists|m: int| 0 <= m < vs.len() && identity(#[trigger] vs[m]) == id && vkey(vs[m]) == k {
            let m = choose|m: int| 0 <= m < vs.len() && identity(#[trigger] vs[m]) == id && vkey(vs[m]) == k;
            if m < vs.len() - 1 {
                assert(pre[m] == vs[m]);
                assert(g0.contains(k));
                let q = choose|q: int| 0 <= q < g0.len() && g0[q] == k;
                assert(g[q] == g0[q]);
            } else {
                assert(g[g.len() - 1] == k);
            }
        }
    }
}

proof fn lemma_identity_group_unique(vs: Seq<CardVersion>, id: Identity)
    requires
        keys_unique(vs),
    ensures
        identity_group(vs, id).no_duplicates(),
    decreases vs.len(),
{
    if vs.len() > 0 {
        let pre = vs.drop_last();
        assert(keys_unique(pre)) by {
            assert forall|a: int, b: int| 0 <= a < pre.len() && 0 <= b < pre.len() && a != b implies vkey(#[trigger] pre[a]) != vkey(#[trigger] pre[b]) by {
                assert(pre[a] == vs[a] && pre[b] == vs[b]);
            }
        }
        lemma_identity_group_unique(pre, id);
        let g0 = identity_group(pre, id);
        let g = identity_group(vs, id);
        if identity(vs.last()) == id {
            let k = vkey(vs.last());
            lemma_identity_group_member(pre, id, k);
            if g0.contains(k) {
                let m = choose|m: int| 0 <= m < pre.len() && identity(#[trigger] pre[m]) == id && vkey(pre[m]) == k;
                assert(vs[m] == pre[m]);
                assert(vkey(vs[m]) != vkey(vs[vs.len() - 1]));
            }
            assert forall|a: int, b: int| 0 <= a < g.len() && 0 <= b < g.len() && a != b implies g[a] != g[b] by {
                if a < g0.len() && b < g0.len() {
                    assert(g[a] == g0[a] && g[b] == g0[b]);
                } else if a < g0.len() {
                    assert(g[a] == g0[a]);
                    assert(g0.contains(g[a]));
                } else {
                    assert(g[b] == g0[b]);
                    assert(g0.contains(g[b]));
                }
            }
        }
    }
}

proof fn lemma_last_pos(s: Seq<VKey>, k: VKey, p: int)
    requires
        0 <= p < s.len(),
        s[p] == k,
        forall|q: int| p < q < s.len() ==> s[q] != k,
    ensures
        last_pos(s, k) == p,
    decreases s.len(),
{
    if p < s.len() - 1 {
        lemma_last_pos(s.drop_last(), k, p);
    }
}

proof fn lemma_others(s: Seq<VKey>, k: VKey, y: VKey)
    ensures
        others(s, k).contains(y) <==> (s.contains(y) && y != k),
    decreases s.len(),
{
    if s.len() > 0 {
        let t = s.drop_last();
        lemma_others(t, k, y);
        let o = others(s, k);
        let o0 = others(t, k);
        if o.contains(y) {
            let q = choose|q: int| 0 <= q < o.len() && o[q] == y;
            if q < o0.len() {
                assert(o[q] == o0[q]);
                assert(o0.contains(y));
                let j = choose|j: int| 0 <= j < t.len() && t[j] == y;
                assert(s[j] == t[j]);
            } else {
                assert(s[s.len() - 1] == y);
            }
        }
        if s.contains(y) && y != k {
            let j = choose|j: int| 0 <= j < s.len() && s[j] == y;
            if j < s.len() - 1 {
                assert(t[j] == s[j]);
                assert(t.contains(y));
                let q = choose|q: int| 0 <= q < o0.len() && o0[q] == y;
                assert(o[q] == o0[q]);
            } else {
                assert(o[o.len() - 1] == y);
            }
        }
    }
}

/// The sorted identity group of version `i`: the same versions as its group,
/// in release order, each once.
proof fn lemma_sorted_group(vs: Seq<CardVersion>, dates: Seq<(String, String)>, i: int)
    requires
        keys_unique(vs),
        0 <= i < vs.len(),
    ensures
        ({
            let sorted = stable_sort(dates, identity_group(vs, identity(vs[i])));
            &&& release_sorted(dates, sorted)
            &&& sorted.no_duplicates()
            &&& forall|k: VKey| #[trigger] sorted.contains(k) <==> identity_group(vs, identity(vs[i])).contains(k)
        }),
{
    broadcast use vstd::seq_lib::group_to_multiset_ensures;
    let g = identity_group(vs, identity(vs[i]));
    let sorted = stable_sort(dates, g);
    lemma_stable_sort(dates, g);
    lemma_identity_group_unique(vs, identity(vs[i]));
    g.lemma_multiset_has_no_duplicates();
    sorted.lemma_multiset_has_no_duplicates_conv();
    assert forall|k: VKey| #[trigger] sorted.contains(k) <==> g.contains(k) by {
        assert(sorted.to_multiset().count(k) == g.to_multiset().count(k));
    }
}

/// Version `j` of the same card as `i` holds position `p` of their sorted
/// group; it is the original exactly when that position is the first.
proof fn lemma_position(vs: Seq<CardVersion>, dates: Seq<(String, String)>, i: int, j: int) -> (p: int)
    requires
        keys_unique(vs),
        0 <= i < vs.len(),
        0 <= j < vs.len(),
        identity(vs[j]) == identity(vs[i]),
    ensures
        0 <= p < stable_sort(dates, identity_group(vs, identity(vs[i]))).len(),
        stable_sort(dates, identity_group(vs, identity(vs[i])))[p] == vkey(vs[j]),
        dup_state(vs, dates, j).0 <==> p > 0,
{
    let g = identity_group(vs, identity(vs[i]));
    let sorted = stable_sort(dates, g);
    lemma_sorted_group(vs, dates, i);
    lemma_identity_group_member(vs, identity(vs[i]), vkey(vs[j]));
    assert(g.contains(vkey(vs[j])));
    assert(sorted.contains(vkey(vs[j])));
    let p = choose|p: int| 0 <= p < sorted.len() && sorted[p] == vkey(vs[j]);
    assert forall|q: int| p < q < sorted.len() implies sorted[q] != vkey(vs[j]) by {
        assert(sorted[q] != sorted[p]);
    }
    lemma_last_pos(sorted, vkey(vs[j]), p);
    p
}

/// Of the versions of one physical card (same abstract card, rarity,
/// illustrator, promo stamp and finish) exactly one is not a reprint.
pub proof fn lemma_one_original(vs: Seq<CardVersion>, dates: Seq<(String, String)>, i: int)
    requires
        keys_unique(vs),
        0 <= i < vs.len(),
    ensures
        exists|j: int| 0 <= j < vs.len() && identity(vs[j]) == identity(vs[i]) && !(#[trigger] dup_state(vs, dates, j)).0,
        forall|j1: int, j2: int|
            0 <= j1 < vs.len() && 0 <= j2 < vs.len() && identity(vs[j1]) == identity(vs[i]) && identity(vs[j2]) == identity(vs[i])
                && !(#[trigger] dup_state(vs, dates, j1)).0 && !(#[trigger] dup_state(vs, dates, j2)).0 ==> j1 == j2,
{
    let g = identity_group(vs, identity(vs[i]));
    let sorted = stable_sort(dates, g);
    lemma_sorted_group(vs, dates, i);
    let pi = lemma_position(vs, dates, i, i);
    assert(sorted.contains(sorted[0]));
    lemma_identity_group_member(vs, identity(vs[i]), sorted[0]);
    let j = choose|m: int| 0 <= m < vs.len() && identity(#[trigger] vs[m]) == identity(vs[i]) && vkey(vs[m]) == sorted[0];
    let pj = lemma_position(vs, dates, i, j);
    assert(sorted[pj] == sorted[0]);
    assert(pj == 0);
    assert(!dup_state(vs, dates, j).0);
    assert forall|j1: int, j2: int|
        0 <= j1 < vs.len() && 0 <= j2 < vs.len() && identity(vs[j1]) == identity(vs[i]) && identity(vs[j2]) == identity(vs[i])
            && !(#[trigger] dup_state(vs, dates, j1)).0 && !(#[trigger] dup_state(vs, dates, j2)).0 implies j1 == j2 by {
        let p1 = lemma_position(vs, dates, i, j1);
        let p2 = lemma_position(vs, dates, i, j2);
        assert(p1 == 0 && p2 == 0);
        assert(vkey(vs[j1]) == vkey(vs[j2]));
    }
}

/// The original comes no later in release order than any version of the
/// same card.
pub proof fn lemma_original_first(vs: Seq<CardVersion>, dates: Seq<(String, String)>, j: int, m: int)
    requires
        keys_unique(vs),
        0 <= j < vs.len(),
        0 <= m < vs.len(),
        identity(vs[m]) == identity(vs[j]),
        !dup_state(vs, dates, j).0,
    ensures
        vle(dates, vkey(vs[j]), vkey(vs[m])),
{
    let sorted = stable_sort(dates, identity_group(vs, identity(vs[j])));
    lemma_sorted_group(vs, dates, j);
    let pj = lemma_position(vs, dates, j, j);
    let pm = lemma_position(vs, dates, j, m);
    assert(pj == 0);
    if pm > 0 {
        assert(vle(dates, sorted[0], sorted[pm]));
    } else {
        lemma_vle_refl(dates, vkey(vs[j]));
    }
}

/// A version's duplicates are exactly the other versions of the same card.
pub proof fn lemma_duplicates_are_others(vs: Seq<CardVersion>, dates: Seq<(String, String)>, i: int, k: VKey)
    requires
        keys_unique(vs),
        0 <= i < vs.len(),
    ensures
        dup_state(vs, dates, i).1.contains(k) <==> k != vkey(vs[i])
            && exists|m: int| 0 <= m < vs.len() && identity(#[trigger] vs[m]) == identity(vs[i]) && vkey(vs[m]) == k,
{
    let sorted = stable_sort(dates, identity_group(vs, identity(vs[i])));
    lemma_sorted_group(vs, dates, i);
    lemma_others(sorted, vkey(vs[i]), k);
    lemma_identity_group_member(vs, identity(vs[i]), k);
    assert(sorted.contains(k) <==> identity_group(vs, identity(vs[i])).contains(k));
}

} // verus!

verus! {

/// Two versions are the same physical card only when they agree on the
/// abstract card, rarity, illustrator, promo stamp and finish: every
/// duplicate of a version, and the earlier version that makes it a reprint,
/// has the same of each (in particular the same foil finish).
pub proof fn lemma_duplicates_share_finish(vs: Seq<CardVersion>, dates: Seq<(String, String)>, i: int)
    requires
        keys_unique(vs),
        0 <= i < vs.len(),
    ensures
        forall|k: VKey| #[trigger] dup_state(vs, dates, i).1.contains(k) ==> exists|m: int|
            0 <= m < vs.len() && vkey(#[trigger] vs[m]) == k && vs[m].is_foil == vs[i].is_foil
                && vs[m].is_promo == vs[i].is_promo && vs[m].card_id == vs[i].card_id
                && vs[m].rarity@ == vs[i].rarity@ && opt_s(vs[m].illustrator) == opt_s(vs[i].illustrator),
        dup_state(vs, dates, i).0 ==> exists|m: int|
            0 <= m < vs.len() && m != i && vkey(#[trigger] vs[m]) != vkey(vs[i]) && vs[m].is_foil == vs[i].is_foil
                && vs[m].is_promo == vs[i].is_promo && vs[m].card_id == vs[i].card_id
                && vs[m].rarity@ == vs[i].rarity@ && opt_s(vs[m].illustrator) == opt_s(vs[i].illustrator)
                && vle(dates, vkey(vs[m]), vkey(vs[i])),
{
    assert forall|k: VKey| #[trigger] dup_state(vs, dates, i).1.contains(k) implies exists|m: int|
        0 <= m < vs.len() && vkey(#[trigger] vs[m]) == k && vs[m].is_foil == vs[i].is_foil
            && vs[m].is_promo == vs[i].is_promo && vs[m].card_id == vs[i].card_id
            && vs[m].rarity@ == vs[i].rarity@ && opt_s(vs[m].illustrator) == opt_s(vs[i].illustrator) by {
        lemma_duplicates_are_others(vs, dates, i, k);
        let m = choose|m: int| 0 <= m < vs.len() && identity(#[trigger] vs[m]) == identity(vs[i]) && vkey(vs[m]) == k;
        assert(identity(vs[m]) == identity(vs[i]));
    }
    if dup_state(vs, dates, i).0 {
        let sorted = stable_sort(dates, identity_group(vs, identity(vs[i])));
        lemma_sorted_group(vs, dates, i);
        let p = lemma_position(vs, dates, i, i);
        assert(p > 0);
        assert(sorted.contains(sorted[0]));
        lemma_identity_group_member(vs, identity(vs[i]), sorted[0]);
        let m = choose|m: int| 0 <= m < vs.len() && identity(#[trigger] vs[m]) == identity(vs[i]) && vkey(vs[m]) == sorted[0];
        assert(sorted[0] != sorted[p]);
        assert(vle(dates, sorted[0], sorted[p]));
        assert(identity(vs[m]) == identity(vs[i]));
        assert(vkey(vs[m]) != vkey(vs[i]));
    }
}

} // verus!
