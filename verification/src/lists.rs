//! Ordered lists of strings and maps held as entry lists: the string order of
//! `str`'s `Ord` (character by character), sorting, sorting without
//! duplicates, and inserting into a map.
use vstd::prelude::*;
use crate::text::{chars_of, string_of};

verus! {

broadcast use vstd::seq_lib::group_to_multiset_ensures;

/// `a <= b` in the order of `str` (lexicographic by character; on UTF-8 this
/// is the byte order that `str`'s `Ord` uses).
pub open spec fn lex_le(a: Seq<char>, b: Seq<char>) -> bool
    decreases a.len(),
{
    if a.len() == 0 {
        true
    } else if b.len() == 0 {
        false
    } else if a[0] != b[0] {
        a[0] < b[0]
    } else {
        lex_le(a.drop_first(), b.drop_first())
    }
}

pub open spec fn lex_lt(a: Seq<char>, b: Seq<char>) -> bool {
    lex_le(a, b) && a != b
}

pub proof fn lemma_lex_total(a: Seq<char>, b: Seq<char>)
    ensures
        lex_le(a, b) || lex_le(b, a),
    decreases a.len(),
{
    if a.len() > 0 && b.len() > 0 && a[0] == b[0] {
        lemma_lex_total(a.drop_first(), b.drop_first());
    }
}

pub proof fn lemma_lex_refl(a: Seq<char>)
    ensures
        lex_le(a, a),
    decreases a.len(),
{
    if a.len() > 0 {
        lemma_lex_refl(a.drop_first());
    }
}

pub proof fn lemma_lex_trans(a: Seq<char>, b: Seq<char>, c: Seq<char>)
    requires
        lex_le(a, b),
        lex_le(b, c),
    ensures
        lex_le(a, c),
    decreases a.len(),
{
    if a.len() > 0 && b.len() > 0 && c.len() > 0 && a[0] == b[0] && b[0] == c[0] {
        lemma_lex_trans(a.drop_first(), b.drop_first(), c.drop_first());
    }
}

pub proof fn lemma_lex_antisym(a: Seq<char>, b: Seq<char>)
    requires
        lex_le(a, b),
        lex_le(b, a),
    ensures
        a == b,
    decreases a.len(),
{
    if a.len() > 0 && b.len() > 0 {
        lemma_lex_antisym(a.drop_first(), b.drop_first());
        assert(a =~= seq![a[0]] + a.drop_first());
        assert(b =~= seq![b[0]] + b.drop_first());
    }
}

pub fn lex_le_exec(a: &[char], b: &[char]) -> (r: bool)
    ensures
        r == lex_le(a@, b@),
{
    let mut i: usize = 0;
    assert(a@.subrange(0, a@.len() as int) =~= a@);
    assert(b@.subrange(0, b@.len() as int) =~= b@);
    while i < a.len() && i < b.len() && a[i] == b[i]
        invariant
            i <= a@.len(),
            i <= b@.len(),
            lex_le(a@, b@) == lex_le(a@.subrange(i as int, a@.len() as int), b@.subrange(i as int, b@.len() as int)),
        decreases a.len() - i,
    {
        let ghost x = a@.subrange(i as int, a@.len() as int);
        let ghost y = b@.subrange(i as int, b@.len() as int);
        assert(x.drop_first() =~= a@.subrange(i + 1, a@.len() as int));
        assert(y.drop_first() =~= b@.subrange(i + 1, b@.len() as int));
        i += 1;
    }
    let ghost x = a@.subrange(i as int, a@.len() as int);
    let ghost y = b@.subrange(i as int, b@.len() as int);
    if i == a.len() {
        assert(x.len() == 0);
        true
    } else if i == b.len() {
        assert(y.len() == 0 && x.len() > 0);
        false
    } else {
        assert(x[0] == a@[i as int] && y[0] == b@[i as int]);
        a[i] < b[i]
    }
}

pub open spec fn strs(v: Seq<String>) -> Seq<Seq<char>> {
    v.map_values(|s: String| s@)
}

/// Non-decreasing in the string order.
pub open spec fn sorted(s: Seq<Seq<char>>) -> bool {
    forall|i: int, j: int| 0 <= i < j < s.len() ==> lex_le(s[i], s[j])
}

/// Strictly increasing in the string order (sorted, each once).
pub open spec fn sorted_distinct(s: Seq<Seq<char>>) -> bool {
    forall|i: int, j: int| 0 <= i < j < s.len() ==> lex_lt(s[i], s[j])
}

fn insert_in_order(v: &mut Vec<String>, x: String)
    requires
        sorted(strs(old(v)@)),
    ensures
        sorted(strs(final(v)@)),
        strs(final(v)@).to_multiset() == strs(old(v)@).to_multiset().insert(x@),
{
    let ghost sv = strs(v@);
    let xc = chars_of(x.as_str());
    let mut p: usize = 0;
    while p < v.len() && lex_le_exec(&chars_of(v[p].as_str()), &xc)
        invariant
            p <= v@.len(),
            v@ == old(v)@,
            sv == strs(v@),
            xc@ == x@,
            forall|k: int| 0 <= k < p ==> lex_le(#[trigger] sv[k], x@),
        decreases v.len() - p,
    {
        p += 1;
    }
    proof {
        if p < sv.len() {
            lemma_lex_total(sv[p as int], x@);
        }
    }
    v.insert(p, x);
    proof {
        let nv = strs(v@);
        assert(nv =~= sv.insert(p as int, x@));
        vstd::seq_lib::to_multiset_insert(sv, p as int, x@);
        assert forall|i: int, j: int| 0 <= i < j < nv.len() implies lex_le(nv[i], nv[j]) by {
            if j < p {
                assert(nv[i] == sv[i] && nv[j] == sv[j]);
            } else if j == p {
                assert(nv[i] == sv[i]);
            } else if i == p {
                assert(nv[j] == sv[j - 1]);
                if j - 1 > p {
                    lemma_lex_trans(x@, sv[p as int], sv[j - 1]);
                }
            } else if i < p {
                assert(nv[i] == sv[i] && nv[j] == sv[j - 1]);
            } else {
                assert(nv[i] == sv[i - 1] && nv[j] == sv[j - 1]);
            }
        }
    }
}

/// The strings sorted in `str` order (`<[String]>::sort`).
pub fn sort_strings(v: &Vec<String>) -> (r: Vec<String>)
    ensures
        sorted(strs(r@)),
        strs(r@).to_multiset() == strs(v@).to_multiset(),
{
    let ghost sv = strs(v@);
    let mut out: Vec<String> = Vec::new();
    let mut i: usize = 0;
    assert(strs(out@) =~= sv.subrange(0, 0));
    while i < v.len()
        invariant
            i <= v@.len(),
            sv == strs(v@),
            sorted(strs(out@)),
            strs(out@).to_multiset() == sv.subrange(0, i as int).to_multiset(),
        decreases v.len() - i,
    {
        proof {
            assert(sv.subrange(0, i + 1) =~= sv.subrange(0, i as int).push(sv[i as int]));
            vstd::seq_lib::to_multiset_build(sv.subrange(0, i as int), sv[i as int]);
        }
        insert_in_order(&mut out, v[i].clone());
        i += 1;
    }
    assert(sv.subrange(0, sv.len() as int) =~= sv);
    out
}

fn insert_new_in_order(v: &mut Vec<String>, x: String)
    requires
        sorted_distinct(strs(old(v)@)),
    ensures
        sorted_distinct(strs(final(v)@)),
        forall|y: Seq<char>| strs(final(v)@).contains(y) <==> (strs(old(v)@).contains(y) || y == x@),
{
    let ghost sv = strs(v@);
    let xc = chars_of(x.as_str());
    let mut p: usize = 0;
    while p < v.len() && lex_le_exec(&chars_of(v[p].as_str()), &xc) && !crate::text::seq_eq(&chars_of(v[p].as_str()), &xc)
        invariant
            p <= v@.len(),
            v@ == old(v)@,
            sv == strs(v@),
            xc@ == x@,
            forall|k: int| 0 <= k < p ==> lex_lt(#[trigger] sv[k], x@),
        decreases v.len() - p,
    {
        p += 1;
    }
    if p < v.len() && crate::text::seq_eq(&chars_of(v[p].as_str()), &xc) {
        assert(sv[p as int] == x@);
        assert forall|y: Seq<char>| strs(v@).contains(y) <==> (sv.contains(y) || y == x@) by {
            if y == x@ {
                assert(sv[p as int] == y);
            }
        }
        return;
    }
    proof {
        if p < sv.len() {
            lemma_lex_total(sv[p as int], x@);
        }
    }
    v.insert(p, x);
    proof {
        let nv = strs(v@);
        assert(nv =~= sv.insert(p as int, x@));
        assert forall|i: int, j: int| 0 <= i < j < nv.len() implies lex_lt(nv[i], nv[j]) by {
            if j < p {
                assert(nv[i] == sv[i] && nv[j] == sv[j]);
            } else if j == p {
                assert(nv[i] == sv[i]);
            } else if i == p {
                assert(nv[j] == sv[j - 1]);
                assert(!lex_le(sv[p as int], x@));
                if j - 1 > p {
                    assert(lex_lt(sv[p as int], sv[j - 1]));
                    lemma_lex_trans(x@, sv[p as int], sv[j - 1]);
                }
            } else if i < p {
                assert(nv[i] == sv[i] && nv[j] == sv[j - 1]);
            } else {
                assert(nv[i] == sv[i - 1] && nv[j] == sv[j - 1]);
            }
        }
        assert forall|y: Seq<char>| nv.contains(y) <==> (sv.contains(y) || y == x@) by {
            if nv.contains(y) {
                let k = choose|k: int| 0 <= k < nv.len() && nv[k] == y;
                if k < p {
                    assert(sv[k] == y);
                } else if k > p {
                    assert(sv[k - 1] == y);
                }
            }
            if sv.contains(y) {
                let k = choose|k: int| 0 <= k < sv.len() && sv[k] == y;
                if k < p {
                    assert(nv[k] == y);
                } else {
                    assert(nv[k + 1] == y);
                }
            }
            if y == x@ {
                assert(nv[p as int] == y);
            }
        }
    }
}

/// The distinct strings, sorted in `str` order (`sort` then `dedup`).
pub fn sort_dedup_strings(v: &Vec<String>) -> (r: Vec<String>)
    ensures
        sorted_distinct(strs(r@)),
        forall|y: Seq<char>| strs(r@).contains(y) <==> strs(v@).contains(y),
{
    let ghost sv = strs(v@);
    let mut out: Vec<String> = Vec::new();
    let mut i: usize = 0;
    assert(strs(out@) =~= Seq::<Seq<char>>::empty());
    while i < v.len()
        invariant
            i <= v@.len(),
            sv == strs(v@),
            sorted_distinct(strs(out@)),
            forall|y: Seq<char>| strs(out@).contains(y) <==> sv.subrange(0, i as int).contains(y),
        decreases v.len() - i,
    {
        let ghost before = strs(out@);
        insert_new_in_order(&mut out, v[i].clone());
        assert forall|y: Seq<char>| strs(out@).contains(y) <==> sv.subrange(0, i + 1).contains(y) by {
            let pre = sv.subrange(0, i as int);
            assert(sv.subrange(0, i + 1) =~= pre.push(sv[i as int]));
            if pre.push(sv[i as int]).contains(y) && y != sv[i as int] {
                let k = choose|k: int| 0 <= k < pre.push(sv[i as int]).len() && pre.push(sv[i as int])[k] == y;
                assert(pre[k] == y);
            }
            if pre.contains(y) {
                let k = choose|k: int| 0 <= k < pre.len() && pre[k] == y;
                assert(pre.push(sv[i as int])[k] == y);
            }
            if y == sv[i as int] {
                assert(pre.push(sv[i as int])[pre.len() as int] == y);
            }
        }
        i += 1;
    }
    assert(sv.subrange(0, sv.len() as int) =~= sv);
    out
}

// ───────────────────────── maps as entry lists ─────────────────────────

/// The map an entry list stands for, the later of two equal keys winning
/// (what collecting pairs into a `HashMap` gives).
pub open spec fn entries_map<V>(es: Seq<(String, V)>) -> Map<Seq<char>, V>
    decreases es.len(),
{
    if es.len() == 0 {
        Map::empty()
    } else {
        entries_map(es.drop_last()).insert(es.last().0@, es.last().1)
    }
}

pub open spec fn keys_distinct<V>(es: Seq<(String, V)>) -> bool {
    forall|i: int, j: int|
        #![trigger es[i], es[j]]
        0 <= i < es.len() && 0 <= j < es.len() && i != j ==> es[i].0@ != es[j].0@
}

proof fn lemma_entries_map_distinct<V>(es: Seq<(String, V)>)
    requires
        keys_distinct(es),
    ensures
        entries_map(es).dom().len() == es.len(),
        entries_map(es).dom().finite(),
        forall|i: int| 0 <= i < es.len() ==> #[trigger] entries_map(es).dom().contains(es[i].0@)
            && entries_map(es)[es[i].0@] == es[i].1,
        forall|k: Seq<char>| #[trigger] entries_map(es).dom().contains(k) ==> exists|i: int| 0 <= i < es.len() && es[i].0@ == k,
    decreases es.len(),
{
    if es.len() > 0 {
        let pre = es.drop_last();
        assert(keys_distinct(pre)) by {
            assert forall|i: int, j: int| 0 <= i < pre.len() && 0 <= j < pre.len() && i != j implies pre[i].0@ != pre[j].0@ by {
                assert(pre[i] == es[i] && pre[j] == es[j]);
            }
        }
        lemma_entries_map_distinct(pre);
        let last = es.last();
        assert(!entries_map(pre).dom().contains(last.0@)) by {
            if entries_map(pre).dom().contains(last.0@) {
                let i = choose|i: int| 0 <= i < pre.len() && pre[i].0@ == last.0@;
                assert(es[i].0@ == es[es.len() - 1].0@);
            }
        }
        assert forall|i: int| 0 <= i < es.len() implies #[trigger] entries_map(es).dom().contains(es[i].0@)
            && entries_map(es)[es[i].0@] == es[i].1 by {
            if i < es.len() - 1 {
                assert(pre[i] == es[i]);
                assert(es[i].0@ != last.0@);
            }
        }
        assert forall|k: Seq<char>| #[trigger] entries_map(es).dom().contains(k) implies exists|i: int| 0 <= i < es.len() && es[i].0@ == k by {
            if k != last.0@ {
                assert(entries_map(pre).dom().contains(k));
                let i = choose|i: int| 0 <= i < pre.len() && pre[i].0@ == k;
                assert(es[i] == pre[i]);
            } else {
                assert(es[es.len() - 1].0@ == k);
            }
        }
    }
}

proof fn lemma_entries_map_update<V>(s0: Seq<(String, V)>, i: int, kv: (String, V))
    requires
        keys_distinct(s0),
        0 <= i < s0.len(),
        s0[i].0@ == kv.0@,
    ensures
        entries_map(s0.update(i, kv)) == entries_map(s0).insert(kv.0@, kv.1),
    decreases s0.len(),
{
    let s1 = s0.update(i, kv);
    let pre = s0.drop_last();
    if i == s0.len() - 1 {
        assert(s1.drop_last() =~= pre);
        assert(entries_map(s1) =~= entries_map(s0).insert(kv.0@, kv.1));
    } else {
        assert(keys_distinct(pre)) by {
            assert forall|a: int, b: int| 0 <= a < pre.len() && 0 <= b < pre.len() && a != b implies pre[a].0@ != pre[b].0@ by {
                assert(pre[a] == s0[a] && pre[b] == s0[b]);
            }
        }
        lemma_entries_map_update(pre, i, kv);
        assert(s1.drop_last() =~= pre.update(i, kv));
        assert(s0[i].0@ != s0.last().0@);
        assert(s1.last() == s0.last());
        assert(entries_map(s1) =~= entries_map(s0).insert(kv.0@, kv.1));
    }
}

/// Inserts or replaces the entry for `k`, keeping keys distinct.
pub fn upsert<V>(es: &mut Vec<(String, V)>, k: String, v: V)
    requires
        keys_distinct(old(es)@),
    ensures
        keys_distinct(final(es)@),
        entries_map(final(es)@) == entries_map(old(es)@).insert(k@, v),
{
    let ghost s0 = es@;
    assert(keys_distinct(s0));
    let kc = chars_of(k.as_str());
    let mut i: usize = 0;
    while i < es.len()
        invariant
            i <= es@.len(),
            es@ == s0,
            s0 == old(es)@,
            keys_distinct(s0),
            kc@ == k@,
            forall|j: int| 0 <= j < i ==> (#[trigger] es@[j]).0@ != k@,
        decreases es.len() - i,
    {
        if crate::text::seq_eq(&chars_of(es[i].0.as_str()), &kc) {
            assert(s0[i as int].0@ == k@);
            let ghost kv = (k, v);
            es.set(i, (k, v));
            proof {
                let s1 = es@;
                assert(s1 == s0.update(i as int, kv));
                assert(keys_distinct(s1)) by {
                    assert forall|a: int, b: int| 0 <= a < s1.len() && 0 <= b < s1.len() && a != b implies s1[a].0@ != s1[b].0@ by {
                        if a != i && b != i {
                            assert(s1[a] == s0[a] && s1[b] == s0[b]);
                        } else if a == i {
                            assert(s1[b] == s0[b]);
                            assert(s0[a].0@ != s0[b].0@);
                        } else {
                            assert(s1[a] == s0[a]);
                            assert(s0[a].0@ != s0[b].0@);
                        }
                    }
                }
                lemma_entries_map_update(s0, i as int, kv);
                assert(kv.0@ == k@ && kv.1 == v);
                assert(s0 == old(es)@);
                assert(entries_map(s1) == entries_map(old(es)@).insert(k@, v));
            }
            return;
        }
        i += 1;
    }
    es.push((k, v));
    proof {
        let s1 = es@;
        assert(s1.drop_last() =~= s0);
        assert(keys_distinct(s1)) by {
            assert forall|a: int, b: int| 0 <= a < s1.len() && 0 <= b < s1.len() && a != b implies s1[a].0@ != s1[b].0@ by {
                if a < s0.len() && b < s0.len() {
                    assert(s1[a] == s0[a] && s1[b] == s0[b]);
                } else if a < s0.len() {
                    assert(s1[a] == s0[a]);
                } else {
                    assert(s1[b] == s0[b]);
                }
            }
        }
    }
}

/// The value of the first entry with key `k`.
pub fn lookup<'a, V>(es: &'a Vec<(String, V)>, k: &str) -> (r: Option<&'a V>)
    ensures
        keys_distinct(es@) ==> match r {
            Some(v) => entries_map(es@).dom().contains(k@) && entries_map(es@)[k@] == *v,
            None => !entries_map(es@).dom().contains(k@),
        },
{
    let kc = chars_of(k);
    let mut i: usize = 0;
    while i < es.len()
        invariant
            i <= es@.len(),
            kc@ == k@,
            forall|j: int| 0 <= j < i ==> (#[trigger] es@[j]).0@ != k@,
        decreases es.len() - i,
    {
        if crate::text::seq_eq(&chars_of(es[i].0.as_str()), &kc) {
            proof {
                if keys_distinct(es@) {
                    lemma_entries_map_distinct(es@);
                }
            }
            return Some(&es[i].1);
        }
        i += 1;
    }
    proof {
        if keys_distinct(es@) {
            lemma_entries_map_distinct(es@);
            if entries_map(es@).dom().contains(k@) {
                let j = choose|j: int| 0 <= j < es@.len() && es@[j].0@ == k@;
                assert(es@[j].0@ != k@);
            }
        }
    }
    None
}


/// The value of the first entry whose key is `k`.
pub open spec fn first_value<V>(es: Seq<(String, V)>, k: Seq<char>) -> Option<V>
    decreases es.len(),
{
    if es.len() == 0 {
        None
    } else if es[0].0@ == k {
        Some(es[0].1)
    } else {
        first_value(es.drop_first(), k)
    }
}

/// Looks a key up in an entry list (first entry with that key).
pub fn get_value<'a, V>(es: &'a Vec<(String, V)>, k: &[char]) -> (r: Option<&'a V>)
    ensures
        match r {
            Some(v) => first_value(es@, k@) == Some(*v),
            None => first_value(es@, k@) is None,
        },
{
    let mut i: usize = 0;
    assert(es@.subrange(0, es@.len() as int) =~= es@);
    while i < es.len()
        invariant
            i <= es@.len(),
            first_value(es@, k@) == first_value(es@.subrange(i as int, es@.len() as int), k@),
        decreases es.len() - i,
    {
        let ghost rest = es@.subrange(i as int, es@.len() as int);
        assert(rest.drop_first() =~= es@.subrange(i + 1, es@.len() as int));
        assert(rest[0] == es@[i as int]);
        if crate::text::seq_eq(&chars_of(es[i].0.as_str()), k) {
            return Some(&es[i].1);
        }
        i += 1;
    }
    assert(es@.subrange(i as int, es@.len() as int) =~= Seq::<(String, V)>::empty());
    None
}

/// With distinct keys, the first entry for a key is the map's value.
pub proof fn lemma_first_value_map<V>(es: Seq<(String, V)>, k: Seq<char>)
    requires
        keys_distinct(es),
    ensures
        first_value(es, k) == (if entries_map(es).dom().contains(k) {
            Some(entries_map(es)[k])
        } else {
            None
        }),
    decreases es.len(),
{
    lemma_entries_map_distinct(es);
    if es.len() > 0 {
        let rest = es.drop_first();
        assert(keys_distinct(rest)) by {
            assert forall|a: int, b: int| 0 <= a < rest.len() && 0 <= b < rest.len() && a != b implies rest[a].0@ != rest[b].0@ by {
                assert(rest[a] == es[a + 1] && rest[b] == es[b + 1]);
            }
        }
        lemma_first_value_map(rest, k);
        lemma_entries_map_distinct(rest);
        if es[0].0@ != k {
            if entries_map(rest).dom().contains(k) {
                let j = choose|j: int| 0 <= j < rest.len() && rest[j].0@ == k;
                assert(es[j + 1] == rest[j]);
                assert(entries_map(es).dom().contains(es[j + 1].0@));
                assert(entries_map(rest).dom().contains(rest[j].0@));
                assert(entries_map(es)[k] == es[j + 1].1);
            }
            if entries_map(es).dom().contains(k) {
                let j = choose|j: int| 0 <= j < es.len() && es[j].0@ == k;
                assert(j != 0);
                assert(rest[j - 1] == es[j]);
                assert(entries_map(rest).dom().contains(rest[j - 1].0@));
            }
        }
    }
}

} // verus!
