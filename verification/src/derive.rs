//! Deriving per-card pull rates from per-rarity rates. A card's rate in a
//! slot is its rarity's rate shared evenly among the non-foil cards of that
//! rarity in the slot; foil cards share one "mirror" rate per slot, taken
//! from a rarity whose cards are all foil, and a rarity mixing both finishes
//! keeps the residual for its non-foil cards.
use vstd::prelude::*;
use crate::decimal::{Dec, dec_wf, trunc_value, dec_to_i64, dec_from_i64};
use crate::models::{Rate, RaritySlotRates, PackVariantRates, PackPullRates};
use crate::rates::{
    reduce_spec, reduce_pair, int_rate, card_rates_view, rarity_table_view, rarity_entries_view,
    max_card_len, max_slot_len, variants_view, VariantView, iabs, lemma_reduce_bounds, clone_rate,
    clone_opt_rate,
};
use crate::text::{chars_of, seq_eq};

verus! {

// ───────────────────────── lookups ─────────────────────────

/// The value of the first entry whose key is `k`.
pub open spec fn lookup<V>(m: Seq<(String, V)>, k: Seq<char>) -> Option<V>
    decreases m.len(),
{
    if m.len() == 0 {
        None
    } else {
        match lookup(m.drop_last(), k) {
            Some(v) => Some(v),
            None => if m.last().0@ == k {
                Some(m.last().1)
            } else {
                None
            },
        }
    }
}

/// The rarity recorded for a card, or the empty code.
pub open spec fn rarity_of(rm: Seq<(String, String)>, c: Seq<char>) -> Seq<char> {
    match lookup(rm, c) {
        Some(r) => r@,
        None => Seq::empty(),
    }
}

/// Whether a card is recorded as foil (not foil when unrecorded).
pub open spec fn foil_of(fm: Seq<(String, bool)>, c: Seq<char>) -> bool {
    match lookup(fm, c) {
        Some(b) => b,
        None => false,
    }
}

/// The rates of a rarity in one slot's rarity list.
pub open spec fn rarity_lookup(s: Seq<(Seq<char>, RaritySlotRates)>, k: Seq<char>) -> Option<RaritySlotRates>
    decreases s.len(),
{
    if s.len() == 0 {
        None
    } else {
        match rarity_lookup(s.drop_last(), k) {
            Some(v) => Some(v),
            None => if s.last().0 == k {
                Some(s.last().1)
            } else {
                None
            },
        }
    }
}

proof fn lemma_lookup_prefix<V>(m: Seq<(String, V)>, i: int, k: Seq<char>)
    requires
        0 <= i <= m.len(),
        lookup(m.subrange(0, i), k) is Some,
    ensures
        lookup(m, k) == lookup(m.subrange(0, i), k),
    decreases m.len() - i,
{
    if i < m.len() {
        assert(m.subrange(0, i + 1).drop_last() =~= m.subrange(0, i));
        lemma_lookup_prefix(m, i + 1, k);
    } else {
        assert(m.subrange(0, i) =~= m);
    }
}

pub fn find_rarity(rm: &Vec<(String, String)>, c: &[char]) -> (r: Vec<char>)
    ensures
        r@ == rarity_of(rm@, c@),
{
    let mut i: usize = 0;
    while i < rm.len()
        invariant
            i <= rm@.len(),
            lookup(rm@.subrange(0, i as int), c@) is None,
        decreases rm.len() - i,
    {
        assert(rm@.subrange(0, i + 1).drop_last() =~= rm@.subrange(0, i as int));
        let k = chars_of(rm[i].0.as_str());
        if seq_eq(&k, c) {
            proof {
                lemma_lookup_prefix(rm@, i + 1, c@);
            }
            return chars_of(rm[i].1.as_str());
        }
        i += 1;
    }
    assert(rm@.subrange(0, rm@.len() as int) =~= rm@);
    Vec::new()
}

pub fn find_foil(fm: &Vec<(String, bool)>, c: &[char]) -> (r: bool)
    ensures
        r == foil_of(fm@, c@),
{
    let mut i: usize = 0;
    while i < fm.len()
        invariant
            i <= fm@.len(),
            lookup(fm@.subrange(0, i as int), c@) is None,
        decreases fm.len() - i,
    {
        assert(fm@.subrange(0, i + 1).drop_last() =~= fm@.subrange(0, i as int));
        let k = chars_of(fm[i].0.as_str());
        if seq_eq(&k, c) {
            proof {
                lemma_lookup_prefix(fm@, i + 1, c@);
            }
            return fm[i].1;
        }
        i += 1;
    }
    assert(fm@.subrange(0, fm@.len() as int) =~= fm@);
    false
}

proof fn lemma_rarity_lookup_prefix(s: Seq<(Seq<char>, RaritySlotRates)>, i: int, k: Seq<char>)
    requires
        0 <= i <= s.len(),
        rarity_lookup(s.subrange(0, i), k) is Some,
    ensures
        rarity_lookup(s, k) == rarity_lookup(s.subrange(0, i), k),
    decreases s.len() - i,
{
    if i < s.len() {
        assert(s.subrange(0, i + 1).drop_last() =~= s.subrange(0, i));
        lemma_rarity_lookup_prefix(s, i + 1, k);
    } else {
        assert(s.subrange(0, i) =~= s);
    }
}

pub fn find_rarity_rates<'a>(slot: &'a Vec<(String, RaritySlotRates)>, k: &[char]) -> (r: Option<&'a RaritySlotRates>)
    ensures
        match r {
            Some(x) => rarity_lookup(rarity_entries_view(slot@), k@) == Some(*x),
            None => rarity_lookup(rarity_entries_view(slot@), k@) is None,
        },
{
    let ghost v = rarity_entries_view(slot@);
    let mut i: usize = 0;
    while i < slot.len()
        invariant
            i <= slot@.len(),
            v == rarity_entries_view(slot@),
            rarity_lookup(v.subrange(0, i as int), k@) is None,
        decreases slot.len() - i,
    {
        assert(v.subrange(0, i + 1).drop_last() =~= v.subrange(0, i as int));
        let key = chars_of(slot[i].0.as_str());
        if seq_eq(&key, k) {
            proof {
                lemma_rarity_lookup_prefix(v, i + 1, k@);
            }
            return Some(&slot[i].1);
        }
        i += 1;
    }
    assert(v.subrange(0, slot@.len() as int) =~= v);
    None
}

// ───────────────────────── counting ─────────────────────────

pub open spec fn present(c: (Seq<char>, Seq<Option<Rate>>), k: int) -> bool {
    0 <= k < c.1.len() && c.1[k] is Some
}

/// Number of cards that can appear in slot `k`, have rarity `r`, and have
/// the given finish.
pub open spec fn count_at(
    cards: Seq<(Seq<char>, Seq<Option<Rate>>)>,
    k: int,
    r: Seq<char>,
    foil: bool,
    rm: Seq<(String, String)>,
    fm: Seq<(String, bool)>,
) -> nat
    decreases cards.len(),
{
    if cards.len() == 0 {
        0
    } else {
        let p = count_at(cards.drop_last(), k, r, foil, rm, fm);
        let c = cards.last();
        if present(c, k) && rarity_of(rm, c.0) == r && foil_of(fm, c.0) == foil {
            p + 1
        } else {
            p
        }
    }
}

proof fn lemma_count_bound(
    cards: Seq<(Seq<char>, Seq<Option<Rate>>)>,
    k: int,
    r: Seq<char>,
    foil: bool,
    rm: Seq<(String, String)>,
    fm: Seq<(String, bool)>,
)
    ensures
        count_at(cards, k, r, foil, rm, fm) <= cards.len(),
    decreases cards.len(),
{
    if cards.len() > 0 {
        lemma_count_bound(cards.drop_last(), k, r, foil, rm, fm);
    }
}

fn count_cards(
    cards: &Vec<(String, Vec<Option<Rate>>)>,
    k: usize,
    r: &[char],
    foil: bool,
    rm: &Vec<(String, String)>,
    fm: &Vec<(String, bool)>,
) -> (n: usize)
    ensures
        n as nat == count_at(card_rates_view(cards@), k as int, r@, foil, rm@, fm@),
{
    let ghost cv = card_rates_view(cards@);
    let mut n: usize = 0;
    let mut i: usize = 0;
    while i < cards.len()
        invariant
            i <= cards@.len(),
            cv == card_rates_view(cards@),
            n as nat == count_at(cv.subrange(0, i as int), k as int, r@, foil, rm@, fm@),
            n <= i,
        decreases cards.len() - i,
    {
        assert(cv.subrange(0, i + 1).drop_last() =~= cv.subrange(0, i as int));
        assert(cv.subrange(0, i + 1).last() == cv[i as int]);
        let c = &cards[i];
        if k < c.1.len() && c.1[k].is_some() {
            let ck = chars_of(c.0.as_str());
            let cr = find_rarity(rm, &ck);
            if seq_eq(&cr, r) && find_foil(fm, &ck) == foil {
                n += 1;
            }
        }
        i += 1;
    }
    assert(cv.subrange(0, cards@.len() as int) =~= cv);
    n
}

// ───────────────────────── checked arithmetic ─────────────────────────

pub open spec fn in_i64(x: int) -> bool {
    i64::MIN <= x <= i64::MAX
}

pub open spec fn mul_fit(a: Option<int>, b: Option<int>) -> Option<int> {
    match (a, b) {
        (Some(x), Some(y)) => if in_i64(x * y) { Some(x * y) } else { None },
        _ => None,
    }
}

pub open spec fn sub_fit(a: Option<int>, b: Option<int>) -> Option<int> {
    match (a, b) {
        (Some(x), Some(y)) => if in_i64(x - y) { Some(x - y) } else { None },
        _ => None,
    }
}

/// A fraction reduced in `i64` arithmetic: absent when a part is missing,
/// is `i64::MIN`, or both parts are zero.
pub open spec fn reduce64(n: Option<int>, d: Option<int>) -> Option<(int, int)> {
    match (n, d) {
        (Some(x), Some(y)) => if x == i64::MIN || y == i64::MIN { None } else { reduce_spec(x, y) },
        _ => None,
    }
}

/// A rate's parts as integers (`i64::try_from` on each decimal).
pub open spec fn rate_ints(r: Rate) -> Option<(int, int)> {
    let n = trunc_value(r.numerator.mantissa as int, r.numerator.scale as nat);
    let d = trunc_value(r.denominator.mantissa as int, r.denominator.scale as nat);
    if in_i64(n) && in_i64(d) {
        Some((n, d))
    } else {
        None
    }
}

fn cmul(a: Option<i64>, b: Option<i64>) -> (r: Option<i64>)
    ensures
        opt_int(r) == mul_fit(opt_int(a), opt_int(b)),
{
    match (a, b) {
        (Some(x), Some(y)) => x.checked_mul(y),
        _ => None,
    }
}

fn csub(a: Option<i64>, b: Option<i64>) -> (r: Option<i64>)
    ensures
        opt_int(r) == sub_fit(opt_int(a), opt_int(b)),
{
    match (a, b) {
        (Some(x), Some(y)) => x.checked_sub(y),
        _ => None,
    }
}

pub open spec fn opt_int(a: Option<i64>) -> Option<int> {
    match a {
        Some(x) => Some(x as int),
        None => None,
    }
}

pub open spec fn opt_pair(a: Option<(i64, i64)>) -> Option<(int, int)> {
    match a {
        Some((x, y)) => Some((x as int, y as int)),
        None => None,
    }
}

fn creduce(n: Option<i64>, d: Option<i64>) -> (r: Option<(i64, i64)>)
    ensures
        opt_pair(r) == reduce64(opt_int(n), opt_int(d)),
{
    match (n, d) {
        (Some(x), Some(y)) => {
            if x == i64::MIN || y == i64::MIN {
                None
            } else {
                reduce_pair(x, y)
            }
        },
        _ => None,
    }
}

fn rate_to_ints(r: &Rate) -> (p: Option<(i64, i64)>)
    requires
        dec_wf(r.numerator),
        dec_wf(r.denominator),
    ensures
        opt_pair(p) == rate_ints(*r),
{
    match (dec_to_i64(&r.numerator), dec_to_i64(&r.denominator)) {
        (Some(n), Some(d)) => Some((n, d)),
        _ => None,
    }
}

} // verus!

verus! {

// ───────────────────────── the derivation ─────────────────────────

pub type CardTable = Seq<(Seq<char>, Seq<Option<Rate>>)>;

pub type RarityTable = Seq<Seq<(Seq<char>, RaritySlotRates)>>;

pub open spec fn slot_rarity(rt: RarityTable, k: int) -> Seq<(Seq<char>, RaritySlotRates)> {
    if 0 <= k < rt.len() {
        rt[k]
    } else {
        Seq::empty()
    }
}

/// A foil card's candidate mirror rate in slot `k`: its rarity's total rate
/// shared among that rarity's foil cards, when every card of that rarity in
/// the slot is foil.
pub open spec fn mirror_candidate(
    all: CardTable,
    rt: RarityTable,
    k: int,
    c: (Seq<char>, Seq<Option<Rate>>),
    rm: Seq<(String, String)>,
    fm: Seq<(String, bool)>,
) -> Option<(int, int)> {
    let r = rarity_of(rm, c.0);
    if present(c, k) && foil_of(fm, c.0) && count_at(all, k, r, false, rm, fm) == 0 {
        match rarity_lookup(slot_rarity(rt, k), r) {
            Some(rr) => match rr.normal {
                Some(total) => match rate_ints(total) {
                    Some((rn, rd)) => reduce64(Some(rn), mul_fit(Some(rd), Some(count_at(all, k, r, true, rm, fm) as i64 as int))),
                    None => None,
                },
                None => None,
            },
            None => None,
        }
    } else {
        None
    }
}

pub open spec fn mirror_in(
    prefix: CardTable,
    all: CardTable,
    rt: RarityTable,
    k: int,
    rm: Seq<(String, String)>,
    fm: Seq<(String, bool)>,
) -> Option<(int, int)>
    decreases prefix.len(),
{
    if prefix.len() == 0 {
        None
    } else {
        match mirror_in(prefix.drop_last(), all, rt, k, rm, fm) {
            Some(x) => Some(x),
            None => mirror_candidate(all, rt, k, prefix.last(), rm, fm),
        }
    }
}

/// The slot's mirror rate: the candidate of the first card that gives one.
pub open spec fn mirror_rate(all: CardTable, rt: RarityTable, k: int, rm: Seq<(String, String)>, fm: Seq<(String, bool)>) -> Option<(int, int)> {
    mirror_in(all, all, rt, k, rm, fm)
}

/// The derived rate of card `c` in slot `k`, when it can be derived.
pub open spec fn derived_rate(
    all: CardTable,
    rt: RarityTable,
    k: int,
    c: (Seq<char>, Seq<Option<Rate>>),
    rm: Seq<(String, String)>,
    fm: Seq<(String, bool)>,
) -> Option<(int, int)> {
    let r = rarity_of(rm, c.0);
    let mirror = mirror_rate(all, rt, k, rm, fm);
    if foil_of(fm, c.0) {
        mirror
    } else {
        match rarity_lookup(slot_rarity(rt, k), r) {
            None => None,
            Some(rr) => match rr.normal {
                None => None,
                Some(total) => match rate_ints(total) {
                    None => None,
                    Some((rn, rd)) => {
                        let nf = count_at(all, k, r, false, rm, fm) as i64 as int;
                        let f = count_at(all, k, r, true, rm, fm) as i64 as int;
                        if f > 0 {
                            match mirror {
                                None => None,
                                Some((mn, md)) => reduce64(
                                    sub_fit(mul_fit(Some(rn), Some(md)), mul_fit(mul_fit(Some(rd), Some(f)), Some(mn))),
                                    mul_fit(mul_fit(Some(rd), Some(md)), Some(nf)),
                                ),
                            }
                        } else {
                            reduce64(Some(rn), mul_fit(Some(rd), Some(nf)))
                        }
                    },
                },
            },
        }
    }
}

pub open spec fn fixed_slot(
    all: CardTable,
    rt: RarityTable,
    k: int,
    c: (Seq<char>, Seq<Option<Rate>>),
    rm: Seq<(String, String)>,
    fm: Seq<(String, bool)>,
) -> Option<Rate> {
    if present(c, k) {
        match derived_rate(all, rt, k, c, rm, fm) {
            Some((a, b)) => Some(int_rate(a as i64, b as i64)),
            None => c.1[k],
        }
    } else {
        c.1[k]
    }
}

pub open spec fn fixed_card(
    all: CardTable,
    rt: RarityTable,
    c: (Seq<char>, Seq<Option<Rate>>),
    rm: Seq<(String, String)>,
    fm: Seq<(String, bool)>,
) -> (Seq<char>, Seq<Option<Rate>>) {
    (c.0, Seq::new(c.1.len(), |k: int| fixed_slot(all, rt, k, c, rm, fm)))
}

/// A rarity's slot rate split by finish: all-foil rarities move their rate
/// to `foil`; mixed rarities give their foil cards the mirror rate and keep
/// the rest as `normal`.
pub open spec fn split_entry(
    all: CardTable,
    rt: RarityTable,
    k: int,
    e: (Seq<char>, RaritySlotRates),
    rm: Seq<(String, String)>,
    fm: Seq<(String, bool)>,
) -> (Seq<char>, RaritySlotRates) {
    let fc = count_at(all, k, e.0, true, rm, fm) as i64 as int;
    let nfc = count_at(all, k, e.0, false, rm, fm) as i64 as int;
    if fc == 0 {
        e
    } else {
        match e.1.normal {
            None => e,
            Some(total) => if nfc == 0 {
                (e.0, RaritySlotRates { normal: None, foil: Some(total) })
            } else {
                match mirror_rate(all, rt, k, rm, fm) {
                    None => e,
                    Some((mn, md)) => match rate_ints(total) {
                        None => e,
                        Some((rn, rd)) => {
                            let foil = reduce64(mul_fit(Some(fc), Some(mn)), Some(md));
                            let normal = reduce64(
                                sub_fit(mul_fit(Some(rn), Some(md)), mul_fit(mul_fit(Some(rd), Some(fc)), Some(mn))),
                                mul_fit(Some(rd), Some(md)),
                            );
                            match (foil, normal) {
                                (Some((fa, fb)), Some((na, nb))) => (e.0, RaritySlotRates {
                                    normal: Some(int_rate(na as i64, nb as i64)),
                                    foil: Some(int_rate(fa as i64, fb as i64)),
                                }),
                                _ => e,
                            }
                        },
                    },
                }
            },
        }
    }
}

/// A variant after its card rates are derived from its rarity rates.
pub open spec fn fixed_variant(v: VariantView, rm: Seq<(String, String)>, fm: Seq<(String, bool)>) -> VariantView {
    let all = v.3;
    let rt = v.2;
    (
        v.0,
        v.1,
        Seq::new(rt.len(), |k: int| Seq::new(rt[k].len(), |j: int| split_entry(all, rt, k, rt[k][j], rm, fm))),
        Seq::new(all.len(), |i: int| fixed_card(all, rt, all[i], rm, fm)),
    )
}

pub open spec fn rate_wf(r: Rate) -> bool {
    dec_wf(r.numerator) && dec_wf(r.denominator)
}

pub open spec fn opt_wf(r: Option<Rate>) -> bool {
    match r {
        Some(x) => rate_wf(x),
        None => true,
    }
}

pub open spec fn variant_rates_wf(v: VariantView) -> bool {
    &&& forall|k: int, j: int| 0 <= k < v.2.len() && 0 <= j < v.2[k].len() ==> opt_wf(#[trigger] v.2[k][j].1.normal) && opt_wf(v.2[k][j].1.foil)
    &&& forall|i: int, k: int| 0 <= i < v.3.len() && 0 <= k < v.3[i].1.len() ==> opt_wf(#[trigger] v.3[i].1[k])
}

} // verus!

verus! {

pub open spec fn rarity_tables_wf(rt: RarityTable) -> bool {
    forall|k: int, j: int| 0 <= k < rt.len() && 0 <= j < rt[k].len() ==> opt_wf(#[trigger] rt[k][j].1.normal) && opt_wf(rt[k][j].1.foil)
}

fn mirror_at(
    cards: &Vec<(String, Vec<Option<Rate>>)>,
    rarity: &Vec<Vec<(String, RaritySlotRates)>>,
    k: usize,
    rm: &Vec<(String, String)>,
    fm: &Vec<(String, bool)>,
) -> (r: Option<(i64, i64)>)
    requires
        rarity_tables_wf(rarity_table_view(rarity@)),
    ensures
        opt_pair(r) == mirror_rate(card_rates_view(cards@), rarity_table_view(rarity@), k as int, rm@, fm@),
{
    let ghost cv = card_rates_view(cards@);
    let ghost rv = rarity_table_view(rarity@);
    let mut i: usize = 0;
    while i < cards.len()
        invariant
            i <= cards@.len(),
            cv == card_rates_view(cards@),
            rv == rarity_table_view(rarity@),
            rarity_tables_wf(rv),
            mirror_in(cv.subrange(0, i as int), cv, rv, k as int, rm@, fm@) is None,
        decreases cards.len() - i,
    {
        assert(cv.subrange(0, i + 1).drop_last() =~= cv.subrange(0, i as int));
        assert(cv.subrange(0, i + 1).last() == cv[i as int]);
        let c = &cards[i];
        let cand = candidate_at(cards, rarity, k, i, rm, fm);
        if cand.is_some() {
            proof {
                lemma_mirror_prefix(cv, i + 1, cv, rv, k as int, rm@, fm@);
            }
            return cand;
        }
        i += 1;
    }
    assert(cv.subrange(0, cards@.len() as int) =~= cv);
    None
}

proof fn lemma_mirror_prefix(
    cs: CardTable,
    i: int,
    all: CardTable,
    rt: RarityTable,
    k: int,
    rm: Seq<(String, String)>,
    fm: Seq<(String, bool)>,
)
    requires
        0 <= i <= cs.len(),
        mirror_in(cs.subrange(0, i), all, rt, k, rm, fm) is Some,
    ensures
        mirror_in(cs, all, rt, k, rm, fm) == mirror_in(cs.subrange(0, i), all, rt, k, rm, fm),
    decreases cs.len() - i,
{
    if i < cs.len() {
        assert(cs.subrange(0, i + 1).drop_last() =~= cs.subrange(0, i));
        lemma_mirror_prefix(cs, i + 1, all, rt, k, rm, fm);
    } else {
        assert(cs.subrange(0, i) =~= cs);
    }
}

fn candidate_at(
    cards: &Vec<(String, Vec<Option<Rate>>)>,
    rarity: &Vec<Vec<(String, RaritySlotRates)>>,
    k: usize,
    i: usize,
    rm: &Vec<(String, String)>,
    fm: &Vec<(String, bool)>,
) -> (r: Option<(i64, i64)>)
    requires
        i < cards@.len(),
        rarity_tables_wf(rarity_table_view(rarity@)),
    ensures
        opt_pair(r) == mirror_candidate(card_rates_view(cards@), rarity_table_view(rarity@), k as int, card_rates_view(cards@)[i as int], rm@, fm@),
{
    let ghost cv = card_rates_view(cards@);
    let ghost rv = rarity_table_view(rarity@);
    let c = &cards[i];
    assert(cv[i as int] == (c.0@, c.1@));
    if !(k < c.1.len() && c.1[k].is_some()) {
        return None;
    }
    let ck = chars_of(c.0.as_str());
    if !find_foil(fm, &ck) {
        return None;
    }
    let r = find_rarity(rm, &ck);
    if count_cards(cards, k, &r, false, rm, fm) != 0 {
        return None;
    }
    if k >= rarity.len() {
        return None;
    }
    assert(slot_rarity(rv, k as int) == rarity_entries_view(rarity@[k as int]@));
    let rr = match find_rarity_rates(&rarity[k], &r) {
        Some(x) => x,
        None => return None,
    };
    let total = match &rr.normal {
        Some(t) => t,
        None => return None,
    };
    proof {
        lemma_rarity_lookup_mem(rarity_entries_view(rarity@[k as int]@), r@);
        let j = choose|j: int| 0 <= j < rarity_entries_view(rarity@[k as int]@).len() && rarity_entries_view(rarity@[k as int]@)[j].1 == *rr;
        assert(rv[k as int][j] == rarity_entries_view(rarity@[k as int]@)[j]);
    }
    let (rn, rd) = match rate_to_ints(total) {
        Some(p) => p,
        None => return None,
    };
    let fc = count_cards(cards, k, &r, true, rm, fm);
    creduce(Some(rn), cmul(Some(rd), Some(fc as i64)))
}

proof fn lemma_rarity_lookup_mem(s: Seq<(Seq<char>, RaritySlotRates)>, k: Seq<char>)
    requires
        rarity_lookup(s, k) is Some,
    ensures
        exists|j: int| 0 <= j < s.len() && s[j].1 == rarity_lookup(s, k)->0,
    decreases s.len(),
{
    if rarity_lookup(s.drop_last(), k) is Some {
        lemma_rarity_lookup_mem(s.drop_last(), k);
        let j = choose|j: int| 0 <= j < s.drop_last().len() && s.drop_last()[j].1 == rarity_lookup(s.drop_last(), k)->0;
        assert(s[j] == s.drop_last()[j]);
    } else {
        assert(s[s.len() - 1] == s.last());
    }
}

} // verus!

verus! {

fn derive_at(
    cards: &Vec<(String, Vec<Option<Rate>>)>,
    rarity: &Vec<Vec<(String, RaritySlotRates)>>,
    k: usize,
    i: usize,
    mirror: Option<(i64, i64)>,
    rm: &Vec<(String, String)>,
    fm: &Vec<(String, bool)>,
) -> (r: Option<(i64, i64)>)
    requires
        i < cards@.len(),
        rarity_tables_wf(rarity_table_view(rarity@)),
        opt_pair(mirror) == mirror_rate(card_rates_view(cards@), rarity_table_view(rarity@), k as int, rm@, fm@),
    ensures
        opt_pair(r) == derived_rate(card_rates_view(cards@), rarity_table_view(rarity@), k as int, card_rates_view(cards@)[i as int], rm@, fm@),
{
    let ghost cv = card_rates_view(cards@);
    let ghost rv = rarity_table_view(rarity@);
    let c = &cards[i];
    assert(cv[i as int] == (c.0@, c.1@));
    let ck = chars_of(c.0.as_str());
    if find_foil(fm, &ck) {
        return mirror;
    }
    let r = find_rarity(rm, &ck);
    if k >= rarity.len() {
        return None;
    }
    assert(slot_rarity(rv, k as int) == rarity_entries_view(rarity@[k as int]@));
    let rr = match find_rarity_rates(&rarity[k], &r) {
        Some(x) => x,
        None => return None,
    };
    let total = match &rr.normal {
        Some(t) => t,
        None => return None,
    };
    proof {
        lemma_rarity_lookup_mem(rarity_entries_view(rarity@[k as int]@), r@);
        let j = choose|j: int| 0 <= j < rarity_entries_view(rarity@[k as int]@).len() && rarity_entries_view(rarity@[k as int]@)[j].1 == *rr;
        assert(rv[k as int][j] == rarity_entries_view(rarity@[k as int]@)[j]);
    }
    let (rn, rd) = match rate_to_ints(total) {
        Some(p) => p,
        None => return None,
    };
    let nf = count_cards(cards, k, &r, false, rm, fm) as i64;
    let f = count_cards(cards, k, &r, true, rm, fm) as i64;
    if f > 0 {
        match mirror {
            None => None,
            Some((mn, md)) => {
                let num = csub(cmul(Some(rn), Some(md)), cmul(cmul(Some(rd), Some(f)), Some(mn)));
                let den = cmul(cmul(Some(rd), Some(md)), Some(nf));
                creduce(num, den)
            },
        }
    } else {
        creduce(Some(rn), cmul(Some(rd), Some(nf)))
    }
}

fn split_at(
    cards: &Vec<(String, Vec<Option<Rate>>)>,
    rarity: &Vec<Vec<(String, RaritySlotRates)>>,
    k: usize,
    j: usize,
    mirror: Option<(i64, i64)>,
    rm: &Vec<(String, String)>,
    fm: &Vec<(String, bool)>,
) -> (r: RaritySlotRates)
    requires
        k < rarity@.len(),
        j < rarity@[k as int]@.len(),
        rarity_tables_wf(rarity_table_view(rarity@)),
        opt_pair(mirror) == mirror_rate(card_rates_view(cards@), rarity_table_view(rarity@), k as int, rm@, fm@),
    ensures
        (rarity@[k as int]@[j as int].0@, r) == split_entry(card_rates_view(cards@), rarity_table_view(rarity@), k as int, rarity_table_view(rarity@)[k as int][j as int], rm@, fm@),
        opt_wf(r.normal) && opt_wf(r.foil),
{
    let ghost rv = rarity_table_view(rarity@);
    let e = &rarity[k][j];
    assert(rv[k as int][j as int] == (e.0@, e.1));
    let key = chars_of(e.0.as_str());
    assert(opt_wf(rv[k as int][j as int].1.normal) && opt_wf(rv[k as int][j as int].1.foil));
    let unchanged = RaritySlotRates { normal: clone_opt_rate(&e.1.normal), foil: clone_opt_rate(&e.1.foil) };
    let fc = count_cards(cards, k, &key, true, rm, fm) as i64;
    let nfc = count_cards(cards, k, &key, false, rm, fm) as i64;
    if fc == 0 {
        return unchanged;
    }
    let total = match &e.1.normal {
        Some(t) => t,
        None => return unchanged,
    };
    if nfc == 0 {
        return RaritySlotRates { normal: None, foil: Some(clone_rate(total)) };
    }
    let (mn, md) = match mirror {
        Some(m) => m,
        None => return unchanged,
    };
    let (rn, rd) = match rate_to_ints(total) {
        Some(p) => p,
        None => return unchanged,
    };
    let foil = creduce(cmul(Some(fc), Some(mn)), Some(md));
    let normal = creduce(csub(cmul(Some(rn), Some(md)), cmul(cmul(Some(rd), Some(fc)), Some(mn))), cmul(Some(rd), Some(md)));
    match (foil, normal) {
        (Some((fa, fb)), Some((na, nb))) => RaritySlotRates {
            normal: Some(Rate { numerator: dec_from_i64(na), denominator: dec_from_i64(nb) }),
            foil: Some(Rate { numerator: dec_from_i64(fa), denominator: dec_from_i64(fb) }),
        },
        _ => unchanged,
    }
}

/// Derive the card rates of one variant from its rarity rates (see
/// `fixed_variant`).
pub fn fix_variant(
    v: &PackVariantRates,
    rm: &Vec<(String, String)>,
    fm: &Vec<(String, bool)>,
) -> (r: PackVariantRates)
    requires
        variant_rates_wf(crate::rates::variant_view(*v)),
    ensures
        crate::rates::variant_view(r) == fixed_variant(crate::rates::variant_view(*v), rm@, fm@),
        variant_rates_wf(crate::rates::variant_view(r)),
{
    let cards = &v.card_rates;
    let rarity = &v.rarity_rates_by_slot;
    let ghost cv = card_rates_view(cards@);
    let ghost rv = rarity_table_view(rarity@);
    proof {
        assert forall|k: int, j: int| 0 <= k < rv.len() && 0 <= j < rv[k].len() implies opt_wf(#[trigger] rv[k][j].1.normal) && opt_wf(rv[k][j].1.foil) by {
            assert(rv[k] == rarity_entries_view(rarity@[k]@));
        }
    }
    // mirror rate of every slot that a card or the rarity table has
    let mc = max_slot_len(cards);
    let n = if rarity.len() >= mc { rarity.len() } else { mc };
    let mut mirrors: Vec<Option<(i64, i64)>> = Vec::new();
    while mirrors.len() < n
        invariant
            mirrors@.len() <= n,
            rarity_tables_wf(rv),
            rv == rarity_table_view(rarity@),
            cv == card_rates_view(cards@),
            forall|k: int| 0 <= k < mirrors@.len() ==> opt_pair(#[trigger] mirrors@[k]) == mirror_rate(cv, rv, k, rm@, fm@),
        decreases n - mirrors.len(),
    {
        let k = mirrors.len();
        let m = mirror_at(cards, rarity, k, rm, fm);
        mirrors.push(m);
    }
    // cards
    let mut new_cards: Vec<(String, Vec<Option<Rate>>)> = Vec::new();
    let mut i: usize = 0;
    while i < cards.len()
        invariant
            i <= cards@.len(),
            rarity_tables_wf(rv),
            rv == rarity_table_view(rarity@),
            cv == card_rates_view(cards@),
            variant_rates_wf(crate::rates::variant_view(*v)),
            cards@ == v.card_rates@,
            mirrors@.len() == n,
            n >= max_card_len(cv),
            forall|k: int| 0 <= k < mirrors@.len() ==> opt_pair(#[trigger] mirrors@[k]) == mirror_rate(cv, rv, k, rm@, fm@),
            card_rates_view(new_cards@) =~= Seq::new(i as nat, |x: int| fixed_card(cv, rv, cv[x], rm@, fm@)),
            forall|x: int, k: int| 0 <= x < new_cards@.len() && 0 <= k < new_cards@[x].1@.len() ==> opt_wf(#[trigger] new_cards@[x].1@[k]),
        decreases cards.len() - i,
    {
        let c = &cards[i];
        assert(cv[i as int] == (c.0@, c.1@));
        proof {
            lemma_max_card_len_ge(cv, i as int);
        }
        let mut slots: Vec<Option<Rate>> = Vec::new();
        let mut k: usize = 0;
        while k < c.1.len()
            invariant
                i < cards@.len(),
                k <= c.1@.len(),
                *c == cards@[i as int],
                cv[i as int] == (c.0@, c.1@),
                c.1@.len() <= n,
                rarity_tables_wf(rv),
                rv == rarity_table_view(rarity@),
                cv == card_rates_view(cards@),
                variant_rates_wf(crate::rates::variant_view(*v)),
                cards@ == v.card_rates@,
                mirrors@.len() == n,
                forall|kk: int| 0 <= kk < mirrors@.len() ==> opt_pair(#[trigger] mirrors@[kk]) == mirror_rate(cv, rv, kk, rm@, fm@),
                slots@ =~= Seq::new(k as nat, |kk: int| fixed_slot(cv, rv, kk, cv[i as int], rm@, fm@)),
                forall|kk: int| 0 <= kk < slots@.len() ==> opt_wf(#[trigger] slots@[kk]),
            decreases c.1.len() - k,
        {
            proof {
                assert(crate::rates::variant_view(*v).3 == cv);
                assert(opt_wf(crate::rates::variant_view(*v).3[i as int].1[k as int]));
            }
            if c.1[k].is_some() {
                let d = derive_at(cards, rarity, k, i, mirrors[k], rm, fm);
                match d {
                    Some((a, b)) => {
                        slots.push(Some(Rate { numerator: dec_from_i64(a), denominator: dec_from_i64(b) }));
                    },
                    None => {
                        slots.push(clone_opt_rate(&c.1[k]));
                    },
                }
            } else {
                slots.push(None);
            }
            k += 1;
        }
        let ghost before = new_cards@;
        new_cards.push((c.0.clone(), slots));
        assert(card_rates_view(new_cards@) =~= card_rates_view(before).push(fixed_card(cv, rv, cv[i as int], rm@, fm@)));
        i += 1;
    }
    // rarity table
    let mut new_rarity: Vec<Vec<(String, RaritySlotRates)>> = Vec::new();
    let mut k: usize = 0;
    while k < rarity.len()
        invariant
            k <= rarity@.len(),
            rarity_tables_wf(rv),
            rv == rarity_table_view(rarity@),
            cv == card_rates_view(cards@),
            mirrors@.len() == n,
            n >= rarity@.len(),
            forall|kk: int| 0 <= kk < mirrors@.len() ==> opt_pair(#[trigger] mirrors@[kk]) == mirror_rate(cv, rv, kk, rm@, fm@),
            rarity_table_view(new_rarity@) =~= Seq::new(k as nat, |kk: int| Seq::new(rv[kk].len(), |j: int| split_entry(cv, rv, kk, rv[kk][j], rm@, fm@))),
            rarity_tables_wf(rarity_table_view(new_rarity@)),
        decreases rarity.len() - k,
    {
        let mut entries: Vec<(String, RaritySlotRates)> = Vec::new();
        let mut j: usize = 0;
        assert(rv[k as int] == rarity_entries_view(rarity@[k as int]@));
        while j < rarity[k].len()
            invariant
                k < rarity@.len(),
                j <= rarity@[k as int]@.len(),
                rarity_tables_wf(rv),
                rv == rarity_table_view(rarity@),
                rv[k as int] == rarity_entries_view(rarity@[k as int]@),
                cv == card_rates_view(cards@),
                mirrors@.len() == n,
                n >= rarity@.len(),
                forall|kk: int| 0 <= kk < mirrors@.len() ==> opt_pair(#[trigger] mirrors@[kk]) == mirror_rate(cv, rv, kk, rm@, fm@),
                rarity_entries_view(entries@) =~= Seq::new(j as nat, |jj: int| split_entry(cv, rv, k as int, rv[k as int][jj], rm@, fm@)),
                forall|jj: int| 0 <= jj < entries@.len() ==> opt_wf(#[trigger] entries@[jj].1.normal) && opt_wf(entries@[jj].1.foil),
            decreases rarity@[k as int]@.len() - j,
        {
            let e = split_at(cards, rarity, k, j, mirrors[k], rm, fm);
            let ghost before = entries@;
            entries.push((rarity[k][j].0.clone(), e));
            assert(rarity_entries_view(entries@) =~= rarity_entries_view(before).push(split_entry(cv, rv, k as int, rv[k as int][j as int], rm@, fm@)));
            j += 1;
        }
        let ghost before = new_rarity@;
        new_rarity.push(entries);
        assert(rarity_table_view(new_rarity@) =~= rarity_table_view(before).push(Seq::new(rv[k as int].len(), |j: int| split_entry(cv, rv, k as int, rv[k as int][j], rm@, fm@))));
        k += 1;
    }
    let r = PackVariantRates {
        rate: clone_rate(&v.rate),
        slot_count: v.slot_count,
        rarity_rates_by_slot: new_rarity,
        card_rates: new_cards,
    };
    r
}

proof fn lemma_max_card_len_ge(cv: CardTable, i: int)
    requires
        0 <= i < cv.len(),
    ensures
        cv[i].1.len() <= max_card_len(cv),
    decreases cv.len(),
{
    if i < cv.len() - 1 {
        lemma_max_card_len_ge(cv.drop_last(), i);
        assert(cv.drop_last()[i] == cv[i]);
    }
}

} // verus!

verus! {

pub open spec fn pack_rates_wf(v: Seq<(String, PackVariantRates)>) -> bool {
    forall|i: int| 0 <= i < v.len() ==> variant_rates_wf(#[trigger] crate::rates::variant_view(v[i].1))
}

/// Replace every card rate that can be derived from the rarity rates by the
/// derived exact fraction, and split each rarity's rate by finish (see
/// `fixed_variant`). A rate whose derivation would overflow `i64`, or whose
/// fraction has a zero or `i64::MIN` part, keeps its current value.
pub fn fix_card_rates_from_rarity(
    rates: &mut PackPullRates,
    card_id_to_rarity: &Vec<(String, String)>,
    card_id_to_is_foil: &Vec<(String, bool)>,
)
    requires
        pack_rates_wf(old(rates).variants@),
    ensures
        final(rates).set == old(rates).set,
        final(rates).subtitle == old(rates).subtitle,
        variants_view(final(rates).variants@) == variants_view(old(rates).variants@).map_values(
            |e: (Seq<char>, VariantView)| (e.0, fixed_variant(e.1, card_id_to_rarity@, card_id_to_is_foil@)),
        ),
        pack_rates_wf(final(rates).variants@),
{
    let ghost old_view = variants_view(rates.variants@);
    let mut out: Vec<(String, PackVariantRates)> = Vec::new();
    let mut i: usize = 0;
    while i < rates.variants.len()
        invariant
            i <= rates.variants@.len(),
            old_view == variants_view(rates.variants@),
            pack_rates_wf(rates.variants@),
            pack_rates_wf(out@),
            variants_view(out@) =~= old_view.subrange(0, i as int).map_values(
                |e: (Seq<char>, VariantView)| (e.0, fixed_variant(e.1, card_id_to_rarity@, card_id_to_is_foil@)),
            ),
        decreases rates.variants.len() - i,
    {
        let v = fix_variant(&rates.variants[i].1, card_id_to_rarity, card_id_to_is_foil);
        let ghost before = out@;
        out.push((rates.variants[i].0.clone(), v));
        assert(variants_view(out@) =~= variants_view(before).push((rates.variants@[i as int].0@, fixed_variant(crate::rates::variant_view(rates.variants@[i as int].1), card_id_to_rarity@, card_id_to_is_foil@))));
        i += 1;
    }
    assert(old_view.subrange(0, rates.variants@.len() as int) =~= old_view);
    rates.variants = out;
}

} // verus!

verus! {

/// In a slot, a rarity with both foil and non-foil cards splits its rate
/// between them: the foil cards' mirror rates plus the non-foil cards'
/// derived rates add up to the rarity's slot rate. With `f` foil cards at
/// the mirror rate `mn / md`, `nf` non-foil cards at the derived rate `a / b`
/// and the rarity's rate `rn / rd`: `f·mn/md + nf·a/b == rn/rd`, written
/// without division.
pub proof fn lemma_mixed_rarity_adds_up(
    all: CardTable,
    rt: RarityTable,
    k: int,
    c: (Seq<char>, Seq<Option<Rate>>),
    rm: Seq<(String, String)>,
    fm: Seq<(String, bool)>,
)
    requires
        all.len() <= i64::MAX,
        !foil_of(fm, c.0),
        count_at(all, k, rarity_of(rm, c.0), true, rm, fm) > 0,
        derived_rate(all, rt, k, c, rm, fm) is Some,
    ensures
        ({
            let r = rarity_of(rm, c.0);
            let f = count_at(all, k, r, true, rm, fm) as int;
            let nf = count_at(all, k, r, false, rm, fm) as int;
            let (a, b) = derived_rate(all, rt, k, c, rm, fm)->0;
            let total = rarity_lookup(slot_rarity(rt, k), r)->0.normal->0;
            let (rn, rd) = rate_ints(total)->0;
            let (mn, md) = mirror_rate(all, rt, k, rm, fm)->0;
            &&& rarity_lookup(slot_rarity(rt, k), r) is Some
            &&& rarity_lookup(slot_rarity(rt, k), r)->0.normal is Some
            &&& rate_ints(total) is Some
            &&& mirror_rate(all, rt, k, rm, fm) is Some
            &&& (f * mn * b + nf * a * md) * rd == rn * md * b
        }),
{
    let r = rarity_of(rm, c.0);
    lemma_count_bound(all, k, r, true, rm, fm);
    lemma_count_bound(all, k, r, false, rm, fm);
    let f = count_at(all, k, r, true, rm, fm) as int;
    let nf = count_at(all, k, r, false, rm, fm) as int;
    assert((f as i64) as int == f);
    assert((nf as i64) as int == nf);
    let total = rarity_lookup(slot_rarity(rt, k), r)->0.normal->0;
    let (rn, rd) = rate_ints(total)->0;
    let (mn, md) = mirror_rate(all, rt, k, rm, fm)->0;
    let num = rn * md - rd * f * mn;
    let den = rd * md * nf;
    assert(mul_fit(mul_fit(Some(rd), Some(f)), Some(mn)) is Some ==> mul_fit(mul_fit(Some(rd), Some(f)), Some(mn))->0 == rd * f * mn);
    assert(mul_fit(mul_fit(Some(rd), Some(md)), Some(nf)) is Some ==> mul_fit(mul_fit(Some(rd), Some(md)), Some(nf))->0 == rd * md * nf);
    let (a, b) = derived_rate(all, rt, k, c, rm, fm)->0;
    assert(reduce_spec(num, den) == Some((a, b)));
    crate::rates::lemma_reduce_same_value(num, den);
    assert(a * den == b * num);
    let x = nf * a * md * rd;
    let p = b * rd * f * mn;
    let q = b * rn * md;
    assert(x == a * (rd * md * nf)) by (nonlinear_arith)
        requires
            x == nf * a * md * rd,
    ;
    let u = rn * md;
    let w = rd * f * mn;
    vstd::arithmetic::mul::lemma_mul_is_distributive_sub(b, u, w);
    assert(b * u == q) by (nonlinear_arith)
        requires
            u == rn * md,
            q == b * rn * md,
    ;
    assert(b * w == p) by (nonlinear_arith)
        requires
            w == rd * f * mn,
            p == b * rd * f * mn,
    ;
    assert(b * (rn * md - rd * f * mn) == q - p);
    assert((f * mn * b + nf * a * md) * rd == p + x) by (nonlinear_arith)
        requires
            x == nf * a * md * rd,
            p == b * rd * f * mn,
    ;
    assert(rn * md * b == q) by (nonlinear_arith)
        requires
            q == b * rn * md,
    ;
}

} // verus!

verus! {

proof fn lemma_reduce64_in_i64(n: Option<int>, d: Option<int>)
    requires
        reduce64(n, d) is Some,
        n is Some ==> in_i64(n->0),
        d is Some ==> in_i64(d->0),
    ensures
        ({
            let (a, b) = reduce64(n, d)->0;
            in_i64(a) && in_i64(b)
        }),
{
    lemma_reduce_bounds(n->0, d->0);
}

proof fn lemma_mirror_in_i64(
    prefix: CardTable,
    all: CardTable,
    rt: RarityTable,
    k: int,
    rm: Seq<(String, String)>,
    fm: Seq<(String, bool)>,
)
    requires
        mirror_in(prefix, all, rt, k, rm, fm) is Some,
    ensures
        ({
            let (a, b) = mirror_in(prefix, all, rt, k, rm, fm)->0;
            in_i64(a) && in_i64(b)
        }),
    decreases prefix.len(),
{
    if mirror_in(prefix.drop_last(), all, rt, k, rm, fm) is Some {
        lemma_mirror_in_i64(prefix.drop_last(), all, rt, k, rm, fm);
    } else {
        let c = prefix.last();
        let r = rarity_of(rm, c.0);
        let rr = rarity_lookup(slot_rarity(rt, k), r)->0;
        let (rn, rd) = rate_ints(rr.normal->0)->0;
        lemma_reduce64_in_i64(Some(rn), mul_fit(Some(rd), Some(count_at(all, k, r, true, rm, fm) as i64 as int)));
    }
}

/// A rarity table entry split by finish keeps the rarity's rate: for a
/// rarity with both foil and non-foil cards in the slot, the foil part and
/// the non-foil part add up to the rate it had, `fa/fb + na/nb == rn/rd`
/// (written without division).
pub proof fn lemma_split_entry_adds_up(
    all: CardTable,
    rt: RarityTable,
    k: int,
    e: (Seq<char>, RaritySlotRates),
    rm: Seq<(String, String)>,
    fm: Seq<(String, bool)>,
)
    requires
        all.len() <= i64::MAX,
        e.1.normal is Some,
        e.1.foil is None,
        count_at(all, k, e.0, true, rm, fm) > 0,
        count_at(all, k, e.0, false, rm, fm) > 0,
        split_entry(all, rt, k, e, rm, fm).1.foil is Some,
    ensures
        ({
            let s = split_entry(all, rt, k, e, rm, fm).1;
            let (rn, rd) = rate_ints(e.1.normal->0)->0;
            let nr = s.normal->0;
            let fr = s.foil->0;
            let (na, nb) = (nr.numerator.mantissa as int, nr.denominator.mantissa as int);
            let (fa, fb) = (fr.numerator.mantissa as int, fr.denominator.mantissa as int);
            &&& rate_ints(e.1.normal->0) is Some
            &&& s.normal is Some
            &&& nr.numerator.scale == 0 && nr.denominator.scale == 0
            &&& fr.numerator.scale == 0 && fr.denominator.scale == 0
            &&& (fa * nb + na * fb) * rd == rn * fb * nb
        }),
{
    lemma_count_bound(all, k, e.0, true, rm, fm);
    lemma_count_bound(all, k, e.0, false, rm, fm);
    let fc = count_at(all, k, e.0, true, rm, fm) as int;
    let nfc = count_at(all, k, e.0, false, rm, fm) as int;
    assert((fc as i64) as int == fc);
    assert((nfc as i64) as int == nfc);
    let total = e.1.normal->0;
    let (rn, rd) = rate_ints(total)->0;
    let (mn, md) = mirror_rate(all, rt, k, rm, fm)->0;
    lemma_mirror_in_i64(all, all, rt, k, rm, fm);
    let fnum = fc * mn;
    let num = rn * md - rd * fc * mn;
    let den = rd * md;
    assert(mul_fit(mul_fit(Some(rd), Some(fc)), Some(mn)) is Some ==> mul_fit(mul_fit(Some(rd), Some(fc)), Some(mn))->0 == rd * fc * mn);
    let (fa, fb) = reduce_spec(fnum, md)->0;
    let (na, nb) = reduce_spec(num, den)->0;
    assert(reduce64(mul_fit(Some(fc), Some(mn)), Some(md)) == Some((fa, fb)));
    crate::rates::lemma_reduce_same_value(fnum, md);
    crate::rates::lemma_reduce_same_value(num, den);
    lemma_reduce_bounds(fnum, md);
    lemma_reduce_bounds(num, den);
    assert((fa as i64) as i128 as int == fa);
    assert((fb as i64) as i128 as int == fb);
    assert((na as i64) as i128 as int == na);
    assert((nb as i64) as i128 as int == nb);
    // fa * md == fb * fc * mn and na * rd * md == nb * (rn * md - rd * fc * mn)
    let x = fa * nb * rd;
    let y = na * fb * rd;
    assert(x * md == fb * nb * rd * fc * mn) by (nonlinear_arith)
        requires
            x == fa * nb * rd,
            fa * md == fb * (fc * mn),
    ;
    let u = rn * md;
    let w = rd * fc * mn;
    vstd::arithmetic::mul::lemma_mul_is_distributive_sub(nb, u, w);
    assert(y * md == fb * (nb * u - nb * w)) by (nonlinear_arith)
        requires
            y == na * fb * rd,
            na * (rd * md) == nb * (u - w),
            nb * (u - w) == nb * u - nb * w,
    ;
    assert(fb * nb * rd * fc * mn == fb * (nb * w)) by (nonlinear_arith)
        requires
            w == rd * fc * mn,
    ;
    assert(fb * (nb * u - nb * w) == fb * (nb * u) - fb * (nb * w)) by (nonlinear_arith);
    assert((x + y) * md == fb * (nb * u)) by (nonlinear_arith)
        requires
            x * md == fb * (nb * w),
            y * md == fb * (nb * u) - fb * (nb * w),
    ;
    assert(fb * (nb * u) == (rn * fb * nb) * md) by (nonlinear_arith)
        requires
            u == rn * md,
    ;
    if md == 0 {
        assert(den == 0) by (nonlinear_arith)
            requires
                den == rd * md,
                md == 0,
        ;
        assert(fb == 0);
        assert(nb == 0);
        assert(x + y == 0) by (nonlinear_arith)
            requires
                x == fa * nb * rd,
                y == na * fb * rd,
                fb == 0,
                nb == 0,
        ;
        assert(rn * fb * nb == 0) by (nonlinear_arith)
            requires
                fb == 0,
        ;
    } else {
        assert(x + y == rn * fb * nb) by (nonlinear_arith)
            requires
                (x + y) * md == (rn * fb * nb) * md,
                md != 0,
        ;
    }
    assert((fa * nb + na * fb) * rd == x + y) by (nonlinear_arith)
        requires
            x == fa * nb * rd,
            y == na * fb * rd,
    ;
}

} // verus!
