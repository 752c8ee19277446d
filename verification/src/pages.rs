//! Reading Limitless TCG pages: the set index, a set's card listing, and a
//! card's detail page. Each reader states its result over what `scraper`
//! finds for the page's selectors (`html_select`, `html_select_within`).
use vstd::prelude::*;
use crate::text::{
    chars_of, string_of, trim_chars, trim_spec, split_char, split_char_spec, lemma_split_char_nonempty,
    parse_u32, parse_unsigned_spec,
};
use crate::html::{
    Element, ElementModel, select, select_within, html_select, html_select_within, strings_model,
    elements_model, groups_model, text_of, element_text, element_attr, opt_model,
};
use crate::limitless::{
    opt_view, opt_nat, strings_view, letter_to_element, element_letter_spec, title_case, title_case_spec,
    parse_damage, damage_spec,
};
use crate::text::{upper_of, starts_with, starts_with_spec, slice_copy, words, words_spec, join, join_spec, is_digit};
use crate::models::{Attack, Ability, SetSummary, Availability, LimitlessCardData};
use crate::limitless::{
    parse_type_line, type_line_spec, parse_title, title_spec, parse_wrr, wrr_spec, parse_series, series_spec,
};
use crate::text::{contains_char, find, find_spec, contains, ends_with_spec, ends_with, strip_prefix, str_eq};

verus! {

pub(crate) fn names(a: &str) -> (r: Vec<String>)
    ensures
        strings_model(r@) == seq![a@],
{
    let mut v: Vec<String> = Vec::new();
    v.push(string_of(&chars_of(a)));
    assert(strings_model(v@) =~= seq![a@]);
    v
}

pub(crate) fn no_names() -> (r: Vec<String>)
    ensures
        strings_model(r@) == Seq::<Seq<char>>::empty(),
{
    let v: Vec<String> = Vec::new();
    assert(strings_model(v@) =~= Seq::<Seq<char>>::empty());
    v
}

/// The elements found, or none when the selector did not parse.
pub open spec fn found(r: Option<Seq<ElementModel>>) -> Seq<ElementModel> {
    match r {
        Some(v) => v,
        None => Seq::empty(),
    }
}

pub open spec fn opt_groups(g: Option<Vec<Vec<Element>>>) -> Option<Seq<Seq<ElementModel>>> {
    match g {
        Some(v) => Some(groups_model(v@)),
        None => None,
    }
}

/// The group found under the `i`-th match, or none.
pub open spec fn group_at(r: Option<Seq<Seq<ElementModel>>>, i: int) -> Seq<ElementModel> {
    match r {
        Some(v) => if 0 <= i < v.len() {
            v[i]
        } else {
            Seq::empty()
        },
        None => Seq::empty(),
    }
}

pub(crate) fn select_or_empty(html: &str, selector: &str, attrs: &Vec<String>) -> (r: Vec<Element>)
    ensures
        elements_model(r@) == found(html_select(html@, selector@, strings_model(attrs@))),
{
    match select(html, selector, attrs) {
        Some(v) => v,
        None => {
            let v: Vec<Element> = Vec::new();
            assert(elements_model(v@) =~= Seq::<ElementModel>::empty());
            v
        },
    }
}

pub(crate) fn group_or_empty(groups: &Option<Vec<Vec<Element>>>, i: usize) -> (r: Vec<Element>)
    ensures
        elements_model(r@) == group_at(opt_groups(*groups), i as int),
{
    match groups {
        Some(g) => {
            if i < g.len() {
                clone_elements(&g[i])
            } else {
                let v: Vec<Element> = Vec::new();
                assert(elements_model(v@) =~= Seq::<ElementModel>::empty());
                v
            }
        },
        None => {
            let v: Vec<Element> = Vec::new();
            assert(elements_model(v@) =~= Seq::<ElementModel>::empty());
            v
        },
    }
}

fn clone_strings(v: &Vec<String>) -> (r: Vec<String>)
    ensures
        strings_model(r@) == strings_model(v@),
{
    let mut r: Vec<String> = Vec::new();
    let mut i: usize = 0;
    while i < v.len()
        invariant
            i <= v@.len(),
            r@.len() == i,
            forall|k: int| 0 <= k < i ==> #[trigger] r@[k]@ == v@[k]@,
        decreases v.len() - i,
    {
        r.push(v[i].clone());
        i += 1;
    }
    assert(strings_model(r@) =~= strings_model(v@));
    r
}

fn clone_element(e: &Element) -> (r: Element)
    ensures
        r@ == e@,
{
    let mut attrs: Vec<Option<String>> = Vec::new();
    let mut i: usize = 0;
    while i < e.attrs.len()
        invariant
            i <= e.attrs@.len(),
            attrs@.len() == i,
            forall|k: int| 0 <= k < i ==> #[trigger] opt_model(attrs@[k]) == opt_model(e.attrs@[k]),
        decreases e.attrs.len() - i,
    {
        let a = match &e.attrs[i] {
            Some(s) => Some(s.clone()),
            None => None,
        };
        attrs.push(a);
        i += 1;
    }
    let r = Element { texts: clone_strings(&e.texts), attrs, classes: clone_strings(&e.classes) };
    assert(r@.1 =~= e@.1);
    r
}

pub(crate) fn clone_elements(v: &Vec<Element>) -> (r: Vec<Element>)
    ensures
        elements_model(r@) == elements_model(v@),
{
    let mut r: Vec<Element> = Vec::new();
    let mut i: usize = 0;
    while i < v.len()
        invariant
            i <= v@.len(),
            r@.len() == i,
            forall|k: int| 0 <= k < i ==> #[trigger] r@[k]@ == v@[k]@,
        decreases v.len() - i,
    {
        r.push(clone_element(&v[i]));
        i += 1;
    }
    assert(elements_model(r@) =~= elements_model(v@));
    r
}

// ───────────────────────── first matches ─────────────────────────

/// Text of the first element, or the empty string when there is none.
pub open spec fn first_text(els: Seq<ElementModel>) -> Seq<char> {
    if els.len() > 0 {
        text_of(els[0])
    } else {
        Seq::empty()
    }
}

/// Trimmed text of the first element, when there is one.
pub open spec fn first_trimmed(els: Seq<ElementModel>) -> Option<Seq<char>> {
    if els.len() > 0 {
        Some(trim_spec(text_of(els[0])))
    } else {
        None
    }
}

/// Trimmed text of the first element, when there is one and it is not empty.
pub open spec fn first_nonempty(els: Seq<ElementModel>) -> Option<Seq<char>> {
    match first_trimmed(els) {
        Some(t) => if t.len() > 0 {
            Some(t)
        } else {
            None
        },
        None => None,
    }
}

pub(crate) fn text_first(els: &Vec<Element>) -> (r: String)
    ensures
        r@ == first_text(elements_model(els@)),
{
    if els.len() > 0 {
        element_text(&els[0])
    } else {
        string_of(&Vec::new())
    }
}

pub(crate) fn trimmed_first(els: &Vec<Element>) -> (r: Option<String>)
    ensures
        opt_view(r) == first_trimmed(elements_model(els@)),
{
    if els.len() > 0 {
        let t = element_text(&els[0]);
        Some(string_of(&trim_chars(&chars_of(t.as_str()))))
    } else {
        None
    }
}

pub(crate) fn nonempty_first(els: &Vec<Element>) -> (r: Option<String>)
    ensures
        opt_view(r) == first_nonempty(elements_model(els@)),
{
    match trimmed_first(els) {
        Some(t) => if t.as_str().unicode_len() > 0 {
            Some(t)
        } else {
            None
        },
        None => None,
    }
}

// ───────────────────────── set listing page ─────────────────────────

/// The trimmed, non-empty texts of the elements, in order.
pub open spec fn nonempty_texts(els: Seq<ElementModel>) -> Seq<Seq<char>>
    decreases els.len(),
{
    if els.len() == 0 {
        Seq::empty()
    } else {
        let r = nonempty_texts(els.drop_last());
        let t = trim_spec(text_of(els.last()));
        if t.len() > 0 {
            r.push(t)
        } else {
            r
        }
    }
}

pub open spec fn pack_buttons_spec(html: Seq<char>) -> Seq<Seq<char>> {
    nonempty_texts(found(html_select(html, "div.pack-selection button[data-value]"@, Seq::empty())))
}

/// The pack names on a set's card-listing page, in the order shown.
pub fn parse_set_packs(html: &str) -> (r: Vec<String>)
    ensures
        strings_view(r@) == pack_buttons_spec(html@),
{
    let els = select_or_empty(html, "div.pack-selection button[data-value]", &no_names());
    let ghost em = elements_model(els@);
    let mut out: Vec<String> = Vec::new();
    let mut i: usize = 0;
    while i < els.len()
        invariant
            i <= els@.len(),
            em == elements_model(els@),
            strings_view(out@) == nonempty_texts(em.subrange(0, i as int)),
        decreases els.len() - i,
    {
        assert(em.subrange(0, i + 1).drop_last() =~= em.subrange(0, i as int));
        let t = element_text(&els[i]);
        let tt = trim_chars(&chars_of(t.as_str()));
        if tt.len() > 0 {
            let ghost before = out@;
            out.push(string_of(&tt));
            assert(strings_view(out@) =~= strings_view(before).push(tt@));
        }
        i += 1;
    }
    assert(em.subrange(0, em.len() as int) =~= em);
    out
}

/// The card number a link points to: the last `/`-separated piece of its
/// `href` (empty when it has none), read as `u32`.
pub open spec fn link_number(e: ElementModel) -> Option<nat> {
    let href = if e.1.len() > 0 && e.1[0] is Some {
        e.1[0]->0
    } else {
        Seq::empty()
    };
    parse_unsigned_spec(split_char_spec(href, '/').last(), u32::MAX as nat)
}

/// The card numbers of the links, in order, skipping links that carry none.
pub open spec fn link_numbers(els: Seq<ElementModel>) -> Seq<nat>
    decreases els.len(),
{
    if els.len() == 0 {
        Seq::empty()
    } else {
        let r = link_numbers(els.drop_last());
        match link_number(els.last()) {
            Some(n) => r.push(n),
            None => r,
        }
    }
}

pub open spec fn listed_numbers(html: Seq<char>) -> Seq<nat> {
    link_numbers(found(html_select(html, "div.card-search-grid a[href]"@, seq!["href"@])))
}

pub open spec fn strictly_increasing(v: Seq<u32>) -> bool {
    forall|i: int, j: int| 0 <= i < j < v.len() ==> v[i] < v[j]
}

fn number_of_link(e: &Element) -> (r: Option<u32>)
    ensures
        opt_nat(r) == link_number(e@),
{
    let href = match element_attr(e, 0) {
        Some(h) => chars_of(h.as_str()),
        None => Vec::new(),
    };
    let pieces = split_char(&href, '/');
    proof {
        lemma_split_char_nonempty(href@, '/');
    }
    parse_u32(&pieces[pieces.len() - 1])
}

/// Adds `n` to a strictly increasing list, keeping it strictly increasing.
fn insert_sorted(v: &mut Vec<u32>, n: u32)
    requires
        strictly_increasing(old(v)@),
    ensures
        strictly_increasing(final(v)@),
        forall|x: u32| final(v)@.contains(x) <==> (old(v)@.contains(x) || x == n),
{
    let mut p: usize = 0;
    while p < v.len() && v[p] < n
        invariant
            p <= v@.len(),
            v@ == old(v)@,
            forall|k: int| 0 <= k < p ==> v@[k] < n,
        decreases v.len() - p,
    {
        p += 1;
    }
    if p < v.len() && v[p] == n {
        assert(v@[p as int] == n);
        return;
    }
    let ghost before = v@;
    v.insert(p, n);
    assert forall|x: u32| v@.contains(x) <==> (before.contains(x) || x == n) by {
        if v@.contains(x) {
            let k = choose|k: int| 0 <= k < v@.len() && v@[k] == x;
            if k < p {
                assert(before[k] == x);
            } else if k > p {
                assert(before[k - 1] == x);
            }
        }
        if before.contains(x) {
            let k = choose|k: int| 0 <= k < before.len() && before[k] == x;
            if k < p {
                assert(v@[k] == x);
            } else {
                assert(v@[k + 1] == x);
            }
        }
        if x == n {
            assert(v@[p as int] == x);
        }
    }
    assert(before == old(v)@);
    assert forall|x: u32| #[trigger] v@.contains(x) <==> (old(v)@.contains(x) || x == n) by {
        assert(v@.contains(x) <==> (before.contains(x) || x == n));
    }
}

/// The card numbers listed on a set's card-listing page, ascending, each
/// once.
pub fn parse_card_numbers(html: &str) -> (r: Vec<u32>)
    ensures
        strictly_increasing(r@),
        forall|x: u32| r@.contains(x) <==> listed_numbers(html@).contains(x as nat),
{
    let els = select_or_empty(html, "div.card-search-grid a[href]", &names("href"));
    let ghost em = elements_model(els@);
    let mut out: Vec<u32> = Vec::new();
    let mut i: usize = 0;
    while i < els.len()
        invariant
            i <= els@.len(),
            em == elements_model(els@),
            strictly_increasing(out@),
            forall|x: u32| out@.contains(x) <==> link_numbers(em.subrange(0, i as int)).contains(x as nat),
        decreases els.len() - i,
    {
        let ghost pre = em.subrange(0, i as int);
        assert(em.subrange(0, i + 1).drop_last() =~= pre);
        assert(em.subrange(0, i + 1).last() == els@[i as int]@);
        match number_of_link(&els[i]) {
            Some(n) => {
                insert_sorted(&mut out, n);
                assert forall|x: u32| out@.contains(x) <==> link_numbers(em.subrange(0, i + 1)).contains(x as nat) by {
                    let ln = link_numbers(pre);
                    assert(link_numbers(em.subrange(0, i + 1)) == ln.push(n as nat));
                    if ln.push(n as nat).contains(x as nat) && x != n {
                        let k = choose|k: int| 0 <= k < ln.push(n as nat).len() && ln.push(n as nat)[k] == x as nat;
                        assert(ln[k] == x as nat);
                    }
                    if ln.contains(x as nat) {
                        let k = choose|k: int| 0 <= k < ln.len() && ln[k] == x as nat;
                        assert(ln.push(n as nat)[k] == x as nat);
                    }
                    if x == n {
                        assert(ln.push(n as nat)[ln.len() as int] == x as nat);
                    }
                }
            },
            None => {
                assert(link_numbers(em.subrange(0, i + 1)) == link_numbers(pre));
            },
        }
        i += 1;
    }
    assert(em.subrange(0, em.len() as int) =~= em);
    out
}


// ───────────────────────── energy symbols ─────────────────────────

/// The rest of the first class that starts with `p`, if any class does.
pub open spec fn first_prefixed(cs: Seq<Seq<char>>, p: Seq<char>) -> Option<Seq<char>>
    decreases cs.len(),
{
    if cs.len() == 0 {
        None
    } else if starts_with_spec(cs[0], p) {
        Some(cs[0].subrange(p.len() as int, cs[0].len() as int))
    } else {
        first_prefixed(cs.drop_first(), p)
    }
}

/// The element an energy symbol stands for: from a `ptcg-symbol-X` class (a
/// letter, or a full name that is title-cased), else from the symbol's text.
pub open spec fn symbol_element_spec(e: ElementModel) -> Seq<char> {
    match first_prefixed(e.2, "ptcg-symbol-"@) {
        Some(suffix) => match element_letter_spec(upper_of(suffix)) {
            Some(name) => name,
            None => title_case_spec(suffix),
        },
        None => {
            let t = trim_spec(text_of(e));
            match element_letter_spec(upper_of(t)) {
                Some(name) => name,
                None => t,
            }
        },
    }
}

fn prefixed_class(classes: &Vec<String>, p: &[char]) -> (r: Option<Vec<char>>)
    ensures
        match r {
            Some(v) => first_prefixed(strings_model(classes@), p@) == Some(v@),
            None => first_prefixed(strings_model(classes@), p@) is None,
        },
{
    let ghost cs = strings_model(classes@);
    let mut k: usize = 0;
    assert(cs.subrange(0, cs.len() as int) =~= cs);
    while k < classes.len()
        invariant
            k <= classes@.len(),
            cs == strings_model(classes@),
            first_prefixed(cs, p@) == first_prefixed(cs.subrange(k as int, cs.len() as int), p@),
        decreases classes.len() - k,
    {
        let ghost rest = cs.subrange(k as int, cs.len() as int);
        assert(rest.drop_first() =~= cs.subrange(k + 1, cs.len() as int));
        assert(rest[0] == classes@[k as int]@);
        let c = chars_of(classes[k].as_str());
        if starts_with(&c, p) {
            return Some(slice_copy(&c, p.len(), c.len()));
        }
        k += 1;
    }
    assert(cs.subrange(k as int, cs.len() as int) =~= Seq::<Seq<char>>::empty());
    None
}

/// The element named by an energy symbol of an attack cost.
pub fn element_from_symbol_span(el: &Element) -> (r: String)
    ensures
        r@ == symbol_element_spec(el@),
{
    let prefix = chars_of("ptcg-symbol-");
    match prefixed_class(&el.classes, &prefix) {
        Some(suffix) => {
            let ss = string_of(&suffix);
            match letter_to_element(ss.as_str()) {
                Some(name) => string_of(&chars_of(name)),
                None => title_case(ss.as_str()),
            }
        },
        None => {
            let t = element_text(el);
            let ts = string_of(&trim_chars(&chars_of(t.as_str())));
            match letter_to_element(ts.as_str()) {
                Some(name) => string_of(&chars_of(name)),
                None => ts,
            }
        },
    }
}

// ───────────────────────── abilities and attacks ─────────────────────────

pub open spec fn ability_spec(names: Seq<ElementModel>, effects: Seq<ElementModel>) -> Option<(Seq<char>, Seq<char>)> {
    match first_nonempty(names) {
        Some(n) => Some((n, match first_trimmed(effects) {
            Some(e) => e,
            None => Seq::empty(),
        })),
        None => None,
    }
}

/// An ability block: its name (required) and its effect text ("" when
/// missing), from the name and effect elements found in the block.
pub fn parse_ability(names: &Vec<Element>, effects: &Vec<Element>) -> (r: Option<Ability>)
    ensures
        match r {
            Some(a) => ability_spec(elements_model(names@), elements_model(effects@)) == Some((a.name@, a.effect@)),
            None => ability_spec(elements_model(names@), elements_model(effects@)) is None,
        },
{
    let name = match nonempty_first(names) {
        Some(n) => n,
        None => return None,
    };
    let effect = match trimmed_first(effects) {
        Some(e) => e,
        None => string_of(&Vec::new()),
    };
    Some(Ability { name, effect })
}

/// The trimmed, non-empty text nodes, in order.
pub open spec fn nonempty_trimmed(ts: Seq<Seq<char>>) -> Seq<Seq<char>>
    decreases ts.len(),
{
    if ts.len() == 0 {
        Seq::empty()
    } else {
        let r = nonempty_trimmed(ts.drop_last());
        let t = trim_spec(ts.last());
        if t.len() > 0 {
            r.push(t)
        } else {
            r
        }
    }
}

pub open spec fn symbol_char(c: char) -> bool {
    c == '●' || c == '◆' || c == '◇' || c == '☆' || c == '♛' || c == '+' || c == '×' || is_digit(c)
}

pub open spec fn all_symbols(w: Seq<char>) -> bool {
    forall|i: int| 0 <= i < w.len() ==> symbol_char(#[trigger] w[i])
}

/// Words that are not made only of cost and damage symbols, up to the first
/// one that reads as a number.
pub open spec fn name_words(ws: Seq<Seq<char>>) -> Seq<Seq<char>>
    decreases ws.len(),
{
    if ws.len() == 0 {
        Seq::empty()
    } else if all_symbols(ws[0]) {
        name_words(ws.drop_first())
    } else if parse_unsigned_spec(ws[0], u32::MAX as nat) is Some {
        Seq::empty()
    } else {
        seq![ws[0]] + name_words(ws.drop_first())
    }
}

/// An attack's name read from all of its text when it has no name element.
pub open spec fn fallback_name_spec(texts: Seq<Seq<char>>) -> Seq<char> {
    join_spec(name_words(words_spec(join_spec(nonempty_trimmed(texts), " "@))), " "@)
}

pub type AttackModel = (Seq<char>, Seq<Seq<char>>, nat, Option<Seq<char>>, Option<Seq<char>>);

pub open spec fn attack_model(a: Attack) -> AttackModel {
    (a.name@, strings_view(a.cost@), a.damage as nat, opt_view(a.damage_suffix), opt_view(a.effect))
}

/// An attack block: cost from its energy symbols, name from its name element
/// (else from its text), damage and suffix from its damage element, effect
/// from its effect element; absent when no name can be read.
pub open spec fn attack_spec(
    el: ElementModel,
    symbols: Seq<ElementModel>,
    names: Seq<ElementModel>,
    damages: Seq<ElementModel>,
    effects: Seq<ElementModel>,
) -> Option<AttackModel> {
    let name = match first_nonempty(names) {
        Some(n) => n,
        None => fallback_name_spec(el.0),
    };
    let raw = match first_trimmed(damages) {
        Some(t) => t,
        None => Seq::empty(),
    };
    let dmg = damage_spec(raw);
    if name.len() == 0 {
        None
    } else {
        Some((name, symbols.map_values(|s: ElementModel| symbol_element_spec(s)), dmg.0, dmg.1, first_nonempty(effects)))
    }
}

fn is_symbol_word(w: &[char]) -> (r: bool)
    ensures
        r == all_symbols(w@),
{
    let mut i: usize = 0;
    while i < w.len()
        invariant
            i <= w@.len(),
            forall|k: int| 0 <= k < i ==> symbol_char(#[trigger] w@[k]),
        decreases w.len() - i,
    {
        let c = w[i];
        if !(c == '●' || c == '◆' || c == '◇' || c == '☆' || c == '♛' || c == '+' || c == '×' || ('0' <= c
            && c <= '9')) {
            assert(!symbol_char(w@[i as int]));
            return false;
        }
        i += 1;
    }
    true
}

pub open spec fn vecs_view(v: Seq<Vec<char>>) -> Seq<Seq<char>> {
    v.map_values(|x: Vec<char>| x@)
}

fn fallback_name(el: &Element) -> (r: Vec<char>)
    ensures
        r@ == fallback_name_spec(el@.0),
{
    let ghost ts = el@.0;
    let mut parts: Vec<Vec<char>> = Vec::new();
    let mut i: usize = 0;
    while i < el.texts.len()
        invariant
            i <= el.texts@.len(),
            ts == strings_model(el.texts@),
            vecs_view(parts@) == nonempty_trimmed(ts.subrange(0, i as int)),
        decreases el.texts.len() - i,
    {
        assert(ts.subrange(0, i + 1).drop_last() =~= ts.subrange(0, i as int));
        let t = trim_chars(&chars_of(el.texts[i].as_str()));
        if t.len() > 0 {
            let ghost before = parts@;
            parts.push(t);
            assert(vecs_view(parts@) =~= vecs_view(before).push(t@));
        }
        i += 1;
    }
    assert(ts.subrange(0, ts.len() as int) =~= ts);
    let space = chars_of(" ");
    let all = join(&parts, &space);
    let ws = words(&all);
    let ghost wsv = words_spec(all@);
    let mut taken: Vec<Vec<char>> = Vec::new();
    let mut k: usize = 0;
    let mut stop = false;
    assert(wsv.subrange(0, wsv.len() as int) =~= wsv);
    while k < ws.len() && !stop
        invariant
            k <= ws@.len(),
            ws@.len() == wsv.len(),
            forall|j: int| 0 <= j < ws@.len() ==> #[trigger] ws@[j]@ == wsv[j],
            stop ==> vecs_view(taken@) == name_words(wsv),
            !stop ==> vecs_view(taken@) + name_words(wsv.subrange(k as int, wsv.len() as int)) == name_words(wsv),
        decreases ws.len() - k,
    {
        let ghost rest = wsv.subrange(k as int, wsv.len() as int);
        assert(rest.drop_first() =~= wsv.subrange(k + 1, wsv.len() as int));
        assert(rest[0] == ws@[k as int]@);
        if is_symbol_word(&ws[k]) {
        } else if parse_u32(&ws[k]).is_some() {
            assert(name_words(rest) =~= Seq::<Seq<char>>::empty());
            assert(vecs_view(taken@) =~= vecs_view(taken@) + Seq::<Seq<char>>::empty());
            stop = true;
        } else {
            let ghost before = taken@;
            let w = slice_copy(&ws[k], 0, ws[k].len());
            assert(w@ =~= ws@[k as int]@);
            taken.push(w);
            assert(vecs_view(taken@) =~= vecs_view(before).push(rest[0]));
            assert(vecs_view(before) + name_words(rest) =~= vecs_view(taken@) + name_words(rest.drop_first()));
        }
        k += 1;
    }
    if !stop {
        assert(wsv.subrange(k as int, wsv.len() as int) =~= Seq::<Seq<char>>::empty());
        assert(vecs_view(taken@) + Seq::<Seq<char>>::empty() =~= vecs_view(taken@));
    }
    join(&taken, &space)
}

pub fn parse_attack(
    el: &Element,
    symbols: &Vec<Element>,
    names: &Vec<Element>,
    damages: &Vec<Element>,
    effects: &Vec<Element>,
) -> (r: Option<Attack>)
    ensures
        match r {
            Some(a) => attack_spec(el@, elements_model(symbols@), elements_model(names@), elements_model(damages@), elements_model(effects@)) == Some(attack_model(a)),
            None => attack_spec(el@, elements_model(symbols@), elements_model(names@), elements_model(damages@), elements_model(effects@)) is None,
        },
{
    let ghost sm = elements_model(symbols@);
    let mut cost: Vec<String> = Vec::new();
    let mut i: usize = 0;
    while i < symbols.len()
        invariant
            i <= symbols@.len(),
            sm == elements_model(symbols@),
            cost@.len() == i,
            forall|k: int| 0 <= k < i ==> #[trigger] cost@[k]@ == symbol_element_spec(sm[k]),
        decreases symbols.len() - i,
    {
        cost.push(element_from_symbol_span(&symbols[i]));
        i += 1;
    }
    assert(strings_view(cost@) =~= sm.map_values(|s: ElementModel| symbol_element_spec(s)));
    let name = match nonempty_first(names) {
        Some(n) => n,
        None => string_of(&fallback_name(el)),
    };
    let raw = match trimmed_first(damages) {
        Some(t) => t,
        None => string_of(&Vec::new()),
    };
    let (damage, damage_suffix) = parse_damage(raw.as_str());
    let effect = nonempty_first(effects);
    if name.as_str().unicode_len() == 0 {
        return None;
    }
    Some(Attack { name, cost, damage, damage_suffix, effect })
}


// ───────────────────────── set index page ─────────────────────────

/// One row of the set index: code, name, series, release date, promo flag,
/// card count.
pub type SetRow = (Seq<char>, Seq<char>, Seq<char>, Option<Seq<char>>, bool, Option<nat>);

pub open spec fn sets_rows_sel() -> Seq<char> {
    "table.sets-table tr"@
}

pub open spec fn first_attr(e: ElementModel) -> Seq<char> {
    if e.1.len() > 0 && e.1[0] is Some {
        e.1[0]->0
    } else {
        Seq::empty()
    }
}

/// A row of the set index read from what its cells hold; absent for rows
/// without a link to `/cards/{code}`.
pub open spec fn set_row_spec(
    links: Seq<ElementModel>,
    names: Seq<ElementModel>,
    codes: Seq<ElementModel>,
    dates: Seq<ElementModel>,
    counts: Seq<ElementModel>,
) -> Option<SetRow> {
    if links.len() == 0 {
        None
    } else {
        let href = first_attr(links[0]);
        if !starts_with_spec(href, "/cards/"@) || href.len() == "/cards/"@.len() {
            None
        } else {
            let set_code = href.subrange("/cards/"@.len() as int, href.len() as int);
            let name = match first_trimmed(names) {
                Some(t) => t,
                None => trim_spec(text_of(links[0])),
            };
            let code = match first_trimmed(codes) {
                Some(t) => t,
                None => set_code,
            };
            let date = match first_trimmed(dates) {
                Some(t) => if t.len() > 0 && t != "—"@ {
                    Some(t)
                } else {
                    None
                },
                None => None,
            };
            let count = match first_trimmed(counts) {
                Some(t) => parse_unsigned_spec(t, u32::MAX as nat),
                None => None,
            };
            Some((code, name, series_spec(code), date, starts_with_spec(code, "P-"@), count))
        }
    }
}

pub open spec fn within(html: Seq<char>, inner: Seq<char>, attrs: Seq<Seq<char>>) -> Option<Seq<Seq<ElementModel>>> {
    html_select_within(html, sets_rows_sel(), inner, attrs)
}

pub open spec fn set_row_at(html: Seq<char>, i: int) -> Option<SetRow> {
    set_row_spec(
        group_at(within(html, "td a"@, seq!["href"@]), i),
        group_at(within(html, "td.name"@, Seq::empty()), i),
        group_at(within(html, "span.code.annotation"@, Seq::empty()), i),
        group_at(within(html, "td.date"@, Seq::empty()), i),
        group_at(within(html, "td.count"@, Seq::empty()), i),
    )
}

pub open spec fn set_rows_upto(html: Seq<char>, n: nat) -> Seq<SetRow>
    decreases n,
{
    if n == 0 {
        Seq::empty()
    } else {
        let r = set_rows_upto(html, (n - 1) as nat);
        match set_row_at(html, n - 1) {
            Some(row) => r.push(row),
            None => r,
        }
    }
}

pub open spec fn set_row_count(html: Seq<char>) -> nat {
    match within(html, "td a"@, seq!["href"@]) {
        Some(v) => v.len(),
        None => 0,
    }
}

/// The sets listed on the set index, in page order.
pub open spec fn sets_index_spec(html: Seq<char>) -> Seq<SetRow> {
    set_rows_upto(html, set_row_count(html))
}

pub open spec fn set_model(s: SetSummary) -> SetRow {
    (
        s.code@,
        s.name@,
        s.series@,
        match s.availability {
            Some(a) => Some(a.start@),
            None => None,
        },
        s.is_promo,
        opt_nat(s.card_count),
    )
}

/// A summary read from the index: no end date and no packs yet.
pub open spec fn fresh_summary(s: SetSummary) -> bool {
    &&& s.packs@.len() == 0
    &&& match s.availability {
        Some(a) => a.end is None,
        None => true,
    }
}

fn set_row(
    links: &Vec<Element>,
    names: &Vec<Element>,
    codes: &Vec<Element>,
    dates: &Vec<Element>,
    counts: &Vec<Element>,
) -> (r: Option<SetSummary>)
    ensures
        match r {
            Some(s) => set_row_spec(
                elements_model(links@),
                elements_model(names@),
                elements_model(codes@),
                elements_model(dates@),
                elements_model(counts@),
            ) == Some(set_model(s)) && fresh_summary(s),
            None => set_row_spec(
                elements_model(links@),
                elements_model(names@),
                elements_model(codes@),
                elements_model(dates@),
                elements_model(counts@),
            ) is None,
        },
{
    if links.len() == 0 {
        return None;
    }
    let href = match element_attr(&links[0], 0) {
        Some(h) => chars_of(h.as_str()),
        None => Vec::new(),
    };
    let set_code = match strip_prefix(&href, &chars_of("/cards/")) {
        Some(c) => c,
        None => return None,
    };
    if set_code.len() == 0 {
        return None;
    }
    let name = match trimmed_first(names) {
        Some(t) => t,
        None => {
            let t = element_text(&links[0]);
            string_of(&trim_chars(&chars_of(t.as_str())))
        },
    };
    let code = match trimmed_first(codes) {
        Some(t) => t,
        None => string_of(&set_code),
    };
    let date = match trimmed_first(dates) {
        Some(t) => if t.as_str().unicode_len() > 0 && !str_eq(t.as_str(), "—") {
            Some(t)
        } else {
            None
        },
        None => None,
    };
    let count = match trimmed_first(counts) {
        Some(t) => parse_u32(&chars_of(t.as_str())),
        None => None,
    };
    let series = parse_series(code.as_str());
    let cc = chars_of(code.as_str());
    let is_promo = starts_with(&cc, &chars_of("P-"));
    let availability = match date {
        Some(d) => Some(Availability { start: d, end: None }),
        None => None,
    };
    Some(SetSummary { code, name, series, availability, is_promo, card_count: count, packs: Vec::new() })
}

/// Every set on the set index page, in page order; an error when the page
/// yields none (the page layout has likely changed).
pub fn parse_sets_index(html: &str) -> (r: Result<Vec<SetSummary>, String>)
    ensures
        match r {
            Ok(v) => {
                &&& sets_index_spec(html@).len() > 0
                &&& v@.len() == sets_index_spec(html@).len()
                &&& forall|k: int| 0 <= k < v@.len() ==> set_model(#[trigger] v@[k]) == sets_index_spec(html@)[k]
                    && fresh_summary(v@[k])
            },
            Err(m) => sets_index_spec(html@).len() == 0
                && m@ == "sets-table parse returned no rows — selector may be stale"@,
        },
{
    let rows = "table.sets-table tr";
    let links = select_within(html, rows, "td a", &names("href"));
    let name_cells = select_within(html, rows, "td.name", &no_names());
    let code_cells = select_within(html, rows, "span.code.annotation", &no_names());
    let date_cells = select_within(html, rows, "td.date", &no_names());
    let count_cells = select_within(html, rows, "td.count", &no_names());
    let n: usize = match &links {
        Some(v) => v.len(),
        None => 0,
    };
    let mut sets: Vec<SetSummary> = Vec::new();
    let mut i: usize = 0;
    while i < n
        invariant
            i <= n,
            n == set_row_count(html@),
            opt_groups(links) == within(html@, "td a"@, seq!["href"@]),
            opt_groups(name_cells) == within(html@, "td.name"@, Seq::empty()),
            opt_groups(code_cells) == within(html@, "span.code.annotation"@, Seq::empty()),
            opt_groups(date_cells) == within(html@, "td.date"@, Seq::empty()),
            opt_groups(count_cells) == within(html@, "td.count"@, Seq::empty()),
            sets@.len() == set_rows_upto(html@, i as nat).len(),
            forall|k: int| 0 <= k < sets@.len() ==> set_model(#[trigger] sets@[k]) == set_rows_upto(html@, i as nat)[k]
                && fresh_summary(sets@[k]),
        decreases n - i,
    {
        let l = group_or_empty(&links, i);
        let nm = group_or_empty(&name_cells, i);
        let cd = group_or_empty(&code_cells, i);
        let dt = group_or_empty(&date_cells, i);
        let ct = group_or_empty(&count_cells, i);
        match set_row(&l, &nm, &cd, &dt, &ct) {
            Some(s) => {
                sets.push(s);
            },
            None => {},
        }
        i += 1;
    }
    if sets.len() == 0 {
        return Err(string_of(&chars_of("sets-table parse returned no rows — selector may be stale")));
    }
    Ok(sets)
}


// ───────────────────────── card page ─────────────────────────

pub open spec fn page_found(html: Seq<char>, selector: Seq<char>) -> Seq<ElementModel> {
    found(html_select(html, selector, Seq::empty()))
}

pub open spec fn attack_sel() -> Seq<char> {
    "div.card-text-attack"@
}

pub open spec fn in_attack(html: Seq<char>, inner: Seq<char>, i: int) -> Seq<ElementModel> {
    group_at(html_select_within(html, attack_sel(), inner, Seq::empty()), i)
}

pub open spec fn attack_at(html: Seq<char>, i: int) -> Option<AttackModel> {
    attack_spec(
        page_found(html, attack_sel())[i],
        in_attack(html, "span.ptcg-symbol"@, i),
        in_attack(html, "span.card-text-attack-name"@, i),
        in_attack(html, "span.card-text-attack-damage"@, i),
        in_attack(html, "div.card-text-attack-effect, p.card-text-attack-effect"@, i),
    )
}

pub open spec fn attacks_upto(html: Seq<char>, n: nat) -> Seq<AttackModel>
    decreases n,
{
    if n == 0 {
        Seq::empty()
    } else {
        let r = attacks_upto(html, (n - 1) as nat);
        match attack_at(html, n - 1) {
            Some(a) => r.push(a),
            None => r,
        }
    }
}

/// The attacks of a card page, in page order, skipping blocks without a name.
pub open spec fn attacks_spec(html: Seq<char>) -> Seq<AttackModel> {
    attacks_upto(html, page_found(html, attack_sel()).len())
}

pub open spec fn ability_sel() -> Seq<char> {
    "div.card-text-ability"@
}

/// The ability of a card page, read from its first ability block.
pub open spec fn page_ability_spec(html: Seq<char>) -> Option<(Seq<char>, Seq<char>)> {
    if page_found(html, ability_sel()).len() > 0 {
        ability_spec(
            group_at(html_select_within(html, ability_sel(), "span.card-text-ability-name, p.card-text-ability-name"@, Seq::empty()), 0),
            group_at(html_select_within(html, ability_sel(), "div.card-text-ability-effect, p.card-text-ability-effect"@, Seq::empty()), 0),
        )
    } else {
        None
    }
}

pub open spec fn page_title(html: Seq<char>) -> Seq<char> {
    trim_spec(first_text(page_found(html, "p.card-text-title"@)))
}

pub open spec fn page_type_line(html: Seq<char>) -> (Seq<char>, Option<Seq<char>>, Option<Seq<char>>) {
    type_line_spec(trim_spec(first_text(page_found(html, "p.card-text-type"@))))
}

pub open spec fn page_card_title(html: Seq<char>) -> (Seq<char>, Option<Seq<char>>, Option<nat>) {
    title_spec(page_title(html), page_type_line(html).0)
}

pub open spec fn page_wrr(html: Seq<char>) -> (Option<Seq<char>>, Option<nat>) {
    wrr_spec(first_text(page_found(html, "p.card-text-wrr"@)))
}

pub open spec fn is_ex_name(name: Seq<char>) -> bool {
    ends_with_spec(name, " ex"@) || find_spec(name, " ex "@) is Some
}

pub open spec fn is_mega_name(name: Seq<char>) -> bool {
    starts_with_spec(name, "Mega "@) || find_spec(name, " Mega "@) is Some
}

pub open spec fn ability_model(a: Option<Ability>) -> Option<(Seq<char>, Seq<char>)> {
    match a {
        Some(x) => Some((x.name@, x.effect@)),
        None => None,
    }
}

fn page_attacks(html: &str) -> (r: Vec<Attack>)
    ensures
        r@.map_values(|a: Attack| attack_model(a)) == attacks_spec(html@),
{
    let blocks = select_or_empty(html, "div.card-text-attack", &no_names());
    let sym = select_within(html, "div.card-text-attack", "span.ptcg-symbol", &no_names());
    let nms = select_within(html, "div.card-text-attack", "span.card-text-attack-name", &no_names());
    let dms = select_within(html, "div.card-text-attack", "span.card-text-attack-damage", &no_names());
    let fxs = select_within(html, "div.card-text-attack", "div.card-text-attack-effect, p.card-text-attack-effect", &no_names());
    let mut out: Vec<Attack> = Vec::new();
    let mut i: usize = 0;
    while i < blocks.len()
        invariant
            i <= blocks@.len(),
            elements_model(blocks@) == page_found(html@, attack_sel()),
            opt_groups(sym) == html_select_within(html@, attack_sel(), "span.ptcg-symbol"@, Seq::empty()),
            opt_groups(nms) == html_select_within(html@, attack_sel(), "span.card-text-attack-name"@, Seq::empty()),
            opt_groups(dms) == html_select_within(html@, attack_sel(), "span.card-text-attack-damage"@, Seq::empty()),
            opt_groups(fxs) == html_select_within(html@, attack_sel(), "div.card-text-attack-effect, p.card-text-attack-effect"@, Seq::empty()),
            out@.map_values(|a: Attack| attack_model(a)) == attacks_upto(html@, i as nat),
        decreases blocks.len() - i,
    {
        let s = group_or_empty(&sym, i);
        let n = group_or_empty(&nms, i);
        let d = group_or_empty(&dms, i);
        let f = group_or_empty(&fxs, i);
        assert(elements_model(blocks@)[i as int] == blocks@[i as int]@);
        match parse_attack(&blocks[i], &s, &n, &d, &f) {
            Some(a) => {
                let ghost before = out@;
                out.push(a);
                assert(out@.map_values(|a: Attack| attack_model(a)) =~= before.map_values(|a: Attack| attack_model(a)).push(attack_model(a)));
            },
            None => {},
        }
        i += 1;
    }
    out
}

fn page_ability(html: &str) -> (r: Option<Ability>)
    ensures
        ability_model(r) == page_ability_spec(html@),
{
    let blocks = select_or_empty(html, "div.card-text-ability", &no_names());
    if blocks.len() == 0 {
        return None;
    }
    let nms = select_within(html, "div.card-text-ability", "span.card-text-ability-name, p.card-text-ability-name", &no_names());
    let fxs = select_within(html, "div.card-text-ability", "div.card-text-ability-effect, p.card-text-ability-effect", &no_names());
    let n = group_or_empty(&nms, 0);
    let f = group_or_empty(&fxs, 0);
    parse_ability(&n, &f)
}

fn page_first_text(html: &str, selector: &str) -> (r: String)
    ensures
        r@ == first_text(page_found(html@, selector@)),
{
    let els = select_or_empty(html, selector, &no_names());
    text_first(&els)
}

fn page_nonempty(html: &str, selector: &str) -> (r: Option<String>)
    ensures
        opt_view(r) == first_nonempty(page_found(html@, selector@)),
{
    let els = select_or_empty(html, selector, &no_names());
    nonempty_first(&els)
}

/// The game content of a card page.
pub fn parse_card(html: &str) -> (r: LimitlessCardData)
    ensures
        r.card_type@ == page_type_line(html@).0,
        opt_view(r.stage) == page_type_line(html@).1,
        opt_view(r.trainer_kind) == page_type_line(html@).2,
        r.name@ == page_card_title(html@).0,
        opt_view(r.element) == page_card_title(html@).1,
        opt_nat(r.hp) == page_card_title(html@).2,
        opt_view(r.weakness) == page_wrr(html@).0,
        opt_nat(r.retreat_cost) == page_wrr(html@).1,
        opt_view(r.flavor) == first_nonempty(page_found(html@, "div.card-text-flavor"@)),
        opt_view(r.illustrator) == first_nonempty(page_found(html@, "div.card-text-artist a"@)),
        opt_view(r.trainer_effect) == first_nonempty(page_found(html@, "div.card-text-effect"@)),
        r.attacks@.map_values(|a: Attack| attack_model(a)) == attacks_spec(html@),
        ability_model(r.ability) == page_ability_spec(html@),
        r.is_ex == is_ex_name(r.name@),
        r.is_mega == is_mega_name(r.name@),
        r.evolves_from is None,
        r.card_source is None,
{
    let title_raw = page_first_text(html, "p.card-text-title");
    let title = string_of(&trim_chars(&chars_of(title_raw.as_str())));
    let type_raw = page_first_text(html, "p.card-text-type");
    let type_text = string_of(&trim_chars(&chars_of(type_raw.as_str())));
    let (card_type, stage, trainer_kind) = parse_type_line(type_text.as_str());
    let (name, element, hp) = parse_title(title.as_str(), card_type.as_str());
    let wrr_text = page_first_text(html, "p.card-text-wrr");
    let (weakness, retreat_cost) = parse_wrr(wrr_text.as_str());
    let flavor = page_nonempty(html, "div.card-text-flavor");
    let illustrator = page_nonempty(html, "div.card-text-artist a");
    let attacks = page_attacks(html);
    let ability = page_ability(html);
    let trainer_effect = page_nonempty(html, "div.card-text-effect");
    let nc = chars_of(name.as_str());
    let is_ex = ends_with(&nc, &chars_of(" ex")) || contains(&nc, &chars_of(" ex "));
    let is_mega = starts_with(&nc, &chars_of("Mega ")) || contains(&nc, &chars_of(" Mega "));
    LimitlessCardData {
        name,
        card_type,
        element,
        stage,
        hp,
        retreat_cost,
        weakness,
        flavor,
        is_ex,
        is_mega,
        ability,
        attacks,
        evolves_from: None,
        trainer_kind,
        trainer_effect,
        illustrator,
        card_source: None,
    }
}

} // verus!

verus! {

/// The word "Mega" stands at position `i` of `name`: the four letters, a
/// space after them, and either the start of the name or a space before.
pub open spec fn mega_word_at(name: Seq<char>, i: int) -> bool {
    &&& 0 <= i
    &&& i + 5 <= name.len()
    &&& name[i] == 'M' && name[i + 1] == 'e' && name[i + 2] == 'g' && name[i + 3] == 'a'
    &&& name[i + 4] == ' '
    &&& (i == 0 || name[i - 1] == ' ')
}

/// A card is marked Mega exactly when "Mega" is a whole word of its name
/// followed by more of the name ("Meganium" is not).
pub proof fn lemma_mega_whole_word(name: Seq<char>)
    ensures
        is_mega_name(name) <==> exists|i: int| mega_word_at(name, i),
{
    let p1 = "Mega "@;
    let p2 = " Mega "@;
    reveal_strlit("Mega ");
    reveal_strlit(" Mega ");
    if starts_with_spec(name, p1) {
        assert(name.subrange(0, 5) == p1);
        assert(name[0] == name.subrange(0, 5)[0]);
        assert(name[1] == name.subrange(0, 5)[1]);
        assert(name[2] == name.subrange(0, 5)[2]);
        assert(name[3] == name.subrange(0, 5)[3]);
        assert(name[4] == name.subrange(0, 5)[4]);
        assert(mega_word_at(name, 0));
    }
    if find_spec(name, p2) is Some {
        crate::text::lemma_find_spec_some(name, p2);
        let j = find_spec(name, p2)->0;
        let sub = name.subrange(j, j + 6);
        assert(sub == p2);
        assert(name[j] == sub[0]);
        assert(name[j + 1] == sub[1]);
        assert(name[j + 2] == sub[2]);
        assert(name[j + 3] == sub[3]);
        assert(name[j + 4] == sub[4]);
        assert(name[j + 5] == sub[5]);
        assert(mega_word_at(name, j + 1));
    }
    if exists|i: int| mega_word_at(name, i) {
        let i = choose|i: int| mega_word_at(name, i);
        if i == 0 {
            assert(name.subrange(0, 5) =~= p1);
        } else {
            assert(name.subrange(i - 1, i + 5) =~= p2);
            assert(crate::text::match_at(name, p2, i - 1));
            if find_spec(name, p2) is None {
                reveal(find_spec);
            }
        }
    }
}

} // verus!
