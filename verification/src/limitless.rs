//! Reading the text of Limitless TCG card pages: type lines, titles, print
//! lines, weakness/retreat lines, damage values, and the CDN addresses of
//! card images.
use vstd::prelude::*;
use crate::text::{
    chars_of, string_of, trim_chars, trim_spec, find, find_spec, contains, split_once, split_once_spec,
    split_char, split_char_spec, words, words_spec, replace, replace_spec, starts_with, ends_with,
    starts_with_spec, ends_with_spec, parse_u32, parse_unsigned_spec, lower_of, upper_of, char_upper_of, to_lowercase,
    to_uppercase, char_to_uppercase, concat, slice_copy, seq_eq, is_ws, char_is_ws,
    is_digit, padded, padded_spec, lemma_split_char_nonempty, unsigned_body, all_digits,
};

verus! {

fn lit(s: &str) -> (r: Vec<char>)
    ensures
        r@ == s@,
{
    chars_of(s)
}

pub open spec fn opt_view(o: Option<String>) -> Option<Seq<char>> {
    match o {
        Some(s) => Some(s@),
        None => None,
    }
}

// ───────────────────────── type line ─────────────────────────

/// `splitn(2, '-')` with each piece trimmed.
pub open spec fn split2_trim(t: Seq<char>) -> Seq<Seq<char>> {
    match split_once_spec(t, seq!['-']) {
        Some((a, b)) => seq![trim_spec(a), trim_spec(b)],
        None => seq![trim_spec(t)],
    }
}

/// "Pokémon - Basic" → ("pokemon", Some("Basic"), None);
/// "Trainer - Item" → ("trainer", None, Some("Item")); anything else is
/// ("unknown", None, None).
pub open spec fn type_line_spec(t: Seq<char>) -> (Seq<char>, Option<Seq<char>>, Option<Seq<char>>) {
    let parts = split2_trim(t);
    if parts.len() == 2 {
        let kl = lower_of(parts[0]);
        if find_spec(kl, "pokémon"@) is Some || find_spec(kl, "pokemon"@) is Some {
            ("pokemon"@, Some(parts[1]), None)
        } else if find_spec(kl, "trainer"@) is Some {
            ("trainer"@, None, Some(parts[1]))
        } else {
            ("unknown"@, None, None)
        }
    } else {
        ("unknown"@, None, None)
    }
}

/// 0: Pokémon, 1: Trainer, 2: anything else.
fn classify_kind(kind: &[char]) -> (r: u8)
    ensures
        r == (if find_spec(lower_of(kind@), "pokémon"@) is Some || find_spec(lower_of(kind@), "pokemon"@) is Some {
            0u8
        } else if find_spec(lower_of(kind@), "trainer"@) is Some {
            1u8
        } else {
            2u8
        }),
{
    let ks = string_of(kind);
    let kl = to_lowercase(ks.as_str());
    let klc = chars_of(kl.as_str());
    if contains(&klc, &lit("pokémon")) || contains(&klc, &lit("pokemon")) {
        0
    } else if contains(&klc, &lit("trainer")) {
        1
    } else {
        2
    }
}

pub fn parse_type_line(text: &str) -> (r: (String, Option<String>, Option<String>))
    ensures
        (r.0@, opt_view(r.1), opt_view(r.2)) == type_line_spec(text@),
{
    let t = chars_of(text);
    let dash = lit("-");
    proof {
        reveal_strlit("-");
    }
    assert(dash@ == seq!['-']);
    match split_once(&t, &dash) {
        Some((a, b)) => {
            let kind = trim_chars(&a);
            let sub = trim_chars(&b);
            let c = classify_kind(&kind);
            if c == 0 {
                (string_of(&lit("pokemon")), Some(string_of(&sub)), None)
            } else if c == 1 {
                (string_of(&lit("trainer")), None, Some(string_of(&sub)))
            } else {
                (string_of(&lit("unknown")), None, None)
            }
        },
        None => (string_of(&lit("unknown")), None, None),
    }
}

// ───────────────────────── title ─────────────────────────

/// `splitn(3, '-')` with each piece trimmed.
pub open spec fn split3_trim(t: Seq<char>) -> Seq<Seq<char>> {
    match split_once_spec(t, seq!['-']) {
        Some((a, rest)) => match split_once_spec(rest, seq!['-']) {
            Some((b, c)) => seq![trim_spec(a), trim_spec(b), trim_spec(c)],
            None => seq![trim_spec(a), trim_spec(rest)],
        },
        None => seq![trim_spec(t)],
    }
}

/// The first word of a string, parsed as `u32`.
pub open spec fn first_word_u32(t: Seq<char>) -> Option<nat> {
    let w = words_spec(t);
    if w.len() > 0 {
        parse_unsigned_spec(w[0], u32::MAX as nat)
    } else {
        None
    }
}

/// "Bulbasaur - Grass - 70 HP" → ("Bulbasaur", Some("Grass"), Some(70)) for
/// a Pokémon; other cards keep only the first segment as the name.
pub open spec fn title_spec(t: Seq<char>, card_type: Seq<char>) -> (Seq<char>, Option<Seq<char>>, Option<nat>) {
    let parts = split3_trim(t);
    if card_type == "pokemon"@ && parts.len() == 3 {
        (parts[0], Some(parts[1]), first_word_u32(parts[2]))
    } else if card_type == "pokemon"@ && parts.len() == 2 {
        (parts[0], Some(parts[1]), None)
    } else {
        (parts[0], None, None)
    }
}

pub open spec fn opt_nat(o: Option<u32>) -> Option<nat> {
    match o {
        Some(x) => Some(x as nat),
        None => None,
    }
}

fn first_word_number(v: &[char]) -> (r: Option<u32>)
    ensures
        opt_nat(r) == first_word_u32(v@),
{
    let w = words(v);
    if w.len() > 0 {
        parse_u32(&w[0])
    } else {
        None
    }
}

pub fn parse_title(text: &str, card_type: &str) -> (r: (String, Option<String>, Option<u32>))
    ensures
        (r.0@, opt_view(r.1), opt_nat(r.2)) == title_spec(text@, card_type@),
{
    let t = chars_of(text);
    let dash = lit("-");
    proof {
        reveal_strlit("-");
    }
    assert(dash@ == seq!['-']);
    let is_pokemon = str_is(card_type, "pokemon");
    match split_once(&t, &dash) {
        Some((a, rest)) => {
            let name = string_of(&trim_chars(&a));
            match split_once(&rest, &dash) {
                Some((b, c)) => {
                    if is_pokemon {
                        let hp = first_word_number(&trim_chars(&c));
                        (name, Some(string_of(&trim_chars(&b))), hp)
                    } else {
                        (name, None, None)
                    }
                },
                None => {
                    if is_pokemon {
                        (name, Some(string_of(&trim_chars(&rest))), None)
                    } else {
                        (name, None, None)
                    }
                },
            }
        },
        None => (string_of(&trim_chars(&t)), None, None),
    }
}

fn str_is(a: &str, b: &str) -> (r: bool)
    ensures
        r == (a@ == b@),
{
    seq_eq(&chars_of(a), &chars_of(b))
}

// ───────────────────────── rarity symbols ─────────────────────────

pub open spec fn rarity_code_spec(sym: Seq<char>) -> Option<Seq<char>> {
    if sym == "◊"@ {
        Some("C"@)
    } else if sym == "◊◊"@ {
        Some("U"@)
    } else if sym == "◊◊◊"@ {
        Some("R"@)
    } else if sym == "◊◊◊◊"@ {
        Some("RR"@)
    } else if sym == "☆"@ {
        Some("AR"@)
    } else if sym == "☆☆"@ {
        Some("SR"@)
    } else if sym == "☆☆☆"@ {
        Some("IM"@)
    } else if sym == "♛"@ {
        Some("UR"@)
    } else {
        None
    }
}

/// Map rarity display symbols to internal codes. A single star could be AR
/// or S; it is read as AR.
pub fn symbol_to_rarity_code(sym: &str) -> (r: Option<&'static str>)
    ensures
        match r {
            Some(c) => rarity_code_spec(sym@) == Some(c@),
            None => rarity_code_spec(sym@) is None,
        },
{
    if str_is(sym, "◊") {
        Some("C")
    } else if str_is(sym, "◊◊") {
        Some("U")
    } else if str_is(sym, "◊◊◊") {
        Some("R")
    } else if str_is(sym, "◊◊◊◊") {
        Some("RR")
    } else if str_is(sym, "☆") {
        Some("AR")
    } else if str_is(sym, "☆☆") {
        Some("SR")
    } else if str_is(sym, "☆☆☆") {
        Some("IM")
    } else if str_is(sym, "♛") {
        Some("UR")
    } else {
        None
    }
}

pub open spec fn element_letter_spec(u: Seq<char>) -> Option<Seq<char>> {
    if u == "G"@ {
        Some("Grass"@)
    } else if u == "R"@ {
        Some("Fire"@)
    } else if u == "W"@ {
        Some("Water"@)
    } else if u == "L"@ {
        Some("Lightning"@)
    } else if u == "F"@ {
        Some("Fighting"@)
    } else if u == "P"@ {
        Some("Psychic"@)
    } else if u == "D"@ {
        Some("Darkness"@)
    } else if u == "M"@ {
        Some("Metal"@)
    } else if u == "Y"@ || u == "N"@ {
        Some("Dragon"@)
    } else if u == "C"@ {
        Some("Colorless"@)
    } else {
        None
    }
}

/// The element an energy letter stands for (matched after upper-casing).
pub fn letter_to_element(s: &str) -> (r: Option<&'static str>)
    ensures
        match r {
            Some(e) => element_letter_spec(upper_of(s@)) == Some(e@),
            None => element_letter_spec(upper_of(s@)) is None,
        },
{
    let up = to_uppercase(s);
    let u = up.as_str();
    if str_is(u, "G") {
        Some("Grass")
    } else if str_is(u, "R") {
        Some("Fire")
    } else if str_is(u, "W") {
        Some("Water")
    } else if str_is(u, "L") {
        Some("Lightning")
    } else if str_is(u, "F") {
        Some("Fighting")
    } else if str_is(u, "P") {
        Some("Psychic")
    } else if str_is(u, "D") {
        Some("Darkness")
    } else if str_is(u, "M") {
        Some("Metal")
    } else if str_is(u, "Y") || str_is(u, "N") {
        Some("Dragon")
    } else if str_is(u, "C") {
        Some("Colorless")
    } else {
        None
    }
}

// ───────────────────────── print line ─────────────────────────

pub open spec fn prints_parts(t: Seq<char>) -> Seq<Seq<char>> {
    split_char_spec(t, '·').map_values(|p: Seq<char>| trim_spec(p))
}

/// The pack names of a print line: the trimmed pieces from the third on,
/// without empty ones.
pub open spec fn pack_names_spec(parts: Seq<Seq<char>>, from: int) -> Seq<Seq<char>>
    decreases parts.len(),
{
    if parts.len() == 0 || parts.len() <= from {
        Seq::empty()
    } else {
        let p = pack_names_spec(parts.drop_last(), from);
        let x = trim_spec(parts.last());
        if x.len() > 0 {
            p.push(x)
        } else {
            p
        }
    }
}

/// "#1 · ◊ · Mewtwo pack" → ("C", ["Mewtwo pack"]): the second piece is the
/// rarity (its code when it is a known symbol, otherwise the symbol text).
pub open spec fn prints_spec(t: Seq<char>) -> (Seq<char>, Seq<Seq<char>>) {
    let parts = prints_parts(t);
    let raw = if parts.len() > 1 { trim_spec(parts[1]) } else { Seq::empty() };
    let rarity = match rarity_code_spec(raw) {
        Some(c) => c,
        None => raw,
    };
    (rarity, pack_names_spec(parts, 2))
}

pub open spec fn strings_view(v: Seq<String>) -> Seq<Seq<char>> {
    v.map_values(|s: String| s@)
}

pub fn parse_prints_current(text: &str) -> (r: (String, Vec<String>))
    ensures
        (r.0@, strings_view(r.1@)) == prints_spec(text@),
{
    let t = chars_of(text);
    let pieces = split_char(&t, '·');
    let ghost sp = split_char_spec(t@, '·');
    let ghost parts = prints_parts(t@);
    let mut trimmed: Vec<Vec<char>> = Vec::new();
    let mut i: usize = 0;
    while i < pieces.len()
        invariant
            i <= pieces@.len(),
            pieces@.len() == sp.len(),
            forall|k: int| 0 <= k < pieces@.len() ==> #[trigger] pieces@[k]@ == sp[k],
            parts == sp.map_values(|p: Seq<char>| trim_spec(p)),
            trimmed@.len() == i,
            forall|k: int| 0 <= k < i ==> #[trigger] trimmed@[k]@ == parts[k],
        decreases pieces.len() - i,
    {
        trimmed.push(trim_chars(&pieces[i]));
        i += 1;
    }
    let raw: Vec<char> = if trimmed.len() > 1 {
        trim_chars(&trimmed[1])
    } else {
        Vec::new()
    };
    let raw_s = string_of(&raw);
    let rarity = match symbol_to_rarity_code(raw_s.as_str()) {
        Some(c) => string_of(&chars_of(c)),
        None => raw_s,
    };
    let mut packs: Vec<String> = Vec::new();
    if trimmed.len() < 2 {
        assert(pack_names_spec(parts, 2) == Seq::<Seq<char>>::empty());
        assert(strings_view(packs@) =~= Seq::<Seq<char>>::empty());
        return (rarity, packs);
    }
    let mut j: usize = 2;
    assert(pack_names_spec(parts.subrange(0, 2), 2) == Seq::<Seq<char>>::empty());
    assert(strings_view(packs@) =~= pack_names_spec(parts.subrange(0, 2), 2));
    while j < trimmed.len()
        invariant
            2 <= j <= trimmed@.len(),
            trimmed@.len() == parts.len(),
            forall|k: int| 0 <= k < trimmed@.len() ==> #[trigger] trimmed@[k]@ == parts[k],
            strings_view(packs@) == pack_names_spec(parts.subrange(0, j as int), 2),
        decreases trimmed.len() - j,
    {
        assert(parts.subrange(0, j + 1).drop_last() =~= parts.subrange(0, j as int));
        let x = trim_chars(&trimmed[j]);
        if x.len() > 0 {
            let ghost before = packs@;
            packs.push(string_of(&x));
            assert(strings_view(packs@) =~= strings_view(before).push(x@));
        }
        j += 1;
    }
    assert(parts.subrange(0, parts.len() as int) =~= parts);
    (rarity, packs)
}


// ───────────────────────── weakness / retreat ─────────────────────────

pub open spec fn opt_len(o: Option<int>, n: int) -> int {
    match o {
        Some(i) => i,
        None => n,
    }
}

pub open spec fn min3(a: int, b: int, c: int) -> int {
    if a <= b && a <= c {
        a
    } else if b <= c {
        b
    } else {
        c
    }
}

/// Where the value after a weakness/retreat key ends: at the next key, or at
/// the end of the text.
pub open spec fn field_end(rem: Seq<char>) -> int {
    min3(
        opt_len(find_spec(rem, "Weakness:"@), rem.len() as int),
        opt_len(find_spec(rem, "Retreat:"@), rem.len() as int),
        opt_len(find_spec(rem, "Resistance:"@), rem.len() as int),
    )
}

/// The value that follows `key:` in a weakness/retreat line, trimmed, up to the
/// next key; absent when empty, a dash, or "none" in any case.
pub open spec fn wrr_field_spec(t: Seq<char>, key: Seq<char>) -> Option<Seq<char>> {
    let search = key + ":"@;
    match find_spec(t, search) {
        None => None,
        Some(i) => {
            let rem = trim_spec(t.subrange(i + search.len(), t.len() as int));
            let value = trim_spec(rem.subrange(0, field_end(rem)));
            if value.len() == 0 || value == "—"@ || lower_of(value) == "none"@ {
                None
            } else {
                Some(value)
            }
        },
    }
}

fn find_or_len(s: &[char], p: &str) -> (r: usize)
    ensures
        r as int == opt_len(find_spec(s@, p@), s@.len() as int),
        r <= s@.len(),
{
    match find(s, &lit(p)) {
        Some(i) => {
            proof {
                crate::text::lemma_find_spec_some(s@, p@);
            }
            i
        },
        None => s.len(),
    }
}

pub fn parse_wrr_field(text: &str, key: &str) -> (r: Option<String>)
    ensures
        opt_view(r) == wrr_field_spec(text@, key@),
{
    let t = chars_of(text);
    let n = t.len();
    let search = concat(&chars_of(key), &lit(":"));
    match find(&t, &search) {
        None => None,
        Some(i) => {
            proof {
                crate::text::lemma_find_spec_some(t@, search@);
                assert(crate::text::match_at(t@, search@, i as int));
                assert(i + search@.len() <= n);
            }
            let rem = trim_chars(&slice_copy(&t, i + search.len(), t.len()));
            let a = find_or_len(&rem, "Weakness:");
            let b = find_or_len(&rem, "Retreat:");
            let c = find_or_len(&rem, "Resistance:");
            let end = if a <= b && a <= c {
                a
            } else if b <= c {
                b
            } else {
                c
            };
            let value = trim_chars(&slice_copy(&rem, 0, end));
            let vs = string_of(&value);
            if value.len() == 0 || str_is(vs.as_str(), "—") {
                return None;
            }
            let low = to_lowercase(vs.as_str());
            if str_is(low.as_str(), "none") {
                None
            } else {
                Some(vs)
            }
        },
    }
}

/// Number of retreat pips (`●`, `•` or `C`) in a string.
pub open spec fn pip_count(s: Seq<char>) -> nat
    decreases s.len(),
{
    if s.len() == 0 {
        0
    } else {
        pip_count(s.drop_last()) + if s.last() == '●' || s.last() == '•' || s.last() == 'C' {
            1nat
        } else {
            0nat
        }
    }
}

/// The first word that parses as `u32`.
pub open spec fn first_number(ws: Seq<Seq<char>>) -> Option<nat>
    decreases ws.len(),
{
    if ws.len() == 0 {
        None
    } else {
        match parse_unsigned_spec(ws[0], u32::MAX as nat) {
            Some(n) => Some(n),
            None => first_number(ws.drop_first()),
        }
    }
}

/// The retreat cost: the number of pips, or, when there are none, the first
/// number written out (0 if none).
pub open spec fn retreat_spec(s: Seq<char>) -> nat {
    if pip_count(s) == 0 {
        match first_number(words_spec(s)) {
            Some(n) => n,
            None => 0,
        }
    } else {
        (pip_count(s) as u32) as nat
    }
}

pub fn count_retreat_pips(s: &str) -> (r: u32)
    ensures
        r as nat == retreat_spec(s@),
{
    let v = chars_of(s);
    let mut count: usize = 0;
    let mut i: usize = 0;
    while i < v.len()
        invariant
            i <= v@.len(),
            count as nat == pip_count(v@.subrange(0, i as int)),
            count <= i,
        decreases v.len() - i,
    {
        assert(v@.subrange(0, i + 1).drop_last() =~= v@.subrange(0, i as int));
        let c = v[i];
        if c == '●' || c == '•' || c == 'C' {
            count += 1;
        }
        i += 1;
    }
    assert(v@.subrange(0, v@.len() as int) =~= v@);
    if count == 0 {
        let ws = words(&v);
        let ghost wsv = words_spec(v@);
        let mut k: usize = 0;
        assert(wsv.subrange(0, wsv.len() as int) =~= wsv);
        while k < ws.len()
            invariant
                k <= ws@.len(),
                ws@.len() == wsv.len(),
                forall|j: int| 0 <= j < ws@.len() ==> #[trigger] ws@[j]@ == wsv[j],
                first_number(wsv) == first_number(wsv.subrange(k as int, wsv.len() as int)),
                wsv == words_spec(s@),
                pip_count(s@) == 0,
            decreases ws.len() - k,
        {
            let ghost rest = wsv.subrange(k as int, wsv.len() as int);
            assert(rest.drop_first() =~= wsv.subrange(k + 1, wsv.len() as int));
            assert(rest[0] == ws@[k as int]@);
            assert(rest.len() > 0);
            match parse_u32(&ws[k]) {
                Some(n) => {
                    assert(first_number(rest) == Some(n as nat));
                    return n;
                },
                None => {},
            }
            k += 1;
        }
        assert(wsv.subrange(k as int, wsv.len() as int) =~= Seq::<Seq<char>>::empty());
        0
    } else {
        count as u32
    }
}

/// The text before the first white space.
pub open spec fn before_space(s: Seq<char>) -> Seq<char>
    decreases s.len(),
{
    if s.len() == 0 || is_ws(s[0]) {
        Seq::empty()
    } else {
        seq![s[0]] + before_space(s.drop_first())
    }
}

fn first_word(v: &[char]) -> (r: Vec<char>)
    ensures
        r@ == before_space(v@),
{
    let mut j: usize = 0;
    assert(v@.subrange(0, v@.len() as int) =~= v@);
    assert(v@ =~= v@.subrange(0, 0) + v@.subrange(0, v@.len() as int));
    while j < v.len() && !char_is_ws(v[j])
        invariant
            j <= v@.len(),
            before_space(v@) == v@.subrange(0, j as int) + before_space(v@.subrange(j as int, v@.len() as int)),
        decreases v.len() - j,
    {
        let ghost rest = v@.subrange(j as int, v@.len() as int);
        assert(rest.drop_first() =~= v@.subrange(j + 1, v@.len() as int));
        assert(rest[0] == v@[j as int]);
        assert(v@.subrange(0, j as int) + (seq![v@[j as int]] + before_space(rest.drop_first()))
            =~= v@.subrange(0, j + 1) + before_space(v@.subrange(j + 1, v@.len() as int)));
        j += 1;
    }
    proof {
        let rest = v@.subrange(j as int, v@.len() as int);
        if j < v.len() {
            assert(rest[0] == v@[j as int]);
        }
        assert(before_space(rest) =~= Seq::<char>::empty());
        assert(v@.subrange(0, j as int) + Seq::<char>::empty() =~= v@.subrange(0, j as int));
    }
    slice_copy(v, 0, j)
}

/// "Weakness: Fire ×2 Retreat: ●●" → (Some("Fire"), Some(2)), after line
/// breaks are read as spaces: the weakness is the element named first in its
/// field.
pub open spec fn wrr_spec(t: Seq<char>) -> (Option<Seq<char>>, Option<nat>) {
    let text = replace_spec(t, seq!['\n'], seq![' ']);
    let retreat = match wrr_field_spec(text, "Retreat"@) {
        Some(r) => Some(retreat_spec(r)),
        None => None,
    };
    let weakness = match wrr_field_spec(text, "Weakness"@) {
        Some(w) => Some(before_space(w)),
        None => None,
    };
    (weakness, retreat)
}

pub fn parse_wrr(text: &str) -> (r: (Option<String>, Option<u32>))
    ensures
        (opt_view(r.0), opt_nat(r.1)) == wrr_spec(text@),
{
    let from: [char; 1] = ['\n'];
    let to: [char; 1] = [' '];
    proof {
        assert(from@ =~= seq!['\n']);
        assert(to@ =~= seq![' ']);
    }
    let t = string_of(&replace(&chars_of(text), &from, &to));
    let weakness = match parse_wrr_field(t.as_str(), "Weakness") {
        Some(w) => Some(string_of(&first_word(&chars_of(w.as_str())))),
        None => None,
    };
    let retreat = match parse_wrr_field(t.as_str(), "Retreat") {
        Some(r) => Some(count_retreat_pips(r.as_str())),
        None => None,
    };
    (weakness, retreat)
}

// ───────────────────────── damage ─────────────────────────

pub open spec fn ascii_digits(s: Seq<char>) -> Seq<char>
    decreases s.len(),
{
    if s.len() == 0 {
        Seq::empty()
    } else if is_digit(s.last()) {
        ascii_digits(s.drop_last()).push(s.last())
    } else {
        ascii_digits(s.drop_last())
    }
}

/// The first character that is neither an ASCII digit nor white space.
pub open spec fn first_suffix(s: Seq<char>) -> Option<char>
    decreases s.len(),
{
    if s.len() == 0 {
        None
    } else if !is_digit(s[0]) && !is_ws(s[0]) {
        Some(s[0])
    } else {
        first_suffix(s.drop_first())
    }
}

/// "20+" → (20, Some("+")); "40" → (40, None); "" → (0, None). The damage is the
/// number its digits spell (0 when it does not fit a `u32`).
pub open spec fn damage_spec(raw: Seq<char>) -> (nat, Option<Seq<char>>) {
    if raw.len() == 0 {
        (0, None)
    } else {
        let d = match parse_unsigned_spec(ascii_digits(raw), u32::MAX as nat) {
            Some(n) => n,
            None => 0,
        };
        let suffix = match first_suffix(raw) {
            Some(c) => Some(seq![c]),
            None => None,
        };
        (d, suffix)
    }
}

fn suffix_char(v: &[char]) -> (r: Option<char>)
    ensures
        r == first_suffix(v@),
{
    let mut j: usize = 0;
    assert(v@.subrange(0, v@.len() as int) =~= v@);
    while j < v.len()
        invariant
            j <= v@.len(),
            first_suffix(v@) == first_suffix(v@.subrange(j as int, v@.len() as int)),
        decreases v.len() - j,
    {
        let ghost rest = v@.subrange(j as int, v@.len() as int);
        assert(rest.drop_first() =~= v@.subrange(j + 1, v@.len() as int));
        let c = v[j];
        if !('0' <= c && c <= '9') && !char_is_ws(c) {
            return Some(c);
        }
        j += 1;
    }
    None
}

pub fn parse_damage(raw: &str) -> (r: (u32, Option<String>))
    ensures
        (r.0 as nat, opt_view(r.1)) == damage_spec(raw@),
{
    let v = chars_of(raw);
    if v.len() == 0 {
        return (0, None);
    }
    let mut digits: Vec<char> = Vec::new();
    let mut i: usize = 0;
    while i < v.len()
        invariant
            i <= v@.len(),
            digits@ == ascii_digits(v@.subrange(0, i as int)),
        decreases v.len() - i,
    {
        assert(v@.subrange(0, i + 1).drop_last() =~= v@.subrange(0, i as int));
        if '0' <= v[i] && v[i] <= '9' {
            digits.push(v[i]);
        }
        i += 1;
    }
    assert(v@.subrange(0, v@.len() as int) =~= v@);
    let damage = match parse_u32(&digits) {
        Some(n) => n,
        None => 0,
    };
    let suffix = match suffix_char(&v) {
        Some(c) => {
            let mut one: Vec<char> = Vec::new();
            one.push(c);
            assert(one@ =~= seq![c]);
            Some(string_of(&one))
        },
        None => None,
    };
    (damage, suffix)
}


// ───────────────────────── variants ─────────────────────────

pub open spec fn known_prefixes() -> Seq<Seq<char>> {
    seq!["Alolan"@, "Galarian"@, "Hisuian"@, "Paldean"@]
}

pub open spec fn known_suffixes() -> Seq<Seq<char>> {
    seq!["Teal Mask"@, "Hearthflame Mask"@, "Wellspring Mask"@, "Cornerstone Mask"@]
}

/// The members of `cands` that `keep` accepts, in order.
pub open spec fn kept(cands: Seq<Seq<char>>, name: Seq<char>, prefix: bool) -> Seq<Seq<char>>
    decreases cands.len(),
{
    if cands.len() == 0 {
        Seq::empty()
    } else {
        let r = kept(cands.drop_last(), name, prefix);
        let c = cands.last();
        if (prefix && starts_with_spec(name, c)) || (!prefix && ends_with_spec(name, c)) {
            r.push(c)
        } else {
            r
        }
    }
}

/// The regional prefixes the name starts with, then the mask suffixes it ends
/// with: "Alolan Vulpix" → ["Alolan"].
pub open spec fn name_variants_spec(name: Seq<char>) -> Seq<Seq<char>> {
    kept(known_prefixes(), name, true) + kept(known_suffixes(), name, false)
}

fn push_kept(out: &mut Vec<String>, name: &[char], cands: &Vec<Vec<char>>, prefix: bool)
    ensures
        strings_view(final(out)@) == strings_view(old(out)@) + kept(
            cands@.map_values(|v: Vec<char>| v@),
            name@,
            prefix,
        ),
{
    let ghost cs = cands@.map_values(|v: Vec<char>| v@);
    let ghost start = strings_view(out@);
    let mut i: usize = 0;
    while i < cands.len()
        invariant
            i <= cands@.len(),
            cs == cands@.map_values(|v: Vec<char>| v@),
            strings_view(out@) == start + kept(cs.subrange(0, i as int), name@, prefix),
        decreases cands.len() - i,
    {
        assert(cs.subrange(0, i + 1).drop_last() =~= cs.subrange(0, i as int));
        let c = &cands[i];
        let hit = if prefix {
            starts_with(name, c)
        } else {
            ends_with(name, c)
        };
        if hit {
            let ghost before = out@;
            out.push(string_of(c));
            assert(strings_view(out@) =~= strings_view(before).push(c@));
        }
        i += 1;
    }
    assert(cs.subrange(0, cs.len() as int) =~= cs);
}

/// Named variant identifiers in a card name (regional forms and masks).
pub fn extract_variants(name: &str) -> (r: Vec<String>)
    ensures
        strings_view(r@) == name_variants_spec(name@),
{
    let n = chars_of(name);
    let mut pre: Vec<Vec<char>> = Vec::new();
    pre.push(lit("Alolan"));
    pre.push(lit("Galarian"));
    pre.push(lit("Hisuian"));
    pre.push(lit("Paldean"));
    let mut suf: Vec<Vec<char>> = Vec::new();
    suf.push(lit("Teal Mask"));
    suf.push(lit("Hearthflame Mask"));
    suf.push(lit("Wellspring Mask"));
    suf.push(lit("Cornerstone Mask"));
    assert(pre@.map_values(|v: Vec<char>| v@) =~= known_prefixes());
    assert(suf@.map_values(|v: Vec<char>| v@) =~= known_suffixes());
    let mut out: Vec<String> = Vec::new();
    assert(strings_view(out@) =~= Seq::<Seq<char>>::empty());
    push_kept(&mut out, &n, &pre, true);
    push_kept(&mut out, &n, &suf, false);
    out
}

// ───────────────────────── CDN addresses ─────────────────────────

pub open spec fn cdn_base() -> Seq<char> {
    "https://limitlesstcg.nyc3.cdn.digitaloceanspaces.com/pocket/"@
}

pub open spec fn cdn_thumb_url_spec(set_code: Seq<char>, number: nat) -> Seq<char> {
    cdn_base() + set_code + "/"@ + set_code + "_"@ + padded_spec(number, 3) + "_EN_SM.webp"@
}

pub open spec fn cdn_full_url_spec(set_code: Seq<char>, number: nat) -> Seq<char> {
    cdn_base() + set_code + "/"@ + set_code + "_"@ + padded_spec(number, 3) + "_EN.png"@
}

fn cdn_url(set_code: &str, number: u32, tail: &str) -> (r: String)
    ensures
        r@ == cdn_base() + set_code@ + "/"@ + set_code@ + "_"@ + padded_spec(number as nat, 3) + tail@,
{
    let sc = chars_of(set_code);
    let mut v = concat(&lit("https://limitlesstcg.nyc3.cdn.digitaloceanspaces.com/pocket/"), &sc);
    v = concat(&v, &lit("/"));
    v = concat(&v, &sc);
    v = concat(&v, &lit("_"));
    v = concat(&v, &padded(number as u64, 3));
    v = concat(&v, &lit(tail));
    string_of(&v)
}

/// Thumbnail (WebP) of a card, number zero-padded to three digits.
pub fn cdn_thumb_url(set_code: &str, number: u32) -> (r: String)
    ensures
        r@ == cdn_thumb_url_spec(set_code@, number as nat),
{
    cdn_url(set_code, number, "_EN_SM.webp")
}

/// Full-size image (PNG) of a card, number zero-padded to three digits.
pub fn cdn_full_url(set_code: &str, number: u32) -> (r: String)
    ensures
        r@ == cdn_full_url_spec(set_code@, number as nat),
{
    cdn_url(set_code, number, "_EN.png")
}

pub open spec fn set_icon_url_spec(set_code: Seq<char>) -> Seq<char> {
    "https://s3.limitlesstcg.com/pocket/sets/"@ + set_code + ".webp"@
}

/// A set's icon.
pub fn set_icon_url(set_code: &str) -> (r: String)
    ensures
        r@ == set_icon_url_spec(set_code@),
{
    let v = concat(&lit("https://s3.limitlesstcg.com/pocket/sets/"), &chars_of(set_code));
    string_of(&concat(&v, &lit(".webp")))
}

// ───────────────────────── small helpers ─────────────────────────

/// `str::trim_start_matches` with a non-empty string pattern: every leading
/// repetition is removed.
pub open spec fn strip_all_prefix(s: Seq<char>, p: Seq<char>) -> Seq<char>
    decreases s.len(),
{
    if p.len() > 0 && starts_with_spec(s, p) {
        strip_all_prefix(s.subrange(p.len() as int, s.len() as int), p)
    } else {
        s
    }
}

fn strip_all(s: &[char], p: &[char]) -> (r: Vec<char>)
    requires
        p@.len() > 0,
    ensures
        r@ == strip_all_prefix(s@, p@),
{
    let mut cur = slice_copy(s, 0, s.len());
    assert(s@.subrange(0, s@.len() as int) =~= s@);
    while starts_with(&cur, p)
        invariant
            p@.len() > 0,
            strip_all_prefix(cur@, p@) == strip_all_prefix(s@, p@),
        decreases cur@.len(),
    {
        cur = slice_copy(&cur, p.len(), cur.len());
    }
    cur
}

/// "A1" → "A", "B2a" → "B", "P-A" → "A": the series letter of a set code.
pub open spec fn series_spec(code: Seq<char>) -> Seq<char> {
    if starts_with_spec(code, "P-"@) {
        let rest = strip_all_prefix(code, "P-"@);
        if rest.len() > 0 {
            seq![rest[0]]
        } else {
            seq!['A']
        }
    } else if code.len() > 0 {
        seq![code[0]]
    } else {
        Seq::empty()
    }
}

pub fn parse_series(code: &str) -> (r: String)
    ensures
        r@ == series_spec(code@),
{
    let c = chars_of(code);
    let pd = lit("P-");
    proof {
        reveal_strlit("P-");
    }
    if starts_with(&c, &pd) {
        let rest = strip_all(&c, &pd);
        let mut one: Vec<char> = Vec::new();
        if rest.len() > 0 {
            one.push(rest[0]);
        } else {
            one.push('A');
        }
        string_of(&one)
    } else if c.len() > 0 {
        let mut one: Vec<char> = Vec::new();
        one.push(c[0]);
        string_of(&one)
    } else {
        string_of(&c)
    }
}

/// The first character upper-cased (it may become several), the rest kept.
pub open spec fn title_case_spec(s: Seq<char>) -> Seq<char> {
    if s.len() == 0 {
        Seq::empty()
    } else {
        char_upper_of(s[0]) + s.drop_first()
    }
}

pub fn title_case(s: &str) -> (r: String)
    ensures
        r@ == title_case_spec(s@),
{
    let c = chars_of(s);
    if c.len() == 0 {
        return string_of(&c);
    }
    let head = char_to_uppercase(c[0]);
    let rest = slice_copy(&c, 1, c.len());
    assert(rest@ =~= c@.drop_first());
    string_of(&concat(&head, &rest))
}

} // verus!
