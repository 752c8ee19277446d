//! Character-sequence operations used by the parsers, each specified over
//! `Seq<char>` (the view of `str` and `String`).
use vstd::prelude::*;

verus! {

broadcast use vstd::slice::group_slice_axioms;

// ───────────────────────── character classes ─────────────────────────

/// Unicode `White_Space` property, as used by `char::is_whitespace` and
/// therefore by `str::trim` and `str::split_whitespace`.
pub open spec fn is_ws(c: char) -> bool {
    ||| ('\u{9}' <= c && c <= '\u{d}')
    ||| c == ' '
    ||| c == '\u{85}'
    ||| c == '\u{a0}'
    ||| c == '\u{1680}'
    ||| ('\u{2000}' <= c && c <= '\u{200a}')
    ||| c == '\u{2028}'
    ||| c == '\u{2029}'
    ||| c == '\u{202f}'
    ||| c == '\u{205f}'
    ||| c == '\u{3000}'
}

pub fn char_is_ws(c: char) -> (r: bool)
    ensures
        r == is_ws(c),
{
    ('\u{9}' <= c && c <= '\u{d}') || c == ' ' || c == '\u{85}' || c == '\u{a0}' || c
        == '\u{1680}' || ('\u{2000}' <= c && c <= '\u{200a}') || c == '\u{2028}' || c
        == '\u{2029}' || c == '\u{202f}' || c == '\u{205f}' || c == '\u{3000}'
}

pub open spec fn is_digit(c: char) -> bool {
    '0' <= c && c <= '9'
}

pub open spec fn digit_value(c: char) -> int {
    (c as int) - ('0' as int)
}

// ───────────────────────── conversions ─────────────────────────

/// The characters of a string slice, in order.
pub(crate) fn chars_of(s: &str) -> (r: Vec<char>)
    ensures
        r@ == s@,
{
    broadcast use vstd::string::axiom_spec_iter;
    let mut v: Vec<char> = Vec::new();
    for c in it: s.chars()
        invariant
            v@ == it.seq().take(it.index() as int),
            it.seq() == s@,
    {
        v.push(c);
    }
    v
}

/// A string made of the given characters (`String: FromIterator<char>`).
#[verifier::external_body]
pub(crate) fn string_of(v: &[char]) -> (r: String)
    ensures
        r@ == v@,
{
    v.iter().collect()
}

/// Every character is ASCII.
pub open spec fn all_ascii(s: Seq<char>) -> bool {
    forall|i: int| 0 <= i < s.len() ==> (#[trigger] s[i] as int) < 128
}

/// The Unicode lower-case mapping of an ASCII character: `A`–`Z` to `a`–`z`,
/// every other character unchanged.
pub open spec fn ascii_lower(c: char) -> char {
    if 'A' <= c && c <= 'Z' {
        ((c as int) + 32) as char
    } else {
        c
    }
}

/// The Unicode upper-case mapping of an ASCII character: `a`–`z` to `A`–`Z`,
/// every other character unchanged.
pub open spec fn ascii_upper(c: char) -> char {
    if 'a' <= c && c <= 'z' {
        ((c as int) - 32) as char
    } else {
        c
    }
}

/// Name for the result of `str::to_lowercase` (full Unicode case mapping).
pub uninterp spec fn lowercase(s: Seq<char>) -> Seq<char>;

/// Name for the result of `str::to_uppercase` (full Unicode case mapping).
pub uninterp spec fn uppercase(s: Seq<char>) -> Seq<char>;

/// A string lower-cased: on ASCII text `A`–`Z` become `a`–`z`; otherwise
/// what `lowercase` names.
pub open spec fn lower_of(s: Seq<char>) -> Seq<char> {
    if all_ascii(s) {
        s.map_values(|c: char| ascii_lower(c))
    } else {
        lowercase(s)
    }
}

/// A string upper-cased: on ASCII text `a`–`z` become `A`–`Z`; otherwise
/// what `uppercase` names.
pub open spec fn upper_of(s: Seq<char>) -> Seq<char> {
    if all_ascii(s) {
        s.map_values(|c: char| ascii_upper(c))
    } else {
        uppercase(s)
    }
}

/// One character upper-cased: an ASCII one alone; otherwise what
/// `char_uppercase` names.
pub open spec fn char_upper_of(c: char) -> Seq<char> {
    if (c as int) < 128 {
        seq![ascii_upper(c)]
    } else {
        char_uppercase(c)
    }
}

/// Calls `str::to_lowercase`; its result is named by `lowercase`. On ASCII
/// text the Unicode mapping only lowers `A`–`Z`, one character for one.
#[verifier::external_body]
pub(crate) fn to_lowercase(s: &str) -> (r: String)
    ensures
        r@ == lowercase(s@),
        all_ascii(s@) ==> r@ == s@.map_values(|c: char| ascii_lower(c)),
{
    s.to_lowercase()
}

/// Calls `str::to_uppercase`; its result is named by `uppercase`. On ASCII
/// text the Unicode mapping only raises `a`–`z`, one character for one.
#[verifier::external_body]
pub(crate) fn to_uppercase(s: &str) -> (r: String)
    ensures
        r@ == uppercase(s@),
        all_ascii(s@) ==> r@ == s@.map_values(|c: char| ascii_upper(c)),
{
    s.to_uppercase()
}

/// Name for the characters that `char::to_uppercase` yields for one character.
pub uninterp spec fn char_uppercase(c: char) -> Seq<char>;

/// Calls `char::to_uppercase` and collects the characters it yields; an
/// ASCII character yields its ASCII upper-case form alone.
#[verifier::external_body]
pub(crate) fn char_to_uppercase(c: char) -> (r: Vec<char>)
    ensures
        r@ == char_uppercase(c),
        (c as int) < 128 ==> r@ == seq![ascii_upper(c)],
{
    c.to_uppercase().collect()
}

/// Copy of `v[lo..hi]`.
pub fn slice_copy(v: &[char], lo: usize, hi: usize) -> (r: Vec<char>)
    requires
        lo <= hi <= v@.len(),
    ensures
        r@ == v@.subrange(lo as int, hi as int),
{
    let mut r: Vec<char> = Vec::new();
    let mut i = lo;
    while i < hi
        invariant
            lo <= i <= hi <= v@.len(),
            r@ == v@.subrange(lo as int, i as int),
        decreases hi - i,
    {
        r.push(v[i]);
        i += 1;
    }
    r
}

/// Concatenation of two character vectors.
pub fn concat(a: &[char], b: &[char]) -> (r: Vec<char>)
    ensures
        r@ == a@ + b@,
{
    let mut r = slice_copy(a, 0, a.len());
    let mut i: usize = 0;
    while i < b.len()
        invariant
            i <= b@.len(),
            r@ == a@ + b@.subrange(0, i as int),
        decreases b.len() - i,
    {
        r.push(b[i]);
        i += 1;
        assert(b@.subrange(0, i as int) == b@.subrange(0, i - 1) + seq![b@[i - 1]]);
    }
    assert(b@.subrange(0, b@.len() as int) == b@);
    r
}

pub fn seq_eq(a: &[char], b: &[char]) -> (r: bool)
    ensures
        r == (a@ == b@),
{
    if a.len() != b.len() {
        return false;
    }
    let mut i: usize = 0;
    while i < a.len()
        invariant
            a@.len() == b@.len(),
            i <= a@.len(),
            forall|j: int| 0 <= j < i ==> a@[j] == b@[j],
        decreases a.len() - i,
    {
        if a[i] != b[i] {
            return false;
        }
        i += 1;
    }
    assert(a@ =~= b@);
    true
}

pub fn str_eq(a: &str, b: &str) -> (r: bool)
    ensures
        r == (a@ == b@),
{
    let x = chars_of(a);
    let y = chars_of(b);
    seq_eq(&x, &y)
}

// ───────────────────────── trimming ─────────────────────────

pub open spec fn trim_start_spec(s: Seq<char>) -> Seq<char>
    decreases s.len(),
{
    if s.len() > 0 && is_ws(s[0]) {
        trim_start_spec(s.drop_first())
    } else {
        s
    }
}

pub open spec fn trim_end_spec(s: Seq<char>) -> Seq<char>
    decreases s.len(),
{
    if s.len() > 0 && is_ws(s.last()) {
        trim_end_spec(s.drop_last())
    } else {
        s
    }
}

/// `str::trim`: leading and trailing white space removed.
pub open spec fn trim_spec(s: Seq<char>) -> Seq<char> {
    trim_end_spec(trim_start_spec(s))
}

pub fn trim_chars(v: &[char]) -> (r: Vec<char>)
    ensures
        r@ == trim_spec(v@),
{
    let n = v.len();
    let mut i: usize = 0;
    assert(v@.subrange(0, n as int) =~= v@);
    while i < n && char_is_ws(v[i])
        invariant
            n == v@.len(),
            i <= n,
            trim_start_spec(v@) == trim_start_spec(v@.subrange(i as int, n as int)),
        decreases n - i,
    {
        assert(v@.subrange(i as int, n as int).drop_first() =~= v@.subrange(i + 1, n as int));
        i += 1;
    }
    let ghost t = v@.subrange(i as int, n as int);
    assert(trim_start_spec(t) == t);
    let mut j: usize = n;
    while j > i && char_is_ws(v[j - 1])
        invariant
            i <= j <= n == v@.len(),
            trim_end_spec(t) == trim_end_spec(v@.subrange(i as int, j as int)),
            t == v@.subrange(i as int, n as int),
        decreases j,
    {
        assert(v@.subrange(i as int, j as int).drop_last() =~= v@.subrange(i as int, j - 1));
        j -= 1;
    }
    slice_copy(v, i, j)
}

pub fn trim(s: &str) -> (r: String)
    ensures
        r@ == trim_spec(s@),
{
    let v = chars_of(s);
    let t = trim_chars(&v);
    string_of(&t)
}

// ───────────────────────── searching ─────────────────────────

pub open spec fn match_at(s: Seq<char>, p: Seq<char>, i: int) -> bool {
    0 <= i && i + p.len() <= s.len() && s.subrange(i, i + p.len()) == p
}

/// Position (in characters) of the first occurrence of `p` in `s`, as
/// `str::find` with a string pattern.
#[verifier::opaque]
pub open spec fn find_spec(s: Seq<char>, p: Seq<char>) -> Option<int> {
    if exists|i: int| match_at(s, p, i) {
        Some(choose|i: int| match_at(s, p, i) && forall|j: int| 0 <= j < i ==> !match_at(s, p, j))
    } else {
        None
    }
}

pub proof fn lemma_find_spec_first(s: Seq<char>, p: Seq<char>, i: int)
    requires
        match_at(s, p, i),
        forall|j: int| 0 <= j < i ==> !match_at(s, p, j),
    ensures
        find_spec(s, p) == Some(i),
{
    reveal(find_spec);
    let k = choose|k: int| match_at(s, p, k) && forall|j: int| 0 <= j < k ==> !match_at(s, p, j);
    assert(match_at(s, p, k) && forall|j: int| 0 <= j < k ==> !match_at(s, p, j));
    if k < i {
        assert(!match_at(s, p, k));
    }
    if i < k {
        assert(!match_at(s, p, i));
    }
}

pub proof fn lemma_find_spec_some(s: Seq<char>, p: Seq<char>)
    requires
        find_spec(s, p) is Some,
    ensures
        match_at(s, p, find_spec(s, p)->0),
        forall|j: int| 0 <= j < find_spec(s, p)->0 ==> !match_at(s, p, j),
{
    reveal(find_spec);
    let w = choose|i: int| match_at(s, p, i);
    // there is a first match: take the least one
    let k = least_match(s, p, w);
    lemma_find_spec_first(s, p, k);
}

pub proof fn lemma_find_spec_none(s: Seq<char>, p: Seq<char>)
    requires
        forall|j: int| !match_at(s, p, j),
    ensures
        find_spec(s, p) is None,
{
    reveal(find_spec);
}

proof fn least_match(s: Seq<char>, p: Seq<char>, w: int) -> (k: int)
    requires
        match_at(s, p, w),
    ensures
        match_at(s, p, k),
        forall|j: int| 0 <= j < k ==> !match_at(s, p, j),
    decreases w,
{
    if exists|j: int| 0 <= j < w && match_at(s, p, j) {
        let j = choose|j: int| 0 <= j < w && match_at(s, p, j);
        least_match(s, p, j)
    } else {
        w
    }
}

fn match_here(s: &[char], p: &[char], i: usize) -> (r: bool)
    requires
        i <= s@.len(),
    ensures
        r == match_at(s@, p@, i as int),
{
    if p.len() > s.len() - i {
        return false;
    }
    let mut k: usize = 0;
    while k < p.len()
        invariant
            i + p@.len() <= s@.len(),
            i <= s.len(),
            k <= p@.len(),
            forall|j: int| 0 <= j < k ==> s@[i + j] == p@[j],
        decreases p.len() - k,
    {
        if s[i + k] != p[k] {
            assert(s@.subrange(i as int, i + p@.len())[k as int] != p@[k as int]);
            return false;
        }
        k += 1;
    }
    assert(s@.subrange(i as int, i + p@.len()) =~= p@);
    true
}

/// First occurrence of `p` in `s` at or after `from`.
pub fn find_from(s: &[char], p: &[char], from: usize) -> (r: Option<usize>)
    requires
        from <= s@.len(),
    ensures
        match r {
            Some(i) => from <= i && match_at(s@, p@, i as int) && forall|j: int|
                from <= j < i ==> !match_at(s@, p@, j),
            None => forall|j: int| from <= j ==> !match_at(s@, p@, j),
        },
{
    let mut i = from;
    loop
        invariant
            from <= i <= s@.len(),
            forall|j: int| from <= j < i ==> !match_at(s@, p@, j),
        decreases s@.len() - i,
    {
        if match_here(s, p, i) {
            return Some(i);
        }
        if i == s.len() {
            return None;
        }
        i += 1;
    }
}

pub fn find(s: &[char], p: &[char]) -> (r: Option<usize>)
    ensures
        match r {
            Some(i) => find_spec(s@, p@) == Some(i as int),
            None => find_spec(s@, p@) is None,
        },
{
    let r = find_from(s, p, 0);
    proof {
        match r {
            Some(i) => lemma_find_spec_first(s@, p@, i as int),
            None => {
                assert forall|j: int| !match_at(s@, p@, j) by {
                    if j < 0 {
                    }
                }
                lemma_find_spec_none(s@, p@);
            },
        }
    }
    r
}

pub fn contains(s: &[char], p: &[char]) -> (r: bool)
    ensures
        r == find_spec(s@, p@) is Some,
{
    find(s, p).is_some()
}

pub fn contains_char(s: &[char], c: char) -> (r: bool)
    ensures
        r == s@.contains(c),
{
    let mut i: usize = 0;
    while i < s.len()
        invariant
            i <= s@.len(),
            forall|j: int| 0 <= j < i ==> s@[j] != c,
        decreases s.len() - i,
    {
        if s[i] == c {
            return true;
        }
        i += 1;
    }
    false
}

pub open spec fn starts_with_spec(s: Seq<char>, p: Seq<char>) -> bool {
    p.len() <= s.len() && s.subrange(0, p.len() as int) == p
}

pub open spec fn ends_with_spec(s: Seq<char>, p: Seq<char>) -> bool {
    p.len() <= s.len() && s.subrange(s.len() - p.len(), s.len() as int) == p
}

pub fn starts_with(s: &[char], p: &[char]) -> (r: bool)
    ensures
        r == starts_with_spec(s@, p@),
{
    match_here(s, p, 0)
}

pub fn ends_with(s: &[char], p: &[char]) -> (r: bool)
    ensures
        r == ends_with_spec(s@, p@),
{
    if p.len() > s.len() {
        return false;
    }
    match_here(s, p, s.len() - p.len())
}

/// `str::strip_prefix`.
pub fn strip_prefix(s: &[char], p: &[char]) -> (r: Option<Vec<char>>)
    ensures
        match r {
            Some(t) => starts_with_spec(s@, p@) && t@ == s@.subrange(p@.len() as int, s@.len() as int),
            None => !starts_with_spec(s@, p@),
        },
{
    if starts_with(s, p) {
        Some(slice_copy(s, p.len(), s.len()))
    } else {
        None
    }
}

// ───────────────────────── splitting ─────────────────────────

/// `str::split_once` with a string pattern.
pub open spec fn split_once_spec(s: Seq<char>, p: Seq<char>) -> Option<(Seq<char>, Seq<char>)> {
    match find_spec(s, p) {
        Some(i) => Some((s.subrange(0, i), s.subrange(i + p.len(), s.len() as int))),
        None => None,
    }
}

pub fn split_once(s: &[char], p: &[char]) -> (r: Option<(Vec<char>, Vec<char>)>)
    ensures
        match r {
            Some((a, b)) => split_once_spec(s@, p@) == Some((a@, b@)),
            None => split_once_spec(s@, p@) is None,
        },
{
    let n = s.len();
    match find(s, p) {
        Some(i) => {
            proof {
                lemma_find_spec_some(s@, p@);
                assert(match_at(s@, p@, i as int));
                assert(i + p@.len() <= s@.len());
            }
            Some((slice_copy(s, 0, i), slice_copy(s, i + p.len(), s.len())))
        },
        None => None,
    }
}

/// The first piece of `str::split` with a string pattern.
pub open spec fn first_piece_spec(s: Seq<char>, p: Seq<char>) -> Seq<char> {
    match find_spec(s, p) {
        Some(i) => s.subrange(0, i),
        None => s,
    }
}

pub fn first_piece(s: &[char], p: &[char]) -> (r: Vec<char>)
    ensures
        r@ == first_piece_spec(s@, p@),
{
    match find(s, p) {
        Some(i) => {
            proof {
                lemma_find_spec_some(s@, p@);
            }
            slice_copy(s, 0, i)
        },
        None => slice_copy(s, 0, s.len()),
    }
}

/// All pieces of `str::split` with a single-character separator.
pub open spec fn split_char_spec(s: Seq<char>, c: char) -> Seq<Seq<char>>
    decreases s.len(),
{
    if s.len() == 0 {
        seq![Seq::<char>::empty()]
    } else {
        let r = split_char_spec(s.drop_last(), c);
        if s.last() == c {
            r.push(Seq::<char>::empty())
        } else {
            r.update(r.len() - 1, r.last().push(s.last()))
        }
    }
}

pub proof fn lemma_split_char_nonempty(s: Seq<char>, c: char)
    ensures
        split_char_spec(s, c).len() >= 1,
    decreases s.len(),
{
    if s.len() > 0 {
        lemma_split_char_nonempty(s.drop_last(), c);
    }
}

pub fn split_char(s: &[char], c: char) -> (r: Vec<Vec<char>>)
    ensures
        r@.len() == split_char_spec(s@, c).len(),
        forall|k: int| 0 <= k < r@.len() ==> #[trigger] r@[k]@ == split_char_spec(s@, c)[k],
{
    let mut done: Vec<Vec<char>> = Vec::new();
    let mut cur: Vec<char> = Vec::new();
    let mut i: usize = 0;
    while i < s.len()
        invariant
            i <= s@.len(),
            ({
                let sp = split_char_spec(s@.subrange(0, i as int), c);
                &&& sp.len() == done@.len() + 1
                &&& forall|k: int| 0 <= k < done@.len() ==> #[trigger] done@[k]@ == sp[k]
                &&& cur@ == sp.last()
            }),
        decreases s.len() - i,
    {
        proof {
            let t = s@.subrange(0, i + 1);
            assert(t.drop_last() =~= s@.subrange(0, i as int));
            lemma_split_char_nonempty(s@.subrange(0, i as int), c);
        }
        if s[i] == c {
            let piece = slice_copy(&cur, 0, cur.len());
            assert(piece@ =~= cur@);
            done.push(piece);
            cur = Vec::new();
        } else {
            cur.push(s[i]);
        }
        i += 1;
    }
    done.push(cur);
    assert(s@.subrange(0, s@.len() as int) =~= s@);
    done
}

/// Pieces of `str::split_whitespace`: the maximal runs of non-white-space characters.
pub open spec fn words_spec(s: Seq<char>) -> Seq<Seq<char>>
    decreases s.len(),
{
    if s.len() == 0 {
        Seq::empty()
    } else if is_ws(s.last()) {
        words_spec(s.drop_last())
    } else {
        let r = words_spec(s.drop_last());
        if s.len() >= 2 && !is_ws(s[s.len() - 2]) {
            r.update(r.len() - 1, r.last().push(s.last()))
        } else {
            r.push(seq![s.last()])
        }
    }
}

pub proof fn lemma_words_nonempty(s: Seq<char>)
    ensures
        s.len() > 0 && !is_ws(s.last()) ==> words_spec(s).len() >= 1,
    decreases s.len(),
{
    if s.len() > 0 {
        lemma_words_nonempty(s.drop_last());
    }
}

pub fn words(s: &[char]) -> (r: Vec<Vec<char>>)
    ensures
        r@.len() == words_spec(s@).len(),
        forall|k: int| 0 <= k < r@.len() ==> #[trigger] r@[k]@ == words_spec(s@)[k],
{
    let mut done: Vec<Vec<char>> = Vec::new();
    let mut cur: Vec<char> = Vec::new();
    let mut i: usize = 0;
    while i < s.len()
        invariant
            i <= s@.len(),
            ({
                let sp = words_spec(s@.subrange(0, i as int));
                &&& (cur@.len() > 0 ==> sp.len() == done@.len() + 1 && cur@ == sp.last())
                &&& (cur@.len() == 0 ==> sp.len() == done@.len())
                &&& forall|k: int| 0 <= k < done@.len() ==> #[trigger] done@[k]@ == sp[k]
                &&& (cur@.len() > 0 <==> (i > 0 && !is_ws(s@[i - 1])))
            }),
        decreases s.len() - i,
    {
        proof {
            let t = s@.subrange(0, i + 1);
            assert(t.drop_last() =~= s@.subrange(0, i as int));
            lemma_words_nonempty(s@.subrange(0, i as int));
            if i > 0 {
                assert(s@.subrange(0, i as int).last() == s@[i - 1]);
            }
        }
        if char_is_ws(s[i]) {
            if cur.len() > 0 {
                let piece = slice_copy(&cur, 0, cur.len());
                assert(piece@ =~= cur@);
                done.push(piece);
                cur = Vec::new();
            }
        } else {
            cur.push(s[i]);
        }
        i += 1;
    }
    if cur.len() > 0 {
        done.push(cur);
    }
    assert(s@.subrange(0, s@.len() as int) =~= s@);
    done
}

/// `[T]::join` of character sequences with a separator.
pub open spec fn join_spec(ps: Seq<Seq<char>>, sep: Seq<char>) -> Seq<char>
    decreases ps.len(),
{
    if ps.len() == 0 {
        Seq::empty()
    } else if ps.len() == 1 {
        ps[0]
    } else {
        join_spec(ps.drop_last(), sep) + sep + ps.last()
    }
}

pub fn join(ps: &Vec<Vec<char>>, sep: &[char]) -> (r: Vec<char>)
    ensures
        r@ == join_spec(ps@.map_values(|v: Vec<char>| v@), sep@),
{
    let ghost vs = ps@.map_values(|v: Vec<char>| v@);
    let mut r: Vec<char> = Vec::new();
    let mut i: usize = 0;
    while i < ps.len()
        invariant
            i <= ps@.len(),
            vs == ps@.map_values(|v: Vec<char>| v@),
            r@ == join_spec(vs.subrange(0, i as int), sep@),
        decreases ps.len() - i,
    {
        assert(vs.subrange(0, i + 1).drop_last() =~= vs.subrange(0, i as int));
        if i > 0 {
            r = concat(&r, sep);
        }
        r = concat(&r, &ps[i]);
        i += 1;
    }
    assert(vs.subrange(0, ps@.len() as int) =~= vs);
    r
}

// ───────────────────────── replacing ─────────────────────────

/// `str::replace` with a non-empty string pattern: every non-overlapping
/// occurrence, scanning left to right, is replaced.
#[verifier::opaque]
pub open spec fn replace_spec(s: Seq<char>, from: Seq<char>, to: Seq<char>) -> Seq<char>
    decreases s.len(),
{
    if from.len() == 0 {
        s
    } else {
        match find_spec(s, from) {
            Some(i) => if 0 <= i && i + from.len() <= s.len() {
                s.subrange(0, i) + to + replace_spec(
                    s.subrange(i + from.len(), s.len() as int),
                    from,
                    to,
                )
            } else {
                s
            },
            None => s,
        }
    }
}

pub proof fn lemma_match_shift(s: Seq<char>, p: Seq<char>, a: int, k: int)
    requires
        0 <= a <= s.len(),
    ensures
        match_at(s.subrange(a, s.len() as int), p, k) == (0 <= k && match_at(s, p, a + k)),
{
    let t = s.subrange(a, s.len() as int);
    if 0 <= k && k + p.len() <= t.len() {
        assert(t.subrange(k, k + p.len()) =~= s.subrange(a + k, a + k + p.len()));
    }
}

proof fn lemma_replace_step(s: Seq<char>, from: Seq<char>, to: Seq<char>, pos: int, i: int)
    requires
        from.len() > 0,
        0 <= pos <= i,
        match_at(s, from, i),
        forall|j: int| pos <= j < i ==> !match_at(s, from, j),
    ensures
        replace_spec(s.subrange(pos, s.len() as int), from, to) == s.subrange(pos, i) + to
            + replace_spec(s.subrange(i + from.len(), s.len() as int), from, to),
{
    let t = s.subrange(pos, s.len() as int);
    lemma_match_shift(s, from, pos, i - pos);
    assert forall|j: int| 0 <= j < i - pos implies !match_at(t, from, j) by {
        lemma_match_shift(s, from, pos, j);
    }
    lemma_find_spec_first(t, from, i - pos);
    reveal(replace_spec);
    assert(t.subrange(0, i - pos) =~= s.subrange(pos, i));
    assert(t.subrange(i - pos + from.len(), t.len() as int) =~= s.subrange(
        i + from.len(),
        s.len() as int,
    ));
}

proof fn lemma_replace_none(s: Seq<char>, from: Seq<char>, to: Seq<char>, pos: int)
    requires
        from.len() > 0,
        0 <= pos <= s.len(),
        forall|j: int| pos <= j ==> !match_at(s, from, j),
    ensures
        replace_spec(s.subrange(pos, s.len() as int), from, to) == s.subrange(pos, s.len() as int),
{
    let t = s.subrange(pos, s.len() as int);
    assert forall|j: int| #![auto] !match_at(t, from, j) by {
        lemma_match_shift(s, from, pos, j);
    }
    lemma_find_spec_none(t, from);
    reveal(replace_spec);
}

pub fn replace(s: &[char], from: &[char], to: &[char]) -> (r: Vec<char>)
    requires
        from@.len() > 0,
    ensures
        r@ == replace_spec(s@, from@, to@),
{
    let mut r: Vec<char> = Vec::new();
    let mut pos: usize = 0;
    assert(s@.subrange(0, s@.len() as int) =~= s@);
    loop
        invariant
            from@.len() > 0,
            pos <= s@.len(),
            r@ + replace_spec(s@.subrange(pos as int, s@.len() as int), from@, to@) == replace_spec(
                s@,
                from@,
                to@,
            ),
        decreases s@.len() - pos,
    {
        let n = s.len();
        match find_from(s, from, pos) {
            Some(i) => {
                proof {
                    lemma_replace_step(s@, from@, to@, pos as int, i as int);
                    assert(i + from@.len() <= n);
                }
                let piece = slice_copy(s, pos, i);
                let ghost r0 = r@;
                r = concat(&r, &piece);
                r = concat(&r, to);
                assert(r@ == r0 + s@.subrange(pos as int, i as int) + to@);
                proof {
                    let rest = replace_spec(s@.subrange(i + from@.len(), s@.len() as int), from@, to@);
                    assert(r@ + rest =~= r0 + (s@.subrange(pos as int, i as int) + to@ + rest));
                }
                pos = i + from.len();
            },
            None => {
                proof {
                    lemma_replace_none(s@, from@, to@, pos as int);
                }
                let piece = slice_copy(s, pos, s.len());
                r = concat(&r, &piece);
                assert(r@ == replace_spec(s@, from@, to@));
                return r;
            },
        }
    }
}

// ───────────────────────── numbers ─────────────────────────

pub open spec fn all_digits(s: Seq<char>) -> bool {
    forall|i: int| 0 <= i < s.len() ==> is_digit(#[trigger] s[i])
}

/// Decimal value of a sequence of ASCII digits.
pub open spec fn digits_value(s: Seq<char>) -> nat
    decreases s.len(),
{
    if s.len() == 0 {
        0
    } else {
        (digits_value(s.drop_last()) * 10 + digit_value(s.last())) as nat
    }
}

/// The digits that `str::parse` of an unsigned integer reads: an optional
/// leading `+` is skipped.
pub open spec fn unsigned_body(s: Seq<char>) -> Seq<char> {
    if s.len() > 0 && s[0] == '+' {
        s.drop_first()
    } else {
        s
    }
}

/// `str::parse::<uN>` where `max` is the type's maximum.
pub open spec fn parse_unsigned_spec(s: Seq<char>, max: nat) -> Option<nat> {
    let b = unsigned_body(s);
    if b.len() > 0 && all_digits(b) && digits_value(b) <= max {
        Some(digits_value(b))
    } else {
        None
    }
}

proof fn lemma_parse_none(s: Seq<char>, max: nat)
    requires
        !all_digits(unsigned_body(s)) || unsigned_body(s).len() == 0 || digits_value(unsigned_body(s)) > max,
    ensures
        parse_unsigned_spec(s, max) is None,
{
}

proof fn lemma_digits_prefix_bound(s: Seq<char>, i: int)
    requires
        all_digits(s),
        0 <= i <= s.len(),
    ensures
        digits_value(s.subrange(0, i)) <= digits_value(s),
    decreases s.len() - i,
{
    if i < s.len() {
        lemma_digits_prefix_bound(s, i + 1);
        let t = s.subrange(0, i + 1);
        assert(t.drop_last() =~= s.subrange(0, i));
        assert(all_digits(t));
    } else {
        assert(s.subrange(0, i) =~= s);
    }
}

/// `str::parse::<u64>`.
pub fn parse_u64(s: &[char]) -> (r: Option<u64>)
    ensures
        match r {
            Some(v) => parse_unsigned_spec(s@, u64::MAX as nat) == Some(v as nat),
            None => parse_unsigned_spec(s@, u64::MAX as nat) is None,
        },
{
    let start: usize = if s.len() > 0 && s[0] == '+' {
        1
    } else {
        0
    };
    let ghost b = unsigned_body(s@);
    assert(b =~= s@.subrange(start as int, s@.len() as int));
    if start >= s.len() {
        return None;
    }
    let mut acc: u128 = 0;
    let mut i = start;
    while i < s.len()
        invariant
            start <= i <= s@.len(),
            b =~= s@.subrange(start as int, s@.len() as int),
            b == unsigned_body(s@),
            all_digits(s@.subrange(start as int, i as int)),
            acc == digits_value(s@.subrange(start as int, i as int)),
            acc <= u64::MAX,
        decreases s.len() - i,
    {
        let c = s[i];
        proof {
            let t = s@.subrange(start as int, i + 1);
            assert(t.drop_last() =~= s@.subrange(start as int, i as int));
            assert(t.last() == c);
        }
        if !('0' <= c && c <= '9') {
            proof {
                assert(b[i - start] == c);
                assert(!is_digit(b[i - start]));
                assert(!all_digits(b));
                lemma_parse_none(s@, u64::MAX as nat);
            }
            return None;
        }
        let d = (c as u32 - '0' as u32) as u128;
        let nacc = acc * 10 + d;
        proof {
            let t = s@.subrange(start as int, i + 1);
            assert(all_digits(t));
            assert(nacc == digits_value(t));
        }
        if nacc > u64::MAX as u128 {
            proof {
                let t = s@.subrange(start as int, i + 1);
                if all_digits(b) {
                    lemma_digits_prefix_bound(b, i + 1 - start);
                    assert(b.subrange(0, i + 1 - start) =~= t);
                    assert(digits_value(b) > u64::MAX);
                }
                lemma_parse_none(s@, u64::MAX as nat);
            }
            return None;
        }
        acc = nacc;
        i += 1;
    }
    proof {
        assert(s@.subrange(start as int, i as int) =~= b);
    }
    Some(acc as u64)
}

/// `str::parse::<u32>`.
pub fn parse_u32(s: &[char]) -> (r: Option<u32>)
    ensures
        match r {
            Some(v) => parse_unsigned_spec(s@, u32::MAX as nat) == Some(v as nat),
            None => parse_unsigned_spec(s@, u32::MAX as nat) is None,
        },
{
    match parse_u64(s) {
        Some(v) => {
            if v <= u32::MAX as u64 {
                Some(v as u32)
            } else {
                None
            }
        },
        None => {
            proof {
                let b = unsigned_body(s@);
                if b.len() > 0 && all_digits(b) && digits_value(b) <= u32::MAX as nat {
                    assert(digits_value(b) <= u64::MAX as nat);
                }
            }
            None
        },
    }
}

/// Decimal digits of `n`, with no leading zeros (`"0"` for zero).
pub open spec fn decimal_spec(n: nat) -> Seq<char>
    decreases n,
{
    if n < 10 {
        seq![(('0' as int) + n) as char]
    } else {
        decimal_spec(n / 10).push((('0' as int) + n % 10) as char)
    }
}

/// Decimal digits of `n` left-padded with zeros to at least `width` characters
/// (the `{:0width$}` format of an unsigned integer).
pub open spec fn padded_spec(n: nat, width: nat) -> Seq<char> {
    let d = decimal_spec(n);
    if d.len() >= width {
        d
    } else {
        Seq::new((width - d.len()) as nat, |i: int| '0') + d
    }
}

pub fn decimal(n: u64) -> (r: Vec<char>)
    ensures
        r@ == decimal_spec(n as nat),
    decreases n,
{
    if n < 10 {
        let mut r = Vec::new();
        r.push(char_of_digit(n));
        r
    } else {
        let mut r = decimal(n / 10);
        r.push(char_of_digit(n % 10));
        r
    }
}

fn char_of_digit(d: u64) -> (c: char)
    requires
        d < 10,
    ensures
        c == (('0' as int) + d) as char,
{
    if d == 0 { '0' }
    else if d == 1 { '1' }
    else if d == 2 { '2' }
    else if d == 3 { '3' }
    else if d == 4 { '4' }
    else if d == 5 { '5' }
    else if d == 6 { '6' }
    else if d == 7 { '7' }
    else if d == 8 { '8' }
    else { '9' }
}

pub fn padded(n: u64, width: usize) -> (r: Vec<char>)
    ensures
        r@ == padded_spec(n as nat, width as nat),
{
    let d = decimal(n);
    if d.len() >= width {
        d
    } else {
        let mut z: Vec<char> = Vec::new();
        let k = width - d.len();
        while z.len() < k
            invariant
                z.len() <= k,
                forall|i: int| 0 <= i < z@.len() ==> z@[i] == '0',
            decreases k - z.len(),
        {
            z.push('0');
        }
        assert(z@ =~= Seq::new(k as nat, |i: int| '0'));
        concat(&z, &d)
    }
}

} // verus!
