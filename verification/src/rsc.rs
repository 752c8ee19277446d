//! Finding the pull-rate data in a RaenonX pack page. The page streams its
//! data as `self.__next_f.push([1,"…"])` calls whose argument is a JSON string
//! literal; the chunk that names the pull-rate map is unescaped and the JSON
//! value after a key is located in it.
use vstd::prelude::*;
use crate::text::{
    chars_of, string_of, concat, slice_copy, find, find_from, find_spec, match_at, contains,
    lemma_find_spec_first, lemma_find_spec_none, lemma_find_spec_some, lemma_match_shift,
    starts_with_spec,
};
use crate::rates::{PullRateError, RateApprox, build_variants, build_variants_spec, variants_view, opt_ref, VariantView};
use crate::json::JsonValue;
use crate::models::PackPullRates;

verus! {

pub open spec fn push_open() -> Seq<char> {
    "self.__next_f.push([1,\""@
}

pub open spec fn push_close() -> Seq<char> {
    "\"])"@
}

/// Where a string body that starts at `j` ends: at the first quote that is
/// not escaped. A backslash escapes the next character unless that is a line
/// break (the body then cannot end).
pub open spec fn body_end(s: Seq<char>, j: int) -> Option<int>
    decreases s.len() - j,
{
    if j < 0 || j >= s.len() {
        None
    } else if s[j] == '"' {
        Some(j)
    } else if s[j] == '\\' {
        if j + 1 < s.len() && s[j + 1] != '\n' {
            body_end(s, j + 2)
        } else {
            None
        }
    } else {
        body_end(s, j + 1)
    }
}

pub proof fn lemma_body_end_after(s: Seq<char>, j: int)
    ensures
        body_end(s, j) matches Some(e) ==> j <= e < s.len() && s[e] == '"',
    decreases s.len() - j,
{
    if 0 <= j < s.len() && s[j] != '"' {
        if s[j] == '\\' {
            if j + 1 < s.len() && s[j + 1] != '\n' {
                lemma_body_end_after(s, j + 2);
            }
        } else {
            lemma_body_end_after(s, j + 1);
        }
    }
}

/// A push call starting at `p`: the bounds of its string body.
pub open spec fn push_at(s: Seq<char>, p: int) -> Option<(int, int)> {
    if match_at(s, push_open(), p) {
        match body_end(s, p + push_open().len()) {
            Some(e) => if match_at(s, push_close(), e) {
                Some((p + push_open().len(), e))
            } else {
                None
            },
            None => None,
        }
    } else {
        None
    }
}

/// The bodies of the push calls from position `i` on, each search resuming
/// after the previous call (the leftmost-first matches of the pattern
/// `self\.__next_f\.push\(\[1,"((?:[^"\\]|\\.)*)"\]\)`).
pub open spec fn pushes_from(s: Seq<char>, i: int) -> Seq<Seq<char>>
    decreases s.len() - i,
{
    if i < 0 || i > s.len() {
        Seq::empty()
    } else {
        match find_spec(s.subrange(i, s.len() as int), push_open()) {
            None => Seq::empty(),
            Some(k) => {
                let p = i + k;
                match push_at(s, p) {
                    Some((b, e)) => {
                        proof {
                            lemma_body_end_after(s, b);
                        }
                        if e + push_close().len() > i {
                            seq![s.subrange(b, e)] + pushes_from(s, e + push_close().len())
                        } else {
                            Seq::empty()
                        }
                    },
                    None => if p + 1 > i && p + 1 <= s.len() {
                        pushes_from(s, p + 1)
                    } else {
                        Seq::empty()
                    },
                }
            },
        }
    }
}

fn body_end_exec(s: &[char], j: usize) -> (r: Option<usize>)
    ensures
        match r {
            Some(e) => body_end(s@, j as int) == Some(e as int),
            None => body_end(s@, j as int) is None,
        },
{
    let mut k = j;
    while k < s.len()
        invariant
            j <= k,
            body_end(s@, j as int) == body_end(s@, k as int),
        decreases s.len() - k,
    {
        if s[k] == '"' {
            return Some(k);
        } else if s[k] == '\\' {
            if k + 1 < s.len() && s[k + 1] != '\n' {
                k = k + 2;
            } else {
                return None;
            }
        } else {
            k = k + 1;
        }
    }
    None
}

fn push_at_exec(s: &[char], open: &[char], close: &[char], p: usize) -> (r: Option<(usize, usize)>)
    requires
        open@ == push_open(),
        close@ == push_close(),
        match_at(s@, push_open(), p as int),
    ensures
        match r {
            Some((b, e)) => push_at(s@, p as int) == Some((b as int, e as int)),
            None => push_at(s@, p as int) is None,
        },
{
    let n = s.len();
    assert(p + open@.len() <= n);
    let b = p + open.len();
    match body_end_exec(s, b) {
        Some(e) => {
            proof {
                lemma_body_end_after(s@, b as int);
            }
            if close.len() <= n - e && crate::text::seq_eq(&slice_copy(s, e, e + close.len()), close) {
                Some((b, e))
            } else {
                None
            }
        },
        None => None,
    }
}

/// The bodies of all push calls in a page, in order.
pub fn push_bodies(html: &str) -> (r: Vec<Vec<char>>)
    ensures
        r@.map_values(|v: Vec<char>| v@) == pushes_from(html@, 0),
{
    let s = chars_of(html);
    let open = chars_of("self.__next_f.push([1,\"");
    let close = chars_of("\"])");
    let mut out: Vec<Vec<char>> = Vec::new();
    let mut i: usize = 0;
    while i <= s.len()
        invariant
            i <= s@.len() + 1,
            s@ == html@,
            open@ == push_open(),
            close@ == push_close(),
            i <= s@.len() ==> out@.map_values(|v: Vec<char>| v@) + pushes_from(s@, i as int) == pushes_from(s@, 0),
            i > s@.len() ==> out@.map_values(|v: Vec<char>| v@) == pushes_from(s@, 0),
        decreases s@.len() + 1 - i,
    {
        let ghost before = out@.map_values(|v: Vec<char>| v@);
        match find_from(&s, &open, i) {
            None => {
                proof {
                    let t = s@.subrange(i as int, s@.len() as int);
                    assert forall|k: int| !match_at(t, push_open(), k) by {
                        lemma_match_shift(s@, push_open(), i as int, k);
                    }
                    lemma_find_spec_none(t, push_open());
                    assert(pushes_from(s@, i as int) =~= Seq::<Seq<char>>::empty());
                    assert(before + Seq::<Seq<char>>::empty() =~= before);
                }
                return out;
            },
            Some(p) => {
                proof {
                    let t = s@.subrange(i as int, s@.len() as int);
                    lemma_match_shift(s@, push_open(), i as int, p - i);
                    assert forall|k: int| 0 <= k < p - i implies !match_at(t, push_open(), k) by {
                        lemma_match_shift(s@, push_open(), i as int, k);
                    }
                    lemma_find_spec_first(t, push_open(), p - i);
                    assert(find_spec(t, push_open()) == Some(p - i));
                    assert(p + push_open().len() <= s@.len());
                    reveal_strlit("self.__next_f.push([1,\"");
                    assert(push_open().len() > 0);
                }
                match push_at_exec(&s, &open, &close, p) {
                    Some((b, e)) => {
                        proof {
                            lemma_body_end_after(s@, b as int);
                            assert(push_at(s@, p as int) == Some((b as int, e as int)));
                            assert(e + push_close().len() > i);
                        }
                        let body = slice_copy(&s, b, e);
                        out.push(body);
                        proof {
                            assert(out@.map_values(|v: Vec<char>| v@) =~= before.push(s@.subrange(b as int, e as int)));
                            assert(pushes_from(s@, i as int) == seq![s@.subrange(b as int, e as int)] + pushes_from(
                                s@,
                                e + push_close().len(),
                            ));
                            assert(before.push(s@.subrange(b as int, e as int)) + pushes_from(s@, e + push_close().len()) =~= before + (seq![s@.subrange(b as int, e as int)] + pushes_from(s@, e + push_close().len())));
                        }
                        i = e + close.len();
                    },
                    None => {
                        proof {
                            assert(pushes_from(s@, i as int) == pushes_from(s@, p + 1));
                        }
                        i = p + 1;
                    },
                }
            },
        }
    }
    out
}

/// Name for what `serde_json::from_str::<String>` gives for a JSON text: the
/// string a JSON string literal stands for, `None` when it is not one.
pub uninterp spec fn json_string_value(text: Seq<char>) -> Option<Seq<char>>;

/// Calls `serde_json::from_str::<String>`; its result is named by
/// `json_string_value`.
#[verifier::external_body]
fn parse_json_string(text: &str) -> (r: Option<String>)
    ensures
        match r {
            Some(v) => json_string_value(text@) == Some(v@),
            None => json_string_value(text@) is None,
        },
{
    serde_json::from_str::<String>(text).ok()
}

/// The first push body that holds `key`.
pub open spec fn first_with_key(bodies: Seq<Seq<char>>, key: Seq<char>) -> Option<Seq<char>>
    decreases bodies.len(),
{
    if bodies.len() == 0 {
        None
    } else if find_spec(bodies[0], key) is Some {
        Some(bodies[0])
    } else {
        first_with_key(bodies.drop_first(), key)
    }
}

/// The push body that holds `key`, unescaped as the JSON string literal it
/// is.
pub open spec fn rsc_chunk_spec(html: Seq<char>, key: Seq<char>) -> Result<Seq<char>, PullRateError> {
    match first_with_key(pushes_from(html, 0), key) {
        None => Err(PullRateError::ChunkNotFound),
        Some(body) => match json_string_value(seq!['"'] + body + seq!['"']) {
            Some(v) => Ok(v),
            None => Err(PullRateError::ChunkUnescape),
        },
    }
}

pub fn extract_rsc_chunk(html: &str, key: &str) -> (r: Result<String, PullRateError>)
    ensures
        match r {
            Ok(t) => rsc_chunk_spec(html@, key@) == Ok::<Seq<char>, PullRateError>(t@),
            Err(e) => rsc_chunk_spec(html@, key@) == Err::<Seq<char>, PullRateError>(e),
        },
{
    let bodies = push_bodies(html);
    let ghost bs = bodies@.map_values(|v: Vec<char>| v@);
    let k = chars_of(key);
    let mut i: usize = 0;
    assert(bs.subrange(0, bs.len() as int) =~= bs);
    while i < bodies.len()
        invariant
            i <= bodies@.len(),
            bs == bodies@.map_values(|v: Vec<char>| v@),
            bs == pushes_from(html@, 0),
            k@ == key@,
            first_with_key(bs, key@) == first_with_key(bs.subrange(i as int, bs.len() as int), key@),
        decreases bodies.len() - i,
    {
        let ghost rest = bs.subrange(i as int, bs.len() as int);
        assert(rest.drop_first() =~= bs.subrange(i + 1, bs.len() as int));
        assert(rest[0] == bodies@[i as int]@);
        if contains(&bodies[i], &k) {
            assert(first_with_key(rest, key@) == Some(rest[0]));
            assert(first_with_key(pushes_from(html@, 0), key@) == Some(bodies@[i as int]@));
            let mut quoted: Vec<char> = Vec::new();
            quoted.push('"');
            let mut q = concat(&quoted, &bodies[i]);
            q.push('"');
            assert(q@ =~= seq!['"'] + bodies@[i as int]@ + seq!['"']);
            let qs = string_of(&q);
            return match parse_json_string(qs.as_str()) {
                Some(v) => {
                    assert(rsc_chunk_spec(html@, key@) == Ok::<Seq<char>, PullRateError>(v@));
                    Ok(v)
                },
                None => Err(PullRateError::ChunkUnescape),
            };
        }
        i += 1;
    }
    assert(bs.subrange(i as int, bs.len() as int) =~= Seq::<Seq<char>>::empty());
    Err(PullRateError::ChunkNotFound)
}

/// The text that follows `"key":` in a chunk, where the key's value starts.
pub open spec fn json_at_key_spec(text: Seq<char>, key: Seq<char>) -> Result<Seq<char>, PullRateError> {
    let search = seq!['"'] + key + "\":"@;
    match find_spec(text, search) {
        Some(p) => Ok(text.subrange(p + search.len(), text.len() as int)),
        None => Err(PullRateError::KeyNotFound),
    }
}

/// Locates the JSON value of `key` in a chunk: the text from the value on
/// (the value is read from its start with a streaming JSON reader).
pub fn extract_json_at_key(text: &str, key: &str) -> (r: Result<String, PullRateError>)
    ensures
        match r {
            Ok(t) => json_at_key_spec(text@, key@) == Ok::<Seq<char>, PullRateError>(t@),
            Err(e) => json_at_key_spec(text@, key@) == Err::<Seq<char>, PullRateError>(e),
        },
{
    let t = chars_of(text);
    let n = t.len();
    let mut search: Vec<char> = Vec::new();
    search.push('"');
    let search = concat(&concat(&search, &chars_of(key)), &chars_of("\":"));
    assert(search@ =~= seq!['"'] + key@ + "\":"@);
    match find(&t, &search) {
        Some(p) => {
            proof {
                lemma_find_spec_some(t@, search@);
                assert(match_at(t@, search@, p as int));
                assert(p + search@.len() <= n);
            }
            Ok(string_of(&slice_copy(&t, p + search.len(), t.len())))
        },
        None => Err(PullRateError::KeyNotFound),
    }
}

/// A pack's pull rates from the pull-rate map and pack data read from its
/// page (see `build_variants`).
pub fn parse_rsc_pull_rates(
    card_map: &JsonValue,
    pack_data: Option<&JsonValue>,
    pack_id: &str,
    set: &str,
    subtitle: &str,
    approx: &RateApprox,
) -> (r: Result<PackPullRates, PullRateError>)
    ensures
        match r {
            Ok(p) => p.set@ == set@ && p.subtitle@ == subtitle@ && build_variants_spec(
                pack_id@,
                *card_map,
                opt_ref(pack_data),
                approx.entries@,
            ) == Ok::<Seq<(Seq<char>, VariantView)>, PullRateError>(variants_view(p.variants@)),
            Err(e) => build_variants_spec(pack_id@, *card_map, opt_ref(pack_data), approx.entries@) == Err::<
                Seq<(Seq<char>, VariantView)>,
                PullRateError,
            >(e),
        },
{
    match build_variants(pack_id, card_map, pack_data, approx) {
        Ok(variants) => Ok(
            PackPullRates {
                set: string_of(&chars_of(set)),
                subtitle: string_of(&chars_of(subtitle)),
                variants,
            },
        ),
        Err(e) => Err(e),
    }
}

} // verus!
