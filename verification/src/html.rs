//! Reading HTML pages through CSS selectors. Parsing HTML and matching
//! selectors is `scraper`'s work; what the pages are read for is this
//! library's. An element is handed over as plain values: its text nodes, the
//! attributes asked for, and its classes.
use vstd::prelude::*;

verus! {

/// What is read of one element of a page.
pub struct Element {
    /// The element's descendant text nodes, in document order.
    pub texts: Vec<String>,
    /// The values of the attributes asked for, in the order asked.
    pub attrs: Vec<Option<String>>,
    /// The element's classes, as `scraper` lists them.
    pub classes: Vec<String>,
}

/// An element as plain values: text nodes, attribute values, classes.
pub type ElementModel = (Seq<Seq<char>>, Seq<Option<Seq<char>>>, Seq<Seq<char>>);

pub open spec fn strings_model(v: Seq<String>) -> Seq<Seq<char>> {
    v.map_values(|s: String| s@)
}

pub open spec fn opt_model(o: Option<String>) -> Option<Seq<char>> {
    match o {
        Some(s) => Some(s@),
        None => None,
    }
}

impl View for Element {
    type V = ElementModel;

    open spec fn view(&self) -> ElementModel {
        (
            strings_model(self.texts@),
            self.attrs@.map_values(|o: Option<String>| opt_model(o)),
            strings_model(self.classes@),
        )
    }
}

pub open spec fn elements_model(v: Seq<Element>) -> Seq<ElementModel> {
    v.map_values(|e: Element| e@)
}

pub open spec fn groups_model(v: Seq<Vec<Element>>) -> Seq<Seq<ElementModel>> {
    v.map_values(|g: Vec<Element>| elements_model(g@))
}

/// Name for what `scraper` finds in a page: the elements of `html` (parsed with
/// `Html::parse_document`) that match `selector`, in document order; `None`
/// when the selector does not parse.
pub uninterp spec fn html_select(html: Seq<char>, selector: Seq<char>, attrs: Seq<Seq<char>>) -> Option<Seq<ElementModel>>;

/// Name for what `scraper` finds under each match of `outer`: for every
/// element of `html` matching `outer`, in document order, the descendants of
/// that element matching `inner`; `None` when a selector does not parse.
pub uninterp spec fn html_select_within(html: Seq<char>, outer: Seq<char>, inner: Seq<char>, attrs: Seq<Seq<char>>) -> Option<Seq<Seq<ElementModel>>>;

/// Calls `scraper::Html::parse_document`, `scraper::Selector::parse` and
/// `Html::select`; the elements found are named by `html_select`.
#[verifier::external_body]
pub(crate) fn select(html: &str, selector: &str, attrs: &Vec<String>) -> (r: Option<Vec<Element>>)
    ensures
        match r {
            Some(v) => html_select(html@, selector@, strings_model(attrs@)) == Some(elements_model(v@)),
            None => html_select(html@, selector@, strings_model(attrs@)) is None,
        },
{
    let doc = scraper::Html::parse_document(html);
    let sel = scraper::Selector::parse(selector).ok()?;
    let plain = |e: scraper::ElementRef| Element {
        texts: e.text().map(String::from).collect(),
        attrs: attrs.iter().map(|a| e.value().attr(a).map(String::from)).collect(),
        classes: e.value().classes().map(String::from).collect(),
    };
    Some(doc.select(&sel).map(plain).collect())
}

/// Calls `scraper::Html::parse_document`, `scraper::Selector::parse`,
/// `Html::select` and `ElementRef::select`; the groups found are named by
/// `html_select_within`.
#[verifier::external_body]
pub(crate) fn select_within(html: &str, outer: &str, inner: &str, attrs: &Vec<String>) -> (r: Option<Vec<Vec<Element>>>)
    ensures
        match r {
            Some(v) => html_select_within(html@, outer@, inner@, strings_model(attrs@)) == Some(groups_model(v@)),
            None => html_select_within(html@, outer@, inner@, strings_model(attrs@)) is None,
        },
{
    let doc = scraper::Html::parse_document(html);
    let plain = |e: scraper::ElementRef| Element {
        texts: e.text().map(String::from).collect(),
        attrs: attrs.iter().map(|a| e.value().attr(a).map(String::from)).collect(),
        classes: e.value().classes().map(String::from).collect(),
    };
    let (o, i) = (scraper::Selector::parse(outer).ok()?, scraper::Selector::parse(inner).ok()?);
    Some(doc.select(&o).map(|e| e.select(&i).map(&plain).collect()).collect())
}

// ───────────────────────── reading elements ─────────────────────────

/// All text nodes of an element, concatenated (`ElementRef::text` collected
/// into a `String`).
pub open spec fn texts_concat(ts: Seq<Seq<char>>) -> Seq<char>
    decreases ts.len(),
{
    if ts.len() == 0 {
        Seq::empty()
    } else {
        texts_concat(ts.drop_last()) + ts.last()
    }
}

pub open spec fn text_of(m: ElementModel) -> Seq<char> {
    texts_concat(m.0)
}

/// The element's text.
pub fn element_text(e: &Element) -> (r: String)
    ensures
        r@ == text_of(e@),
{
    let mut acc: Vec<char> = Vec::new();
    let mut i: usize = 0;
    let ghost ts = e@.0;
    while i < e.texts.len()
        invariant
            i <= e.texts@.len(),
            ts == strings_model(e.texts@),
            acc@ == texts_concat(ts.subrange(0, i as int)),
        decreases e.texts.len() - i,
    {
        assert(ts.subrange(0, i + 1).drop_last() =~= ts.subrange(0, i as int));
        let piece = crate::text::chars_of(e.texts[i].as_str());
        acc = crate::text::concat(&acc, &piece);
        i += 1;
    }
    assert(ts.subrange(0, ts.len() as int) =~= ts);
    crate::text::string_of(&acc)
}

/// The value of the `k`-th attribute asked for, if the element has it.
pub fn element_attr(e: &Element, k: usize) -> (r: Option<String>)
    ensures
        opt_model(r) == (if k < e@.1.len() { e@.1[k as int] } else { None }),
{
    if k < e.attrs.len() {
        match &e.attrs[k] {
            Some(s) => Some(s.clone()),
            None => None,
        }
    } else {
        None
    }
}

} // verus!
