//! The links that a page or a style sheet holds.

use vstd::prelude::*;
use crate::cli::optional_text;
use crate::error::{ErrorModel, WgetError};
use crate::text::{
    in_class, is_white_space, lemma_texts_push, stand_in_order, texts, unquote, unquoted, CharClass,
};
use crate::weburl::{all_tidy, is_tidy, url_join, url_models, url_result, UrlModel, WebUrl};

verus! {

/// The pattern of a `url(...)` reference; its group is what is referred to, with its quotes.
/// Between two quotes of a kind it may hold brackets; else it ends at the first one that closes.
pub const CSS_URL: &'static str =
    r#"url\s*\(\s*("[^'"]+"|'[^'"]+'|['"]?[^'")]+?['"]?)\s*\)"#;

/// The pattern of an `@import` reference; its group is what is referred to.
pub const CSS_IMPORT: &'static str = r#"@import\s+['"]([^'"]+)['"]"#;

/// What a list of optional strings holds.
pub open spec fn optional_texts(list: Seq<Option<String>>) -> Seq<Option<Seq<char>>> {
    list.map_values(|s: Option<String>| optional_text(s))
}

/// A reference in a style sheet.
#[derive(Debug)]
pub struct CssReference {
    /// The whole reference, as it stands in the style sheet.
    pub whole: String,
    /// What it refers to, as it is written: with its quotes, where it has any.
    pub written: String,
}

/// What a list of references holds: each whole, and what it refers to as it is written.
pub open spec fn reference_texts(list: Seq<CssReference>) -> Seq<(Seq<char>, Seq<char>)> {
    list.map_values(|r: CssReference| (r.whole@, r.written@))
}

/// The whole of each reference of a style sheet.
pub open spec fn wholes(references: Seq<(Seq<char>, Seq<char>)>) -> Seq<Seq<char>> {
    references.map_values(|r: (Seq<char>, Seq<char>)| r.0)
}

/// What `scraper` finds in a document: for each element that the selector `tag` matches, in
/// the order of the parsed tree's nodes, the value of the attribute, where the element has
/// it; or the message of the error, where `tag` is no selector.
pub uninterp spec fn html_attributes(
    html: Seq<char>,
    tag: Seq<char>,
    attribute: Seq<char>,
) -> Result<Seq<Option<Seq<char>>>, Seq<char>>;

/// What `regex` finds in a text: for each match of the pattern, from left to right, the whole
/// match and its first group.
pub uninterp spec fn regex_captures(pattern: Seq<char>, text: Seq<char>) -> Seq<
    (Seq<char>, Seq<char>),
>;

/// Whether what a `url()` reference refers to, as it is written, ends no later than at the
/// first bracket that closes, unless quotes stand round it.
pub open spec fn is_enclosed(written: Seq<char>) -> bool {
    ||| !written.contains(')')
    ||| written.len() >= 2 && in_class(written[0], CharClass::Quote) && written.last()
        == written[0]
}

/// Whether all references of a style sheet are [enclosed](is_enclosed).
pub open spec fn all_enclosed(references: Seq<(Seq<char>, Seq<char>)>) -> bool {
    forall|i: int| 0 <= i < references.len() ==> is_enclosed((#[trigger] references[i]).1)
}

/// What looking for attributes gave.
pub open spec fn attributes_result(r: Result<Vec<Option<String>>, String>) -> Result<
    Seq<Option<Seq<char>>>,
    Seq<char>,
> {
    match r {
        Ok(list) => Ok(optional_texts(list@)),
        Err(message) => Err(message@),
    }
}

/// The bytes that a page may have, so that no text of the parsed page is longer than two to the
/// 31, though each byte may become three.
pub const PAGE_LIMIT: usize = 0x2aaa_aaaa;

/// The brackets and combinators that a selector may hold.
pub const SELECTOR_DEPTH: usize = 64;

/// Whether a page has no more than [`PAGE_LIMIT`] bytes.
pub open spec fn is_parsable(html: Seq<char>) -> bool {
    vstd::utf8::encode_utf8(html).len() as usize <= PAGE_LIMIT
}

/// Whether a character opens a bracket or combines two selectors.
pub open spec fn is_joint(c: char) -> bool {
    c == '(' || c == '>' || c == '+' || c == '~' || is_white_space(c)
}

/// The characters of a selector that open a bracket or combine two selectors.
pub open spec fn joints(selector: Seq<char>) -> nat
    decreases selector.len(),
{
    if selector.len() == 0 {
        0
    } else {
        joints(selector.drop_last()) + if is_joint(selector.last()) {
            1nat
        } else {
            0nat
        }
    }
}

/// Whether `has(` stands in a selector at a position, in upper or lower case.
pub open spec fn has_at(selector: Seq<char>, i: int) -> bool {
    &&& 0 <= i
    &&& i + 4 <= selector.len()
    &&& selector[i] == 'h' || selector[i] == 'H'
    &&& selector[i + 1] == 'a' || selector[i + 1] == 'A'
    &&& selector[i + 2] == 's' || selector[i + 2] == 'S'
    &&& selector[i + 3] == '('
}

/// Whether a selector is matched without calls nested deeper than [`SELECTOR_DEPTH`] allows,
/// however deep a page is: it is no longer than a page may be, holds no more brackets and
/// combinators than that, and no `:has()`, neither in plain letters nor by an escape.
pub open spec fn is_shallow(selector: Seq<char>) -> bool {
    &&& selector.len() <= PAGE_LIMIT
    &&& joints(selector) <= SELECTOR_DEPTH
    &&& selector.contains('(') ==> !selector.contains('\\') && forall|i: int|
        !has_at(selector, i)
}

/// Whether a page is short enough to be parsed.
pub fn page_fits(html: &str) -> (r: bool)
    ensures
        r == is_parsable(html@),
{
    html.len() <= PAGE_LIMIT
}

/// Calls `scraper::Selector::parse`, `scraper::Html::parse_document` and `Html::select`, and
/// reads the attribute of each element with `Element::attr`. It asks for a page that is short
/// enough: the parser holds each text of a page in a buffer whose length is a power of two and
/// a 32-bit number. It asks for a shallow selector: each selector nested in brackets and each
/// combined one takes a call inside another, without a limit, and `:has()` takes one for each
/// level of the page. Claimed of it: the result is what [`html_attributes`] names, a function
/// of the three texts alone.
#[verifier::external_body]
pub(crate) fn select_attributes(html: &str, tag: &str, attribute: &str) -> (r: Result<
    Vec<Option<String>>,
    String,
>)
    requires
        is_parsable(html@),
        is_shallow(tag@),
    ensures
        attributes_result(r) == html_attributes(html@, tag@, attribute@),
{
    let selector = scraper::Selector::parse(tag).map_err(|e| e.to_string())?;
    let document = scraper::Html::parse_document(html);
    let values = document.select(&selector).map(|e| e.value().attr(attribute).map(|v| v.to_string()));
    Ok(values.collect())
}

/// Calls `regex::Regex::new` and `Regex::captures_iter`, and reads each match and its first
/// group. It asks for one of the two patterns of this module: both are regular expressions,
/// and their group takes part in every match. Claimed of it: the result is what
/// [`regex_captures`] names, a function of the pattern and the text alone; the matches stand in
/// the text one behind the other, without overlap; and the group of a `url()` reference holds
/// no closing bracket, unless it begins and ends with the same quote.
#[verifier::external_body]
pub(crate) fn find_captures(pattern: &str, text: &str) -> (r: Vec<CssReference>)
    requires
        pattern@ == CSS_URL@ || pattern@ == CSS_IMPORT@,
    ensures
        reference_texts(r@) == regex_captures(pattern@, text@),
        stand_in_order(text@, wholes(reference_texts(r@))),
        pattern@ == CSS_URL@ ==> all_enclosed(reference_texts(r@)),
{
    regex::Regex::new(pattern).unwrap().captures_iter(text).map(|c| CssReference {
        whole: c[0].to_string(),
        written: c[1].to_string(),
    }).collect()
}

/// The URLs that references denote on a base, without those that denote none.
pub open spec fn resolved(base: Seq<char>, references: Seq<Seq<char>>) -> Seq<UrlModel>
    decreases references.len(),
{
    if references.len() == 0 {
        Seq::empty()
    } else {
        let before = resolved(base, references.drop_last());
        match url_join(base, references.last()) {
            Ok(url) => before.push(url),
            Err(_) => before,
        }
    }
}

/// The values of the attributes that are there.
pub open spec fn present(values: Seq<Option<Seq<char>>>) -> Seq<Seq<char>>
    decreases values.len(),
{
    if values.len() == 0 {
        Seq::empty()
    } else {
        let before = present(values.drop_last());
        match values.last() {
            Some(value) => before.push(value),
            None => before,
        }
    }
}

/// What the references of a style sheet refer to.
pub open spec fn targets(references: Seq<(Seq<char>, Seq<char>)>) -> Seq<Seq<char>> {
    references.map_values(|r: (Seq<char>, Seq<char>)| unquote(r.1))
}

/// Adds a URL to those found, where the reference denotes one.
pub fn push_resolved(urls: &mut Vec<WebUrl>, joined: Result<WebUrl, String>)
    ensures
        url_models(final(urls)@) == match url_result(joined) {
            Ok(url) => url_models(old(urls)@).push(url),
            Err(_) => url_models(old(urls)@),
        },
{
    match joined {
        Ok(url) => {
            urls.push(url);
            assert(url_models(urls@) =~= url_models(old(urls)@).push(url@));
        },
        Err(_) => {},
    }
}

/// Adds the URLs that references denote on a base.
pub fn resolve_references(urls: &mut Vec<WebUrl>, references: &Vec<String>, base_url: &WebUrl)
    ensures
        url_models(final(urls)@) == url_models(old(urls)@) + resolved(
            base_url@.text,
            texts(references@),
        ),
        all_tidy(resolved(base_url@.text, texts(references@))),
{
    let ghost all = texts(references@);
    let mut i: usize = 0;
    assert(url_models(urls@) =~= url_models(old(urls)@) + resolved(base_url@.text, all.take(0)));
    while i < references.len()
        invariant
            i <= references@.len(),
            all == texts(references@),
            url_models(urls@) == url_models(old(urls)@) + resolved(
                base_url@.text,
                all.take(i as int),
            ),
            all_tidy(resolved(base_url@.text, all.take(i as int))),
        decreases references@.len() - i,
    {
        let joined = base_url.join(references[i].as_str());
        push_resolved(urls, joined);
        assert(all[i as int] == references@[i as int]@);
        assert(all.take(i + 1).drop_last() =~= all.take(i as int));
        i += 1;
        assert(url_models(urls@) =~= url_models(old(urls)@) + resolved(
            base_url@.text,
            all.take(i as int),
        ));
    }
    assert(all.take(i as int) =~= all);
}

/// Two lists of tidy URLs make one.
pub proof fn lemma_all_tidy(a: Seq<UrlModel>, b: Seq<UrlModel>)
    requires
        all_tidy(a),
        all_tidy(b),
    ensures
        all_tidy(a + b),
{
    let both = a + b;
    assert forall|i: int| 0 <= i < both.len() implies is_tidy(#[trigger] both[i]) by {
        if i < a.len() {
            assert(both[i] == a[i]);
        } else {
            assert(both[i] == b[i - a.len()]);
        }
    }
}

/// The values of the attributes that are there.
pub fn present_values(values: &Vec<Option<String>>) -> (r: Vec<String>)
    ensures
        texts(r@) == present(optional_texts(values@)),
{
    let ghost all = optional_texts(values@);
    let mut kept: Vec<String> = Vec::new();
    let mut i: usize = 0;
    assert(texts(kept@) =~= present(all.take(0)));
    while i < values.len()
        invariant
            i <= values@.len(),
            all == optional_texts(values@),
            texts(kept@) == present(all.take(i as int)),
        decreases values@.len() - i,
    {
        assert(all[i as int] == optional_text(values@[i as int]));
        assert(all.take(i + 1).drop_last() =~= all.take(i as int));
        match &values[i] {
            Some(value) => {
                proof {
                    lemma_texts_push(kept@, *value);
                }
                kept.push(value.clone());
            },
            None => {},
        }
        i += 1;
    }
    assert(all.take(i as int) =~= all);
    kept
}

/// The links that the elements of one tag hold.
pub open spec fn tag_links(
    html: Seq<char>,
    tag: Seq<char>,
    attribute: Seq<char>,
    base: Seq<char>,
) -> Result<Seq<UrlModel>, ErrorModel> {
    match html_attributes(html, tag, attribute) {
        Ok(values) => Ok(resolved(base, present(values))),
        Err(reason) => Err(ErrorModel::InvalidSelector(reason)),
    }
}

/// Extracts links from specific HTML tags.
pub fn extract_links_from_tag(
    html: &str,
    tag_name: &str,
    attr_name: &str,
    urls: &mut Vec<WebUrl>,
    base_url: &WebUrl,
) -> (r: Result<(), WgetError>)
    requires
        is_parsable(html@),
        is_shallow(tag_name@),
    ensures
        match tag_links(html@, tag_name@, attr_name@, base_url@.text) {
            Ok(links) => r is Ok && url_models(final(urls)@) == url_models(old(urls)@) + links
                && all_tidy(links),
            Err(e) => r matches Err(error) && error@ == e && final(urls)@ == old(urls)@,
        },
{
    match select_attributes(html, tag_name, attr_name) {
        Ok(values) => {
            let references = present_values(&values);
            resolve_references(urls, &references, base_url);
            Ok(())
        },
        Err(reason) => Err(WgetError::InvalidSelector(reason)),
    }
}

/// What the references of a style sheet refer to.
pub fn reference_targets(references: &Vec<CssReference>) -> (r: Vec<String>)
    ensures
        texts(r@) == targets(reference_texts(references@)),
{
    let mut list: Vec<String> = Vec::new();
    let mut i: usize = 0;
    while i < references.len()
        invariant
            i <= references@.len(),
            texts(list@) == targets(reference_texts(references@)).take(i as int),
        decreases references@.len() - i,
    {
        let target = unquoted(references[i].written.as_str());
        proof {
            lemma_texts_push(list@, target);
        }
        list.push(target);
        i += 1;
        assert(texts(list@) =~= targets(reference_texts(references@)).take(i as int));
    }
    assert(targets(reference_texts(references@)).take(i as int) =~= targets(
        reference_texts(references@),
    ));
    list
}

/// The links of a style sheet: the `url()` references, then the `@import` references.
pub open spec fn css_links(css: Seq<char>, base: Seq<char>) -> Seq<UrlModel> {
    resolved(base, targets(regex_captures(CSS_URL@, css))) + resolved(
        base,
        targets(regex_captures(CSS_IMPORT@, css)),
    )
}

/// Extracts URLs from CSS content (url() and @import).
pub fn extract_urls_from_css(css: &str, base_url: &WebUrl) -> (urls: Vec<WebUrl>)
    ensures
        url_models(urls@) == css_links(css@, base_url@.text),
        all_tidy(css_links(css@, base_url@.text)),
        all_enclosed(regex_captures(CSS_URL@, css@)),
{
    let mut urls: Vec<WebUrl> = Vec::new();
    let url_references = find_captures(CSS_URL, css);
    resolve_references(&mut urls, &reference_targets(&url_references), base_url);
    let import_references = find_captures(CSS_IMPORT, css);
    resolve_references(&mut urls, &reference_targets(&import_references), base_url);
    assert(url_models(urls@) =~= css_links(css@, base_url@.text));
    proof {
        lemma_all_tidy(
            resolved(base_url@.text, targets(regex_captures(CSS_URL@, css@))),
            resolved(base_url@.text, targets(regex_captures(CSS_IMPORT@, css@))),
        );
    }
    urls
}

} // verus!
