//! Which links a page or a style sheet holds and what they become, told of each of them.

use vstd::prelude::*;
use crate::convert::{
    attribute_edits, attribute_text, converted_css, css_edits, css_reference_stays,
    css_reference_text, edit_in_order, edit_texts, editing_keeps_the_rest, html_link_stays,
    kind_of_file, leads_to_file, links_of_the_site_are_rewritten, new_texts, offline_link,
    old_texts, page_edits, references_in_order_are_all_rewritten, replace_each, CssKind, Edit,
    LINK_TAGS,
};
use crate::error::{error_text, ErrorModel};
use crate::links::{
    css_links, has_at, html_attributes, is_joint, is_parsable, is_shallow, joints, optional_texts,
    present, reference_texts, regex_captures, resolved, tag_links, targets, wholes, CssReference,
    CSS_IMPORT, CSS_URL,
};
use crate::mirror::{body_links, content_kind, page_links, utf8_lossy};
use crate::path_laws::extensions_stand_behind_the_last_dot;
use crate::paths::{all_names, segments, site_path};
use crate::relative::{relative_link, walk};
use crate::rewrite_laws::{
    attributes_stand_clear, edits_keep_apart, is_plain_value, later_edits_all_apply,
    links_are_replaced_in_place, old_texts_keep_apart, stand_apart,
};
use crate::text::{
    first_occurrence, lemma_first_occurrence, occurs_at, replace_all, rewrites, stand_in_order,
    unquote,
};
use crate::text_laws::{texts_occur_between_others, what_occurs_stands_between_others};
use crate::weburl::{url_join, url_models, UrlModel, WebUrl};

verus! {

/// Lists hold what their items hold, in order.
pub proof fn lists_hold_their_items(
    urls: Seq<WebUrl>,
    values: Seq<Option<String>>,
    references: Seq<CssReference>,
    edits: Seq<Edit>,
    pairs: Seq<(Seq<char>, Seq<char>)>,
    i: int,
)
    ensures
        url_models(urls).len() == urls.len(),
        0 <= i < urls.len() ==> url_models(urls)[i] == urls[i]@,
        optional_texts(values).len() == values.len(),
        0 <= i < values.len() ==> (values[i] matches Some(v) ==> optional_texts(values)[i] == Some(
            v@,
        )),
        0 <= i < values.len() ==> (values[i] is None ==> optional_texts(values)[i] is None),
        reference_texts(references).len() == references.len(),
        0 <= i < references.len() ==> reference_texts(references)[i] == (
            references[i].whole@,
            references[i].written@,
        ),
        edit_texts(edits).len() == edits.len(),
        0 <= i < edits.len() ==> edit_texts(edits)[i] == (edits[i].old@, edits[i].new@),
        old_texts(pairs).len() == pairs.len() && new_texts(pairs).len() == pairs.len(),
        0 <= i < pairs.len() ==> old_texts(pairs)[i] == pairs[i].0 && new_texts(pairs)[i]
            == pairs[i].1,
        wholes(pairs).len() == pairs.len() && targets(pairs).len() == pairs.len(),
        0 <= i < pairs.len() ==> wholes(pairs)[i] == pairs[i].0 && targets(pairs)[i] == unquote(
            pairs[i].1,
        ),
{
}

/// References are resolved one by one, in order, and those that denote nothing are left out.
pub proof fn references_are_resolved_one_by_one(
    base: Seq<char>,
    a: Seq<Seq<char>>,
    b: Seq<Seq<char>>,
    reference: Seq<char>,
)
    ensures
        resolved(base, a + b) == resolved(base, a) + resolved(base, b),
        resolved(base, Seq::<Seq<char>>::empty()).len() == 0,
        url_join(base, reference) matches Ok(url) ==> resolved(base, seq![reference]) == seq![url],
        url_join(base, reference) is Err ==> resolved(base, seq![reference]).len() == 0,
    decreases b.len(),
{
    let none = Seq::<Seq<char>>::empty();
    assert(seq![reference].drop_last() =~= none);
    assert(resolved(base, none) =~= Seq::empty());
    assert(url_join(base, reference) matches Ok(url) ==> resolved(base, seq![reference]) =~= seq![
        url,
    ]);
    if b.len() == 0 {
        assert(a + b =~= a);
        assert(resolved(base, a) + resolved(base, b) =~= resolved(base, a));
    } else {
        references_are_resolved_one_by_one(base, a, b.drop_last(), reference);
        assert((a + b).drop_last() =~= a + b.drop_last());
        assert(resolved(base, a + b) =~= resolved(base, a) + resolved(base, b));
    }
}

/// The values of attributes are taken one by one, in order, and elements without the attribute
/// are left out.
pub proof fn values_are_taken_one_by_one(
    a: Seq<Option<Seq<char>>>,
    b: Seq<Option<Seq<char>>>,
    value: Seq<char>,
)
    ensures
        present(a + b) == present(a) + present(b),
        present(Seq::<Option<Seq<char>>>::empty()).len() == 0,
        present(seq![Some(value)]) == seq![value],
        present(seq![None::<Seq<char>>]).len() == 0,
    decreases b.len(),
{
    let none = Seq::<Option<Seq<char>>>::empty();
    assert(seq![Some(value)].drop_last() =~= none);
    assert(seq![None::<Seq<char>>].drop_last() =~= none);
    assert(present(none) =~= Seq::empty());
    assert(present(seq![Some(value)]) =~= seq![value]);
    if b.len() == 0 {
        assert(a + b =~= a);
        assert(present(a) + present(b) =~= present(a));
    } else {
        values_are_taken_one_by_one(a, b.drop_last(), value);
        assert((a + b).drop_last() =~= a + b.drop_last());
        assert(present(a + b) =~= present(a) + present(b));
    }
}

/// A value that is there is among those that are taken.
proof fn lemma_value_is_present(values: Seq<Option<Seq<char>>>, i: int)
    requires
        0 <= i < values.len(),
        values[i] is Some,
    ensures
        exists|k: int| 0 <= k < present(values).len() && #[trigger] present(values)[k]
            == values[i]->0,
{
    let a = values.take(i);
    let b = values.skip(i + 1);
    let v = values[i]->0;
    values_are_taken_one_by_one(a, seq![Some(v)] + b, v);
    values_are_taken_one_by_one(seq![Some(v)], b, v);
    assert(values =~= a + (seq![Some(v)] + b));
    assert(present(values)[present(a).len() as int] == v);
}

/// A reference that denotes a URL has it among those that are resolved.
proof fn lemma_reference_is_resolved(base: Seq<char>, references: Seq<Seq<char>>, i: int)
    requires
        0 <= i < references.len(),
        url_join(base, references[i]) is Ok,
    ensures
        exists|k: int|
            0 <= k < resolved(base, references).len() && #[trigger] resolved(base, references)[k]
                == url_join(base, references[i])->Ok_0,
{
    let a = references.take(i);
    let b = references.skip(i + 1);
    let r = references[i];
    references_are_resolved_one_by_one(base, a, seq![r] + b, r);
    references_are_resolved_one_by_one(base, seq![r], b, r);
    assert(references =~= a + (seq![r] + b));
    assert(resolved(base, references)[resolved(base, a).len() as int] == url_join(
        base,
        r,
    )->Ok_0);
}

/// What is resolved is denoted by a reference.
proof fn lemma_resolved_is_denoted(base: Seq<char>, references: Seq<Seq<char>>, k: int)
    requires
        0 <= k < resolved(base, references).len(),
    ensures
        exists|i: int|
            0 <= i < references.len() && url_join(base, #[trigger] references[i]) == Ok::<
                UrlModel,
                Seq<char>,
            >(resolved(base, references)[k]),
    decreases references.len(),
{
    let front = references.drop_last();
    if k < resolved(base, front).len() {
        lemma_resolved_is_denoted(base, front, k);
        let i = choose|i: int|
            0 <= i < front.len() && url_join(base, #[trigger] front[i]) == Ok::<
                UrlModel,
                Seq<char>,
            >(resolved(base, front)[k]);
        assert(references[i] == front[i]);
    } else {
        assert(references[references.len() - 1] == references.last());
    }
}

/// What is taken is the value of an element.
proof fn lemma_present_is_a_value(values: Seq<Option<Seq<char>>>, k: int)
    requires
        0 <= k < present(values).len(),
    ensures
        exists|i: int| 0 <= i < values.len() && #[trigger] values[i] == Some(present(values)[k]),
    decreases values.len(),
{
    let front = values.drop_last();
    if k < present(front).len() {
        lemma_present_is_a_value(front, k);
        let i = choose|i: int|
            0 <= i < front.len() && #[trigger] front[i] == Some(present(front)[k]);
        assert(values[i] == front[i]);
    } else {
        assert(values[values.len() - 1] == values.last());
    }
}

/// Whether a URL is what the attribute of an element denotes.
pub open spec fn is_linked(
    html: Seq<char>,
    tag: Seq<char>,
    attribute: Seq<char>,
    base: Seq<char>,
    url: UrlModel,
) -> bool {
    html_attributes(html, tag, attribute) matches Ok(values) && exists|i: int|
        0 <= i < values.len() && (#[trigger] values[i]) is Some && url_join(base, values[i]->0)
            == Ok::<UrlModel, Seq<char>>(url)
}

/// The links of a tag are what the attributes of its elements denote, all of them and nothing
/// else; and a tag that is no selector has an error.
pub proof fn tags_hold_their_links(
    html: Seq<char>,
    tag: Seq<char>,
    attribute: Seq<char>,
    base: Seq<char>,
    url: UrlModel,
)
    ensures
        html_attributes(html, tag, attribute) matches Err(reason) ==> tag_links(
            html,
            tag,
            attribute,
            base,
        ) == Err::<Seq<UrlModel>, ErrorModel>(ErrorModel::InvalidSelector(reason)),
        html_attributes(html, tag, attribute) is Ok ==> (tag_links(
            html,
            tag,
            attribute,
            base,
        ) matches Ok(links) && (links.contains(url) <==> is_linked(
            html,
            tag,
            attribute,
            base,
            url,
        ))),
{
    if let Ok(values) = html_attributes(html, tag, attribute) {
        let references = present(values);
        let links = resolved(base, references);
        if links.contains(url) {
            let k = choose|k: int| 0 <= k < links.len() && links[k] == url;
            lemma_resolved_is_denoted(base, references, k);
            let j = choose|j: int|
                0 <= j < references.len() && url_join(base, #[trigger] references[j]) == Ok::<
                    UrlModel,
                    Seq<char>,
                >(links[k]);
            lemma_present_is_a_value(values, j);
            let i = choose|i: int|
                0 <= i < values.len() && #[trigger] values[i] == Some(references[j]);
            assert(values[i] is Some && url_join(base, values[i]->0) == Ok::<
                UrlModel,
                Seq<char>,
            >(url));
        }
        if is_linked(html, tag, attribute, base, url) {
            let i = choose|i: int|
                0 <= i < values.len() && (#[trigger] values[i]) is Some && url_join(
                    base,
                    values[i]->0,
                ) == Ok::<UrlModel, Seq<char>>(url);
            lemma_value_is_present(values, i);
            let k = choose|k: int|
                0 <= k < references.len() && #[trigger] references[k] == values[i]->0;
            lemma_reference_is_resolved(base, references, k);
            let n = choose|n: int|
                0 <= n < links.len() && #[trigger] links[n] == url_join(base, references[k])->Ok_0;
            assert(links[n] == url);
        }
    }
}

/// Whether all four kinds of elements of a page can be looked for.
pub open spec fn can_be_searched(html: Seq<char>) -> bool {
    &&& html_attributes(html, "a"@, "href"@) is Ok
    &&& html_attributes(html, "link"@, "href"@) is Ok
    &&& html_attributes(html, "img"@, "src"@) is Ok
    &&& html_attributes(html, "script"@, "src"@) is Ok
}

/// Why a page cannot be searched: what is wrong with the first of the four kinds of elements that
/// cannot be looked for.
pub open spec fn search_failure(html: Seq<char>) -> Seq<char> {
    if let Err(reason) = html_attributes(html, "a"@, "href"@) {
        reason
    } else if let Err(reason) = html_attributes(html, "link"@, "href"@) {
        reason
    } else if let Err(reason) = html_attributes(html, "img"@, "src"@) {
        reason
    } else {
        html_attributes(html, "script"@, "src"@)->Err_0
    }
}

/// A page's links are those of its anchors, its linked resources, its images and its scripts, in
/// this order, all of them and nothing else; a page that cannot be searched has an error.
pub proof fn pages_hold_four_kinds_of_links(html: Seq<char>, base: Seq<char>, url: UrlModel)
    ensures
        can_be_searched(html) <==> page_links(html, base, LINK_TAGS as nat) is Ok,
        !can_be_searched(html) ==> page_links(html, base, LINK_TAGS as nat) == Err::<
            Seq<UrlModel>,
            ErrorModel,
        >(ErrorModel::InvalidSelector(search_failure(html))),
        page_links(html, base, LINK_TAGS as nat) matches Ok(links) ==> links == tag_links(
            html,
            "a"@,
            "href"@,
            base,
        )->Ok_0 + tag_links(html, "link"@, "href"@, base)->Ok_0 + tag_links(
            html,
            "img"@,
            "src"@,
            base,
        )->Ok_0 + tag_links(html, "script"@, "src"@, base)->Ok_0,
        page_links(html, base, LINK_TAGS as nat) matches Ok(links) ==> (links.contains(url) <==> (
        is_linked(html, "a"@, "href"@, base, url) || is_linked(html, "link"@, "href"@, base, url)
            || is_linked(html, "img"@, "src"@, base, url) || is_linked(
            html,
            "script"@,
            "src"@,
            base,
            url,
        ))),
{
    reveal_with_fuel(page_links, 5);
    tags_hold_their_links(html, "a"@, "href"@, base, url);
    tags_hold_their_links(html, "link"@, "href"@, base, url);
    tags_hold_their_links(html, "img"@, "src"@, base, url);
    tags_hold_their_links(html, "script"@, "src"@, base, url);
    if can_be_searched(html) {
        let a = tag_links(html, "a"@, "href"@, base)->Ok_0;
        let b = tag_links(html, "link"@, "href"@, base)->Ok_0;
        let c = tag_links(html, "img"@, "src"@, base)->Ok_0;
        let d = tag_links(html, "script"@, "src"@, base)->Ok_0;
        let links = page_links(html, base, LINK_TAGS as nat)->Ok_0;
        assert(links =~= a + b + c + d);
        lemma_contained_in_either(a + b + c, d, url);
        lemma_contained_in_either(a + b, c, url);
        lemma_contained_in_either(a, b, url);
    }
}

/// What one of two lists holds, both together hold.
proof fn lemma_contained_in_either<A>(a: Seq<A>, b: Seq<A>, x: A)
    ensures
        (a + b).contains(x) <==> a.contains(x) || b.contains(x),
{
    let both = a + b;
    if a.contains(x) {
        let i = choose|i: int| 0 <= i < a.len() && a[i] == x;
        assert(both[i] == x);
    }
    if b.contains(x) {
        let i = choose|i: int| 0 <= i < b.len() && b[i] == x;
        assert(both[a.len() + i] == x);
    }
    if both.contains(x) {
        let i = choose|i: int| 0 <= i < both.len() && both[i] == x;
        if i < a.len() {
            assert(a[i] == x);
        } else {
            assert(b[i - a.len()] == x);
        }
    }
}

/// Whether a URL is what a reference of a style sheet denotes.
pub open spec fn is_referred_to(
    references: Seq<(Seq<char>, Seq<char>)>,
    base: Seq<char>,
    url: UrlModel,
) -> bool {
    exists|i: int|
        0 <= i < references.len() && url_join(base, unquote((#[trigger] references[i]).1)) == Ok::<
            UrlModel,
            Seq<char>,
        >(url)
}

/// A style sheet's links are what its `url()` and then its `@import` references denote without
/// their quotes, all of them and nothing else.
pub proof fn style_sheets_hold_two_kinds_of_links(
    css: Seq<char>,
    base: Seq<char>,
    url: UrlModel,
)
    ensures
        css_links(css, base) == resolved(
            base,
            targets(
                regex_captures(r#"url\s*\(\s*("[^'"]+"|'[^'"]+'|['"]?[^'")]+?['"]?)\s*\)"#@, css),
            ),
        ) + resolved(base, targets(regex_captures(r#"@import\s+['"]([^'"]+)['"]"#@, css))),
        css_links(css, base).contains(url) <==> is_referred_to(
            regex_captures(r#"url\s*\(\s*("[^'"]+"|'[^'"]+'|['"]?[^'")]+?['"]?)\s*\)"#@, css),
            base,
            url,
        ) || is_referred_to(
            regex_captures(r#"@import\s+['"]([^'"]+)['"]"#@, css),
            base,
            url,
        ),
{
    let urls = regex_captures(CSS_URL@, css);
    let imports = regex_captures(CSS_IMPORT@, css);
    lemma_references_are_resolved(urls, base, url);
    lemma_references_are_resolved(imports, base, url);
    lemma_contained_in_either(
        resolved(base, targets(urls)),
        resolved(base, targets(imports)),
        url,
    );
}

proof fn lemma_references_are_resolved(
    references: Seq<(Seq<char>, Seq<char>)>,
    base: Seq<char>,
    url: UrlModel,
)
    ensures
        resolved(base, targets(references)).contains(url) <==> is_referred_to(
            references,
            base,
            url,
        ),
{
    let texts = targets(references);
    let links = resolved(base, texts);
    if links.contains(url) {
        let k = choose|k: int| 0 <= k < links.len() && links[k] == url;
        lemma_resolved_is_denoted(base, texts, k);
        let i = choose|i: int|
            0 <= i < texts.len() && url_join(base, #[trigger] texts[i]) == Ok::<
                UrlModel,
                Seq<char>,
            >(links[k]);
        assert(texts[i] == unquote(references[i].1));
    }
    if is_referred_to(references, base, url) {
        let i = choose|i: int|
            0 <= i < references.len() && url_join(base, unquote((#[trigger] references[i]).1))
                == Ok::<UrlModel, Seq<char>>(url);
        assert(texts[i] == unquote(references[i].1));
        lemma_reference_is_resolved(base, texts, i);
        let n = choose|n: int|
            0 <= n < links.len() && #[trigger] links[n] == url_join(base, texts[i])->Ok_0;
        assert(links[n] == url);
    }
}

/// Whether a text stands in no place of another.
pub open spec fn stands_nowhere(s: Seq<char>, p: Seq<char>) -> bool {
    forall|a: Seq<char>, b: Seq<char>| s != #[trigger] (a + p + b)
}

/// A content type that holds `text/html` anywhere announces a page, and so does none at all;
/// one that holds `text/css` and not that, a style sheet; and every other, neither. What stands
/// before or behind it changes nothing.
pub proof fn content_types_announce_what_they_hold(a: Seq<char>, b: Seq<char>, t: Seq<char>)
    ensures
        content_kind(None) is Html,
        content_kind(Some(a + "text/html"@ + b)) is Html,
        t == a + "text/css"@ + b && stands_nowhere(t, "text/html"@) ==> content_kind(Some(t)) is
            Css,
        stands_nowhere(t, "text/css"@) && stands_nowhere(t, "text/html"@) ==> content_kind(
            Some(t),
        ) is Other,
{
    let empty = Seq::<char>::empty();
    texts_occur_between_others(empty, "text/html"@, empty);
    assert(empty + "text/html"@ + empty =~= "text/html"@);
    texts_occur_between_others(a, "text/html"@, b);
    texts_occur_between_others(a, "text/css"@, b);
    what_occurs_stands_between_others(t, "text/html"@);
    what_occurs_stands_between_others(t, "text/css"@);
}

/// What a server sent is searched for the links of a page or of a style sheet, as its content
/// type announces, whatever stands round the media type; a page that is too large for the parser
/// has an error; and nothing else has links.
pub proof fn bodies_are_searched_as_announced(
    a: Seq<char>,
    b: Seq<char>,
    t: Seq<char>,
    body: Seq<u8>,
    url: Seq<char>,
)
    ensures
        t == a + "text/css"@ + b && stands_nowhere(t, "text/html"@) ==> body_links(
            Some(t),
            body,
            url,
        ) == Ok::<Seq<UrlModel>, ErrorModel>(css_links(utf8_lossy(body), url)),
        is_parsable(utf8_lossy(body)) ==> body_links(Some(a + "text/html"@ + b), body, url)
            == page_links(utf8_lossy(body), url, LINK_TAGS as nat),
        is_parsable(utf8_lossy(body)) ==> body_links(None, body, url) == page_links(
            utf8_lossy(body),
            url,
            LINK_TAGS as nat,
        ),
        !is_parsable(utf8_lossy(body)) ==> body_links(None, body, url) == Err::<
            Seq<UrlModel>,
            ErrorModel,
        >(ErrorModel::PageTooLarge) && body_links(Some(a + "text/html"@ + b), body, url) == Err::<
            Seq<UrlModel>,
            ErrorModel,
        >(ErrorModel::PageTooLarge),
        stands_nowhere(t, "text/css"@) && stands_nowhere(t, "text/html"@) ==> (body_links(
            Some(t),
            body,
            url,
        ) matches Ok(links) && links.len() == 0),
{
    content_types_announce_what_they_hold(a, b, t);
}

/// A page of up to 715827882 bytes can be parsed, and no larger one; and a selector with up to 64
/// brackets and combinators can be looked for, where it has no bracket, or no escape and no
/// bracket behind an `s`.
pub proof fn limits_of_the_parser(html: Seq<char>, selector: Seq<char>)
    ensures
        vstd::utf8::encode_utf8(html).len() <= 715827882 ==> is_parsable(html),
        715827882 < vstd::utf8::encode_utf8(html).len() <= usize::MAX ==> !is_parsable(html),
        selector.len() <= 715827882 && joints(selector) <= 64 && !selector.contains('(')
            ==> is_shallow(selector),
        selector.len() <= 715827882 && joints(selector) <= 64 && !selector.contains('\\') && (
        forall|i: int|
            3 <= i < selector.len() && #[trigger] selector[i] == '(' ==> selector[i - 1] != 's'
                && selector[i - 1] != 'S') ==> is_shallow(selector),
{
    if forall|i: int|
        3 <= i < selector.len() && #[trigger] selector[i] == '(' ==> selector[i - 1] != 's'
            && selector[i - 1] != 'S' {
        assert forall|i: int| !has_at(selector, i) by {
            if has_at(selector, i) {
                assert(selector[i + 3] == '(');
            }
        }
    }
}

/// The joints of a selector are its white space and `>`, `+`, `~` and `(`.
pub proof fn joints_are_counted_one_by_one(selector: Seq<char>, c: char)
    ensures
        joints(Seq::<char>::empty()) == 0,
        is_joint(c) ==> joints(selector.push(c)) == joints(selector) + 1,
        !is_joint(c) ==> joints(selector.push(c)) == joints(selector),
        c == '>' || c == '+' || c == '~' || c == '(' || c == ' ' ==> is_joint(c),
        'a' <= c <= 'z' || 'A' <= c <= 'Z' || '0' <= c <= '9' ==> !is_joint(c),
{
    assert(selector.push(c).drop_last() =~= selector);
}

/// An attribute is written as its name, an equals sign and the value in quotes; a reference of
/// a style sheet as its keyword and the target in quotes, in brackets behind `url`.
pub proof fn links_are_written_in_quotes(name: Seq<char>, value: Seq<char>)
    ensures
        attribute_text(name, value) == name + seq!['=', '"'] + value + seq!['"'],
        css_reference_text(CssKind::Url, value) == seq!['u', 'r', 'l', '(', '"'] + value + seq![
            '"',
            ')',
        ],
        css_reference_text(CssKind::Import, value) == seq![
            '@',
            'i',
            'm',
            'p',
            'o',
            'r',
            't',
            ' ',
            '"',
        ] + value + seq!['"'],
{
    reveal_strlit("=\"");
    reveal_strlit("\"");
    reveal_strlit("url(\"");
    reveal_strlit("\")");
    reveal_strlit("@import \"");
    assert(attribute_text(name, value) =~= name + seq!['=', '"'] + value + seq!['"']);
    assert(css_reference_text(CssKind::Url, value) =~= seq!['u', 'r', 'l', '(', '"'] + value
        + seq!['"', ')']);
    assert(css_reference_text(CssKind::Import, value) =~= seq![
        '@',
        'i',
        'm',
        'p',
        'o',
        'r',
        't',
        ' ',
        '"',
    ] + value + seq!['"']);
}

/// An anchor stays as it is in a page, and so does what denotes nothing or leads to another host;
/// every other link does not, and becomes a relative path.
pub proof fn links_stay_for_three_reasons(
    reference: Seq<char>,
    rest: Seq<char>,
    reason: Seq<char>,
    url: UrlModel,
    page: UrlModel,
    file_path: Seq<Seq<char>>,
    output_dir: Seq<Seq<char>>,
)
    ensures
        html_link_stays(seq!['#'] + rest, Ok(url), page),
        html_link_stays(reference, Err(reason), page),
        url.host != page.host ==> html_link_stays(reference, Ok(url), page),
        url.host == page.host && (reference.len() == 0 || reference[0] != '#') ==> !html_link_stays(
            reference,
            Ok(url),
            page,
        ),
        offline_link(Err(reason), page, file_path, output_dir) is None,
        offline_link(Ok(url), page, file_path, output_dir) == relative_link(
            url,
            page,
            file_path,
            output_dir,
        ),
{
}

/// Data that a `url()` holds itself stays as it is in a style sheet, and so does what denotes
/// nothing or leads to another host; every other reference does not.
pub proof fn references_stay_for_three_reasons(
    kind: CssKind,
    reference: Seq<char>,
    rest: Seq<char>,
    reason: Seq<char>,
    url: UrlModel,
    sheet: UrlModel,
)
    ensures
        css_reference_stays(
            CssKind::Url,
            seq!['d', 'a', 't', 'a', ':'] + rest,
            Ok(url),
            sheet,
        ),
        css_reference_stays(kind, reference, Err(reason), sheet),
        url.host != sheet.host ==> css_reference_stays(kind, reference, Ok(url), sheet),
        url.host == sheet.host && !(kind is Url && seq!['d', 'a', 't', 'a', ':'].is_prefix_of(
            reference,
        )) ==> !css_reference_stays(kind, reference, Ok(url), sheet),
{
    reveal_strlit("data:");
    assert("data:"@ =~= seq!['d', 'a', 't', 'a', ':']);
    let data = seq!['d', 'a', 't', 'a', ':'] + rest;
    assert("data:"@ =~= data.subrange(0, 5));
}

/// The links of one attribute are rewritten one by one, in order: each that is no anchor and
/// leads to the host of the page becomes the relative path to its file, and no other is touched.
pub proof fn links_are_rewritten_one_by_one(
    name: Seq<char>,
    a: Seq<Seq<char>>,
    b: Seq<Seq<char>>,
    value: Seq<char>,
    page: UrlModel,
    file_path: Seq<Seq<char>>,
    output_dir: Seq<Seq<char>>,
)
    ensures
        attribute_edits(name, a + b, page, file_path, output_dir) == attribute_edits(
            name,
            a,
            page,
            file_path,
            output_dir,
        ) + attribute_edits(name, b, page, file_path, output_dir),
        ({
            let edits = attribute_edits(name, seq![value], page, file_path, output_dir);
            let anchor = value.len() > 0 && value[0] == '#';
            match url_join(page.text, value) {
                Ok(url) if !anchor && url.host == page.host => match relative_link(
                    url,
                    page,
                    file_path,
                    output_dir,
                ) {
                    Some(link) => edits == seq![
                        (attribute_text(name, value), attribute_text(name, link)),
                    ],
                    None => edits.len() == 0,
                },
                _ => edits.len() == 0,
            }
        }),
    decreases b.len(),
{
    let none = Seq::<Seq<char>>::empty();
    assert(seq![value].drop_last() =~= none);
    assert(attribute_edits(name, none, page, file_path, output_dir) =~= Seq::empty());
    let joined = url_join(page.text, value);
    if let Ok(url) = joined {
        if let Some(link) = relative_link(url, page, file_path, output_dir) {
            let edit = (attribute_text(name, value), attribute_text(name, link));
            assert(Seq::empty().push(edit) =~= seq![edit]);
        }
    }
    let left = attribute_edits(name, a, page, file_path, output_dir);
    if b.len() == 0 {
        assert(a + b =~= a);
        assert(left + attribute_edits(name, b, page, file_path, output_dir) =~= left);
    } else {
        links_are_rewritten_one_by_one(
            name,
            a,
            b.drop_last(),
            value,
            page,
            file_path,
            output_dir,
        );
        assert((a + b).drop_last() =~= a + b.drop_last());
        assert(attribute_edits(name, a + b, page, file_path, output_dir) =~= left
            + attribute_edits(name, b, page, file_path, output_dir));
    }
}

/// The references of one kind are rewritten one by one, in order: each that leads to the host of
/// the style sheet becomes the relative path to its file, and no other is touched, nor data that
/// a `url()` holds itself.
pub proof fn references_are_rewritten_one_by_one(
    kind: CssKind,
    a: Seq<(Seq<char>, Seq<char>)>,
    b: Seq<(Seq<char>, Seq<char>)>,
    whole: Seq<char>,
    written: Seq<char>,
    sheet: UrlModel,
    file_path: Seq<Seq<char>>,
    output_dir: Seq<Seq<char>>,
)
    ensures
        css_edits(kind, a + b, sheet, file_path, output_dir) == css_edits(
            kind,
            a,
            sheet,
            file_path,
            output_dir,
        ) + css_edits(kind, b, sheet, file_path, output_dir),
        ({
            let edits = css_edits(kind, seq![(whole, written)], sheet, file_path, output_dir);
            let target = unquote(written);
            let data = kind == CssKind::Url && seq!['d', 'a', 't', 'a', ':'].is_prefix_of(target);
            match url_join(sheet.text, target) {
                Ok(url) if !data && url.host == sheet.host => match relative_link(
                    url,
                    sheet,
                    file_path,
                    output_dir,
                ) {
                    Some(link) => edits == seq![(whole, css_reference_text(kind, link))],
                    None => edits.len() == 0,
                },
                _ => edits.len() == 0,
            }
        }),
    decreases b.len(),
{
    let none = Seq::<(Seq<char>, Seq<char>)>::empty();
    reveal_strlit("data:");
    assert("data:"@ =~= seq!['d', 'a', 't', 'a', ':']);
    assert(seq![(whole, written)].drop_last() =~= none);
    assert(css_edits(kind, none, sheet, file_path, output_dir) =~= Seq::empty());
    let joined = url_join(sheet.text, unquote(written));
    if let Ok(url) = joined {
        if let Some(link) = relative_link(url, sheet, file_path, output_dir) {
            let edit = (whole, css_reference_text(kind, link));
            assert(Seq::empty().push(edit) =~= seq![edit]);
        }
    }
    let left = css_edits(kind, a, sheet, file_path, output_dir);
    if b.len() == 0 {
        assert(a + b =~= a);
        assert(left + css_edits(kind, b, sheet, file_path, output_dir) =~= left);
    } else {
        references_are_rewritten_one_by_one(
            kind,
            a,
            b.drop_last(),
            whole,
            written,
            sheet,
            file_path,
            output_dir,
        );
        assert((a + b).drop_last() =~= a + b.drop_last());
        assert(css_edits(kind, a + b, sheet, file_path, output_dir) =~= left + css_edits(
            kind,
            b,
            sheet,
            file_path,
            output_dir,
        ));
    }
}

/// Whether a tag and its attribute are one of the four kinds of links.
pub open spec fn is_link_kind(tag: Seq<char>, attribute: Seq<char>) -> bool {
    ||| tag == "a"@ && attribute == "href"@
    ||| tag == "link"@ && attribute == "href"@
    ||| tag == "img"@ && attribute == "src"@
    ||| tag == "script"@ && attribute == "src"@
}

/// The edits of a page are those for the links of its anchors, its linked resources, its images
/// and its scripts, all of them and nothing else; a page that cannot be searched has an error.
pub proof fn pages_are_edited_for_four_kinds_of_links(
    html: Seq<char>,
    page: UrlModel,
    file_path: Seq<Seq<char>>,
    output_dir: Seq<Seq<char>>,
)
    ensures
        can_be_searched(html) <==> page_edits(html, page, file_path, output_dir, LINK_TAGS as nat)
            is Ok,
        !can_be_searched(html) ==> page_edits(html, page, file_path, output_dir, LINK_TAGS as nat)
            == Err::<Seq<(Seq<char>, Seq<char>)>, ErrorModel>(
            ErrorModel::InvalidSelector(search_failure(html)),
        ),
        page_edits(html, page, file_path, output_dir, LINK_TAGS as nat) matches Ok(edits) ==> edits
            == attribute_edits(
            "href"@,
            present(html_attributes(html, "a"@, "href"@)->Ok_0),
            page,
            file_path,
            output_dir,
        ) + attribute_edits(
            "href"@,
            present(html_attributes(html, "link"@, "href"@)->Ok_0),
            page,
            file_path,
            output_dir,
        ) + attribute_edits(
            "src"@,
            present(html_attributes(html, "img"@, "src"@)->Ok_0),
            page,
            file_path,
            output_dir,
        ) + attribute_edits(
            "src"@,
            present(html_attributes(html, "script"@, "src"@)->Ok_0),
            page,
            file_path,
            output_dir,
        ),
{
    reveal_with_fuel(page_edits, 5);
    if can_be_searched(html) {
        let first = attribute_edits(
            "href"@,
            present(html_attributes(html, "a"@, "href"@)->Ok_0),
            page,
            file_path,
            output_dir,
        );
        assert(Seq::empty() + first =~= first);
    }
}

/// Every link of a page that leads to a file of its site is rewritten, be it that of an anchor,
/// a linked resource, an image or a script: one of the page's edits puts in place of the
/// attribute one whose value leads, from the directory of the page, to the file; for a page, a
/// URL and a directory whose paths are made of names, and a link that is no anchor.
pub proof fn every_link_of_a_page_is_rewritten(
    html: Seq<char>,
    tag: Seq<char>,
    attribute: Seq<char>,
    i: int,
    page: UrlModel,
    url: UrlModel,
    output_dir: Seq<Seq<char>>,
)
    requires
        is_link_kind(tag, attribute),
        all_names(output_dir),
        all_names(segments(page.path)),
        all_names(segments(url.path)),
        url.host == page.host,
    ensures
        ({
            let file_path = site_path(output_dir, page.path);
            page_edits(html, page, file_path, output_dir, LINK_TAGS as nat) matches Ok(edits)
                ==> html_attributes(html, tag, attribute) matches Ok(values) && (0 <= i
                < values.len() && values[i] is Some ==> {
                let value = values[i]->0;
                (value.len() == 0 || value[0] != '#') && url_join(page.text, value) == Ok::<
                    UrlModel,
                    Seq<char>,
                >(url) ==> exists|j: int, link: Seq<char>|
                    0 <= j < edits.len() && #[trigger] edits[j].0 == attribute + seq!['=', '"']
                        + value + seq!['"'] && edits[j].1 == #[trigger] attribute_text(
                        attribute,
                        link,
                    ) && walk(file_path.drop_last(), segments(link)) == site_path(
                        output_dir,
                        url.path,
                    )
            })
        }),
{
    let file_path = site_path(output_dir, page.path);
    pages_are_edited_for_four_kinds_of_links(html, page, file_path, output_dir);
    if let Ok(edits) = page_edits(html, page, file_path, output_dir, LINK_TAGS as nat) {
        let values = html_attributes(html, tag, attribute)->Ok_0;
        if 0 <= i < values.len() && values[i] is Some {
            let value = values[i]->0;
            if (value.len() == 0 || value[0] != '#') && url_join(page.text, value) == Ok::<
                UrlModel,
                Seq<char>,
            >(url) {
                lemma_value_is_present(values, i);
                let taken = present(values);
                let k = choose|k: int| 0 <= k < taken.len() && #[trigger] taken[k] == value;
                links_of_the_site_are_rewritten(attribute, taken, k, page, output_dir);
                links_are_written_in_quotes(attribute, value);
                let own = attribute_edits(attribute, taken, page, file_path, output_dir);
                let (m, link) = choose|m: int, link: Seq<char>|
                    0 <= m < own.len() && #[trigger] own[m] == (
                        attribute_text(attribute, value),
                        #[trigger] attribute_text(attribute, link),
                    ) && leads_to_file(link, url, file_path, output_dir);
                lemma_edit_is_among(html, tag, attribute, page, file_path, output_dir, m);
                let j = choose|j: int| 0 <= j < edits.len() && #[trigger] edits[j] == own[m];
                assert(edits[j].0 == attribute + seq!['=', '"'] + value + seq!['"']);
                assert(edits[j].1 == attribute_text(attribute, link));
            }
        }
    }
}

/// An edit for one kind of links is one of the page's.
proof fn lemma_edit_is_among(
    html: Seq<char>,
    tag: Seq<char>,
    attribute: Seq<char>,
    page: UrlModel,
    file_path: Seq<Seq<char>>,
    output_dir: Seq<Seq<char>>,
    m: int,
)
    requires
        is_link_kind(tag, attribute),
        page_edits(html, page, file_path, output_dir, LINK_TAGS as nat) is Ok,
        html_attributes(html, tag, attribute) is Ok,
        0 <= m < attribute_edits(
            attribute,
            present(html_attributes(html, tag, attribute)->Ok_0),
            page,
            file_path,
            output_dir,
        ).len(),
    ensures
        ({
            let edits = page_edits(html, page, file_path, output_dir, LINK_TAGS as nat)->Ok_0;
            exists|j: int|
                0 <= j < edits.len() && #[trigger] edits[j] == attribute_edits(
                    attribute,
                    present(html_attributes(html, tag, attribute)->Ok_0),
                    page,
                    file_path,
                    output_dir,
                )[m]
        }),
{
    pages_are_edited_for_four_kinds_of_links(html, page, file_path, output_dir);
    let edits = page_edits(html, page, file_path, output_dir, LINK_TAGS as nat)->Ok_0;
    let a = attribute_edits(
        "href"@,
        present(html_attributes(html, "a"@, "href"@)->Ok_0),
        page,
        file_path,
        output_dir,
    );
    let b = attribute_edits(
        "href"@,
        present(html_attributes(html, "link"@, "href"@)->Ok_0),
        page,
        file_path,
        output_dir,
    );
    let c = attribute_edits(
        "src"@,
        present(html_attributes(html, "img"@, "src"@)->Ok_0),
        page,
        file_path,
        output_dir,
    );
    if tag == "a"@ && attribute == "href"@ {
        assert(edits[m] == a[m]);
    } else if tag == "link"@ && attribute == "href"@ {
        assert(edits[a.len() + m] == b[m]);
    } else if tag == "img"@ && attribute == "src"@ {
        assert(edits[a.len() + b.len() + m] == c[m]);
    } else {
        assert(edits[a.len() + b.len() + c.len() + m] == attribute_edits(
            attribute,
            present(html_attributes(html, tag, attribute)->Ok_0),
            page,
            file_path,
            output_dir,
        )[m]);
    }
}

/// The edits for an attribute replace at least one character each.
proof fn lemma_edits_replace_something(
    name: Seq<char>,
    values: Seq<Seq<char>>,
    page: UrlModel,
    file_path: Seq<Seq<char>>,
    output_dir: Seq<Seq<char>>,
)
    ensures
        forall|i: int|
            0 <= i < attribute_edits(name, values, page, file_path, output_dir).len() ==> (
            #[trigger] attribute_edits(name, values, page, file_path, output_dir)[i]).0.len() > 0,
    decreases values.len(),
{
    if values.len() > 0 {
        let front = values.drop_last();
        let earlier = attribute_edits(name, front, page, file_path, output_dir);
        let edits = attribute_edits(name, values, page, file_path, output_dir);
        lemma_edits_replace_something(name, front, page, file_path, output_dir);
        links_are_written_in_quotes(name, values.last());
        assert forall|i: int| 0 <= i < edits.len() implies (#[trigger] edits[i]).0.len() > 0 by {
            if i < earlier.len() {
                assert(edits[i] == earlier[i]);
            } else {
                assert(edits[i].0 == attribute_text(name, values.last()));
            }
        }
    }
}

/// Wherever a link that leads to a file of the site stands in a page, in double quotes, the
/// converted page holds, between what becomes of the text before it and of the text behind it,
/// the attribute with a value that leads to the file. The link may be that of an anchor, a
/// linked resource, an image or a script; it is no anchor, its value is plain, and the edits of
/// the page keep apart.
pub proof fn links_of_a_page_lead_to_their_files(
    before: Seq<char>,
    behind: Seq<char>,
    tag: Seq<char>,
    attribute: Seq<char>,
    value: Seq<char>,
    page: UrlModel,
    url: UrlModel,
    output_dir: Seq<Seq<char>>,
)
    requires
        is_link_kind(tag, attribute),
        all_names(output_dir),
        all_names(segments(page.path)),
        all_names(segments(url.path)),
        url.host == page.host,
        value.len() == 0 || value[0] != '#',
        is_plain_value(value),
        url_join(page.text, value) == Ok::<UrlModel, Seq<char>>(url),
    ensures
        ({
            let html = before + (attribute + seq!['=', '"'] + value + seq!['"']) + behind;
            let file_path = site_path(output_dir, page.path);
            page_edits(html, page, file_path, output_dir, LINK_TAGS as nat) matches Ok(edits)
                ==> html_attributes(html, tag, attribute)->Ok_0.contains(Some(value))
                && edits_keep_apart(edits) && old_texts_keep_apart(edits) ==> exists|
                link: Seq<char>,
            |
                replace_each(html, edits) == replace_each(before, edits) + (attribute + seq![
                    '=',
                    '"',
                ] + link + seq!['"']) + replace_each(behind, edits) && #[trigger] walk(
                    file_path.drop_last(),
                    segments(link),
                ) == site_path(output_dir, url.path)
        }),
{
    let old_text = attribute + seq!['=', '"'] + value + seq!['"'];
    let html = before + old_text + behind;
    let file_path = site_path(output_dir, page.path);
    pages_are_edited_for_four_kinds_of_links(html, page, file_path, output_dir);
    if let Ok(edits) = page_edits(html, page, file_path, output_dir, LINK_TAGS as nat) {
        let values = html_attributes(html, tag, attribute)->Ok_0;
        if values.contains(Some(value)) && edits_keep_apart(edits) && old_texts_keep_apart(edits) {
            let i = choose|i: int| 0 <= i < values.len() && values[i] == Some(value);
            every_link_of_a_page_is_rewritten(html, tag, attribute, i, page, url, output_dir);
            let (j, link) = choose|j: int, link: Seq<char>|
                0 <= j < edits.len() && #[trigger] edits[j].0 == old_text && edits[j].1
                    == #[trigger] attribute_text(attribute, link) && walk(
                    file_path.drop_last(),
                    segments(link),
                ) == site_path(output_dir, url.path);
            links_are_written_in_quotes(attribute, value);
            links_are_written_in_quotes(attribute, link);
            lemma_page_edits_replace_something(html, page, file_path, output_dir);
            reveal_strlit("href");
            reveal_strlit("src");
            attributes_stand_clear(attribute, value);
            links_are_replaced_in_place(before, behind, edits, j);
            assert(walk(file_path.drop_last(), segments(link)) == site_path(output_dir, url.path));
        }
    }
}

/// The edits of a page replace at least one character each.
proof fn lemma_page_edits_replace_something(
    html: Seq<char>,
    page: UrlModel,
    file_path: Seq<Seq<char>>,
    output_dir: Seq<Seq<char>>,
)
    ensures
        page_edits(html, page, file_path, output_dir, LINK_TAGS as nat) matches Ok(edits)
            ==> forall|i: int| 0 <= i < edits.len() ==> (#[trigger] edits[i]).0.len() > 0,
{
    pages_are_edited_for_four_kinds_of_links(html, page, file_path, output_dir);
    lemma_edits_replace_something(
        "href"@,
        present(html_attributes(html, "a"@, "href"@)->Ok_0),
        page,
        file_path,
        output_dir,
    );
    lemma_edits_replace_something(
        "href"@,
        present(html_attributes(html, "link"@, "href"@)->Ok_0),
        page,
        file_path,
        output_dir,
    );
    lemma_edits_replace_something(
        "src"@,
        present(html_attributes(html, "img"@, "src"@)->Ok_0),
        page,
        file_path,
        output_dir,
    );
    lemma_edits_replace_something(
        "src"@,
        present(html_attributes(html, "script"@, "src"@)->Ok_0),
        page,
        file_path,
        output_dir,
    );
}

/// The edits of a page are made one after the other, each everywhere in the page.
pub proof fn edits_are_made_one_after_the_other(
    text: Seq<char>,
    edits: Seq<(Seq<char>, Seq<char>)>,
    old_text: Seq<char>,
    new_text: Seq<char>,
)
    ensures
        replace_each(text, Seq::<(Seq<char>, Seq<char>)>::empty()) == text,
        replace_each(text, edits.push((old_text, new_text))) == replace_all(
            replace_each(text, edits),
            old_text,
            new_text,
        ),
{
    assert(edits.push((old_text, new_text)).drop_last() =~= edits);
}

/// The edits of a style sheet are made one behind the other: each replaces its old text in the
/// first place at or behind the position that the edits before it reached, and reaches behind
/// its new text; without such a place it changes nothing.
pub proof fn edits_are_made_one_behind_the_other(
    text: Seq<char>,
    edits: Seq<(Seq<char>, Seq<char>)>,
    old_text: Seq<char>,
    new_text: Seq<char>,
    x: Seq<char>,
    y: Seq<char>,
)
    requires
        edit_in_order(text, edits).1 >= 0,
    ensures
        edit_in_order(text, Seq::<(Seq<char>, Seq<char>)>::empty()) == (text, 0int),
        ({
            let (now, from) = edit_in_order(text, edits);
            let next = edit_in_order(text, edits.push((old_text, new_text)));
            let nowhere_up_to = |to: int|
                forall|k: int|
                    from <= k < to && k + old_text.len() <= now.len() ==> #[trigger] now.subrange(
                        k,
                        k + old_text.len(),
                    ) != old_text;
            &&& now == x + old_text + y && x.len() >= from && nowhere_up_to(x.len() as int)
                ==> next == (x + new_text + y, x.len() as int + new_text.len())
            &&& nowhere_up_to(now.len() as int + 1) ==> next == (now, from)
        }),
{
    assert(edits.push((old_text, new_text)).drop_last() =~= edits);
    let (now, from) = edit_in_order(text, edits);
    lemma_first_occurrence(now, old_text, from);
    let found = first_occurrence(now, old_text, from);
    if let Some(i) = found {
        assert(now.subrange(i, i + old_text.len()) == old_text);
    }
    if now == x + old_text + y && x.len() >= from {
        texts_occur_between_others(x, old_text, y);
        assert(occurs_at(now, old_text, x.len() as int));
        assert(now.take(x.len() as int) =~= x);
        assert(now.skip(x.len() as int + old_text.len()) =~= y);
    }
}

/// A converted style sheet is the sheet with every `url()` edit made and then every `@import`
/// edit, and with everything else kept: the former stand one behind the other in the sheet, and
/// the latter stand apart from them. Where there is no `url()` edit, the `@import` edits are made
/// all the same.
pub proof fn style_sheets_are_rewritten(
    css: Seq<char>,
    sheet: UrlModel,
    file_path: Seq<Seq<char>>,
    output_dir: Seq<Seq<char>>,
)
    requires
        stand_in_order(css, wholes(regex_captures(CSS_URL@, css))),
        stand_in_order(css, wholes(regex_captures(CSS_IMPORT@, css))),
    ensures
        ({
            let urls = css_edits(
                CssKind::Url,
                regex_captures(CSS_URL@, css),
                sheet,
                file_path,
                output_dir,
            );
            let imports = css_edits(
                CssKind::Import,
                regex_captures(CSS_IMPORT@, css),
                sheet,
                file_path,
                output_dir,
            );
            let result = converted_css(css, sheet, file_path, output_dir);
            &&& exists|with_urls: Seq<char>| #[trigger]
                rewrites(css, with_urls, old_texts(urls), new_texts(urls)) && (stand_apart(
                    css,
                    urls,
                    imports,
                ) ==> rewrites(with_urls, result, old_texts(imports), new_texts(imports)))
            &&& urls.len() == 0 ==> rewrites(css, result, old_texts(imports), new_texts(imports))
        }),
{
    let urls = css_edits(
        CssKind::Url,
        regex_captures(CSS_URL@, css),
        sheet,
        file_path,
        output_dir,
    );
    let imports = css_edits(
        CssKind::Import,
        regex_captures(CSS_IMPORT@, css),
        sheet,
        file_path,
        output_dir,
    );
    let with_urls = edit_in_order(css, urls).0;
    references_in_order_are_all_rewritten(
        css,
        CssKind::Url,
        regex_captures(CSS_URL@, css),
        sheet,
        file_path,
        output_dir,
    );
    references_in_order_are_all_rewritten(
        css,
        CssKind::Import,
        regex_captures(CSS_IMPORT@, css),
        sheet,
        file_path,
        output_dir,
    );
    editing_keeps_the_rest(css, urls);
    editing_keeps_the_rest(with_urls, imports);
    if stand_apart(css, urls, imports) {
        later_edits_all_apply(css, urls, imports);
    }
    if urls.len() == 0 {
        assert(with_urls == css);
    }
}

/// The links of a page are those of a file whose name ends with `.html` or `.htm`, those of a
/// style sheet of one that ends with `.css`, and other files have none.
pub proof fn files_are_told_by_their_extension(
    dir: Seq<Seq<char>>,
    stem: Seq<char>,
    ext: Seq<char>,
)
    requires
        stem.len() > 0,
        ext.len() > 0,
        !ext.contains('.'),
    ensures
        kind_of_file(Seq::<Seq<char>>::empty()) is Other,
        ({
            let kind = kind_of_file(dir.push(stem + seq!['.'] + ext));
            &&& ext == seq!['h', 't', 'm', 'l'] || ext == seq!['h', 't', 'm'] <==> kind is Html
            &&& ext == seq!['c', 's', 's'] <==> kind is Css
        }),
        kind_of_file(dir.push(ext)) is Other,
        kind_of_file(dir.push(seq!['.'] + ext)) is Other,
{
    reveal_strlit("html");
    reveal_strlit("htm");
    reveal_strlit("css");
    assert("html"@ =~= seq!['h', 't', 'm', 'l']);
    assert("htm"@ =~= seq!['h', 't', 'm']);
    assert("css"@ =~= seq!['c', 's', 's']);
    assert("css"@[0] == 'c' && "html"@[0] == 'h' && "htm"@[0] == 'h');
    extensions_stand_behind_the_last_dot(stem, ext);
    assert(dir.push(stem + seq!['.'] + ext).last() == stem + seq!['.'] + ext);
    assert(dir.push(ext).last() == ext);
    assert(dir.push(seq!['.'] + ext).last() == seq!['.'] + ext);
}

/// What is wrong with a URL is told as it is, and what is wrong with a selector behind words
/// that say so.
pub proof fn errors_tell_their_reason(reason: Seq<char>)
    ensures
        error_text(ErrorModel::InvalidUrl(reason)) == reason,
        error_text(ErrorModel::InvalidSelector(reason)) == "Invalid selector: "@ + reason,
        error_text(ErrorModel::MissingUrl) == "URL is required for mirroring"@,
        error_text(ErrorModel::NoHost) == "Invalid URL: no host found"@,
        error_text(ErrorModel::PageTooLarge) == "The page is too large"@,
{
}

} // verus!
