//! Rewriting the links of downloaded files for offline viewing.

use vstd::prelude::*;
use vstd::string::StringExecFns;
use crate::cli::optional_text;
use crate::error::{ErrorModel, WgetError};
use crate::link_laws::style_sheets_are_rewritten;
use crate::links::{
    all_enclosed, find_captures, html_attributes, is_parsable, is_shallow, joints, present,
    present_values, reference_texts, regex_captures, select_attributes, wholes, CssReference,
    CSS_IMPORT, CSS_URL,
};
use crate::paths::{all_names, extension, file_extension, segments, site_path, FilePath};
use crate::relative::{relative_link, relative_links_lead_to_files, url_to_relative_path, walk};
use crate::rewrite_laws::{
    edits_keep_apart, later_edits_all_apply, replacing_links_keeps_the_rest, rewrites_by,
    stand_apart,
};
use crate::text::{
    find, first_char, first_occurrence, is_rewrite, lemma_first_occurrence, occurs_at, push_range,
    replace_all, replaced, rewrites, same_text, stand_at, stand_in_order, starts_with, substring,
    texts, to_chars, unquote, unquoted, weave,
};
use crate::weburl::{is_same_domain, url_join, url_result, UrlModel, WebUrl};

verus! {

/// What stands in a file is replaced by something else.
#[derive(Debug)]
pub struct Edit {
    pub old: String,
    pub new: String,
}

/// What a list of edits holds.
pub open spec fn edit_texts(edits: Seq<Edit>) -> Seq<(Seq<char>, Seq<char>)> {
    edits.map_values(|e: Edit| (e.old@, e.new@))
}

proof fn lemma_edit_texts_push(edits: Seq<Edit>, edit: Edit)
    ensures
        edit_texts(edits.push(edit)) == edit_texts(edits).push((edit.old@, edit.new@)),
{
    assert(edit_texts(edits.push(edit)) =~= edit_texts(edits).push((edit.old@, edit.new@)));
}

/// Whether what a reference denotes lies on another host than `base`; what denotes nothing
/// lies on none.
pub open spec fn is_foreign(joined: Result<UrlModel, Seq<char>>, base: UrlModel) -> bool {
    match joined {
        Ok(url) => url.host != base.host,
        Err(_) => true,
    }
}

/// The links of a page that stay as they are: anchors, and URLs of other hosts.
pub open spec fn html_link_stays(
    reference: Seq<char>,
    joined: Result<UrlModel, Seq<char>>,
    base: UrlModel,
) -> bool {
    (reference.len() > 0 && reference[0] == '#') || is_foreign(joined, base)
}

/// The two kinds of references in a style sheet.
#[derive(Clone, Copy, Debug)]
pub enum CssKind {
    Url,
    Import,
}

/// The references of a style sheet that stay as they are: URLs of other hosts, and data that
/// a `url()` holds itself.
pub open spec fn css_reference_stays(
    kind: CssKind,
    reference: Seq<char>,
    joined: Result<UrlModel, Seq<char>>,
    base: UrlModel,
) -> bool {
    (kind is Url && "data:"@.is_prefix_of(reference)) || is_foreign(joined, base)
}

/// The relative path that a reference in `file_path` becomes, where it has one.
pub open spec fn offline_link(
    joined: Result<UrlModel, Seq<char>>,
    base: UrlModel,
    file_path: Seq<Seq<char>>,
    output_dir: Seq<Seq<char>>,
) -> Option<Seq<char>> {
    match joined {
        Ok(url) => relative_link(url, base, file_path, output_dir),
        Err(_) => None,
    }
}

/// An attribute as it is written in a page.
pub open spec fn attribute_text(name: Seq<char>, value: Seq<char>) -> Seq<char> {
    name + "=\""@ + value + "\""@
}

/// A reference as it is written in a style sheet.
pub open spec fn css_reference_text(kind: CssKind, target: Seq<char>) -> Seq<char> {
    match kind {
        CssKind::Url => "url(\""@ + target + "\")"@,
        CssKind::Import => "@import \""@ + target + "\""@,
    }
}

/// The edits for the values of one attribute.
pub open spec fn attribute_edits(
    name: Seq<char>,
    values: Seq<Seq<char>>,
    base: UrlModel,
    file_path: Seq<Seq<char>>,
    output_dir: Seq<Seq<char>>,
) -> Seq<(Seq<char>, Seq<char>)>
    decreases values.len(),
{
    if values.len() == 0 {
        Seq::empty()
    } else {
        let before = attribute_edits(name, values.drop_last(), base, file_path, output_dir);
        let value = values.last();
        let joined = url_join(base.text, value);
        match offline_link(joined, base, file_path, output_dir) {
            Some(path) if !html_link_stays(value, joined, base) => before.push(
                (attribute_text(name, value), attribute_text(name, path)),
            ),
            _ => before,
        }
    }
}

/// The edits for the references of one kind, given whole and by what they refer to as it is
/// written.
pub open spec fn css_edits(
    kind: CssKind,
    references: Seq<(Seq<char>, Seq<char>)>,
    base: UrlModel,
    file_path: Seq<Seq<char>>,
    output_dir: Seq<Seq<char>>,
) -> Seq<(Seq<char>, Seq<char>)>
    decreases references.len(),
{
    if references.len() == 0 {
        Seq::empty()
    } else {
        let before = css_edits(kind, references.drop_last(), base, file_path, output_dir);
        let (whole, written) = references.last();
        let target = unquote(written);
        let joined = url_join(base.text, target);
        match offline_link(joined, base, file_path, output_dir) {
            Some(path) if !css_reference_stays(kind, target, joined, base) => before.push(
                (whole, css_reference_text(kind, path)),
            ),
            _ => before,
        }
    }
}

/// The text after every occurrence of each edit's old text was replaced, edit by edit.
pub open spec fn replace_each(text: Seq<char>, edits: Seq<(Seq<char>, Seq<char>)>) -> Seq<char>
    decreases edits.len(),
{
    if edits.len() == 0 {
        text
    } else {
        replace_all(replace_each(text, edits.drop_last()), edits.last().0, edits.last().1)
    }
}

/// The text and the position after one edit: the first occurrence at or after `from` of the
/// old text is replaced, and the position moves behind what was put in; a text in which it
/// does not occur there stays as it is.
pub open spec fn edit_next(
    text: Seq<char>,
    from: int,
    old_text: Seq<char>,
    new_text: Seq<char>,
) -> (Seq<char>, int) {
    match first_occurrence(text, old_text, from) {
        Some(i) => (
            text.take(i) + new_text + text.skip(i + old_text.len()),
            i + new_text.len(),
        ),
        None => (text, from),
    }
}

/// The text and the position after edits, each made behind the one before.
pub open spec fn edit_in_order(text: Seq<char>, edits: Seq<(Seq<char>, Seq<char>)>) -> (
    Seq<char>,
    int,
)
    decreases edits.len(),
{
    if edits.len() == 0 {
        (text, 0)
    } else {
        let (before, from) = edit_in_order(text, edits.drop_last());
        edit_next(before, from, edits.last().0, edits.last().1)
    }
}

/// The tags whose links are followed and rewritten, each with the attribute that holds them.
pub open spec fn link_tags() -> Seq<(Seq<char>, Seq<char>)> {
    seq![
        ("a"@, "href"@),
        ("link"@, "href"@),
        ("img"@, "src"@),
        ("script"@, "src"@),
    ]
}

/// The number of tags whose links are followed.
pub const LINK_TAGS: usize = 4;

/// The edits for the links of the first `count` tags of a page, tag by tag.
pub open spec fn page_edits(
    html: Seq<char>,
    base: UrlModel,
    file_path: Seq<Seq<char>>,
    output_dir: Seq<Seq<char>>,
    count: nat,
) -> Result<Seq<(Seq<char>, Seq<char>)>, ErrorModel>
    decreases count,
{
    if count == 0 {
        Ok(Seq::empty())
    } else {
        let (tag, attribute) = link_tags()[count - 1];
        match page_edits(html, base, file_path, output_dir, (count - 1) as nat) {
            Err(e) => Err(e),
            Ok(before) => match html_attributes(html, tag, attribute) {
                Err(reason) => Err(ErrorModel::InvalidSelector(reason)),
                Ok(values) => Ok(
                    before + attribute_edits(
                        attribute,
                        present(values),
                        base,
                        file_path,
                        output_dir,
                    ),
                ),
            },
        }
    }
}

/// A style sheet with the `url()` references rewritten, then the `@import` references. Both
/// are those that the style sheet held at first.
pub open spec fn converted_css(
    css: Seq<char>,
    base: UrlModel,
    file_path: Seq<Seq<char>>,
    output_dir: Seq<Seq<char>>,
) -> Seq<char> {
    let urls = css_edits(
        CssKind::Url,
        regex_captures(CSS_URL@, css),
        base,
        file_path,
        output_dir,
    );
    let imports = css_edits(
        CssKind::Import,
        regex_captures(CSS_IMPORT@, css),
        base,
        file_path,
        output_dir,
    );
    edit_in_order(edit_in_order(css, urls).0, imports).0
}

/// A selector has no more joints than characters.
proof fn lemma_joints_are_few(selector: Seq<char>)
    ensures
        joints(selector) <= selector.len(),
    decreases selector.len(),
{
    if selector.len() > 0 {
        lemma_joints_are_few(selector.drop_last());
    }
}

/// A tag whose links are followed, and the attribute that holds them.
pub fn link_tag(i: usize) -> (r: (&'static str, &'static str))
    requires
        i < LINK_TAGS,
    ensures
        (r.0@, r.1@) == link_tags()[i as int],
        is_shallow(r.0@),
{
    proof {
        reveal_strlit("a");
        reveal_strlit("link");
        reveal_strlit("img");
        reveal_strlit("script");
        lemma_joints_are_few("a"@);
        lemma_joints_are_few("link"@);
        lemma_joints_are_few("img"@);
        lemma_joints_are_few("script"@);
    }
    if i == 0 {
        ("a", "href")
    } else if i == 1 {
        ("link", "href")
    } else if i == 2 {
        ("img", "src")
    } else {
        ("script", "src")
    }
}

/// Whether what a reference denotes lies on another host.
fn leads_elsewhere(joined: &Result<WebUrl, String>, base_url: &WebUrl) -> (r: bool)
    ensures
        r == is_foreign(url_result(*joined), base_url@),
{
    match joined {
        Ok(url) => !is_same_domain(url, base_url),
        Err(_) => true,
    }
}

/// Whether a link of a page stays as it is, from what it denotes on `base_url`.
pub fn keeps_html_link(
    reference: &str,
    joined: &Result<WebUrl, String>,
    base_url: &WebUrl,
) -> (r: bool)
    ensures
        r == html_link_stays(reference@, url_result(*joined), base_url@),
{
    let anchor = match first_char(reference) {
        Some(c) => c == '#',
        None => false,
    };
    anchor || leads_elsewhere(joined, base_url)
}

/// Whether a reference of a style sheet stays as it is, from what it denotes on `base_url`.
pub fn keeps_css_reference(
    kind: CssKind,
    reference: &str,
    joined: &Result<WebUrl, String>,
    base_url: &WebUrl,
) -> (r: bool)
    ensures
        r == css_reference_stays(kind, reference@, url_result(*joined), base_url@),
{
    let data = match kind {
        CssKind::Url => starts_with(reference, "data:"),
        CssKind::Import => false,
    };
    data || leads_elsewhere(joined, base_url)
}

/// The relative path that a reference becomes, where it denotes a URL that has one.
pub fn link_path(
    joined: &Result<WebUrl, String>,
    base_url: &WebUrl,
    file_path: &FilePath,
    output_dir: &FilePath,
) -> (r: Option<String>)
    ensures
        optional_text(r) == offline_link(url_result(*joined), base_url@, file_path@, output_dir@),
{
    match joined {
        Ok(url) => url_to_relative_path(url, base_url, file_path, output_dir),
        Err(_) => None,
    }
}

/// An attribute as it is written in a page.
fn write_attribute(name: &str, value: &str) -> (r: String)
    ensures
        r@ == attribute_text(name@, value@),
        r@.len() > 0,
{
    proof {
        reveal_strlit("\"");
    }
    let mut text = name.to_owned();
    text.append("=\"");
    text.append(value);
    text.append("\"");
    text
}

/// A reference as it is written in a style sheet.
fn write_css_reference(kind: CssKind, target: &str) -> (r: String)
    ensures
        r@ == css_reference_text(kind, target@),
{
    let mut text = String::new();
    match kind {
        CssKind::Url => {
            text.append("url(\"");
            text.append(target);
            text.append("\")");
        },
        CssKind::Import => {
            text.append("@import \"");
            text.append(target);
            text.append("\"");
        },
    }
    assert(text@ =~= css_reference_text(kind, target@));
    text
}

/// Whether every edit replaces at least one character.
pub open spec fn replace_something(edits: Seq<Edit>) -> bool {
    forall|i: int| 0 <= i < edits.len() ==> (#[trigger] edits[i]).old@.len() > 0
}

/// Adds the edits for the values of one attribute.
pub fn push_attribute_edits(
    edits: &mut Vec<Edit>,
    name: &str,
    values: &Vec<String>,
    base_url: &WebUrl,
    file_path: &FilePath,
    output_dir: &FilePath,
)
    ensures
        edit_texts(final(edits)@) == edit_texts(old(edits)@) + attribute_edits(
            name@,
            texts(values@),
            base_url@,
            file_path@,
            output_dir@,
        ),
        replace_something(old(edits)@) ==> replace_something(final(edits)@),
{
    let ghost all = texts(values@);
    let ghost start = edit_texts(edits@);
    let mut i: usize = 0;
    assert(edit_texts(edits@) =~= start + attribute_edits(
        name@,
        all.take(0),
        base_url@,
        file_path@,
        output_dir@,
    ));
    while i < values.len()
        invariant
            i <= values@.len(),
            all == texts(values@),
            replace_something(old(edits)@) ==> replace_something(edits@),
            edit_texts(edits@) == start + attribute_edits(
                name@,
                all.take(i as int),
                base_url@,
                file_path@,
                output_dir@,
            ),
        decreases values@.len() - i,
    {
        let value = values[i].as_str();
        assert(all[i as int] == value@);
        assert(all.take(i + 1).drop_last() =~= all.take(i as int));
        let joined = base_url.join(value);
        if !keeps_html_link(value, &joined, base_url) {
            match link_path(&joined, base_url, file_path, output_dir) {
                Some(path) => {
                    let edit = Edit {
                        old: write_attribute(name, value),
                        new: write_attribute(name, path.as_str()),
                    };
                    proof {
                        lemma_edit_texts_push(edits@, edit);
                    }
                    edits.push(edit);
                },
                None => {},
            }
        }
        i += 1;
        assert(edit_texts(edits@) =~= start + attribute_edits(
            name@,
            all.take(i as int),
            base_url@,
            file_path@,
            output_dir@,
        ));
    }
    assert(all.take(i as int) =~= all);
}

/// The edits for the references of one kind.
pub fn plan_css_edits(
    kind: CssKind,
    references: &Vec<CssReference>,
    base_url: &WebUrl,
    file_path: &FilePath,
    output_dir: &FilePath,
) -> (edits: Vec<Edit>)
    ensures
        edit_texts(edits@) == css_edits(
            kind,
            reference_texts(references@),
            base_url@,
            file_path@,
            output_dir@,
        ),
{
    let ghost all = reference_texts(references@);
    let mut edits: Vec<Edit> = Vec::new();
    let mut i: usize = 0;
    assert(edit_texts(edits@) =~= css_edits(
        kind,
        all.take(0),
        base_url@,
        file_path@,
        output_dir@,
    ));
    while i < references.len()
        invariant
            i <= references@.len(),
            all == reference_texts(references@),
            edit_texts(edits@) == css_edits(
                kind,
                all.take(i as int),
                base_url@,
                file_path@,
                output_dir@,
            ),
        decreases references@.len() - i,
    {
        let reference = &references[i];
        assert(all[i as int] == (reference.whole@, reference.written@));
        assert(all.take(i + 1).drop_last() =~= all.take(i as int));
        let target = unquoted(reference.written.as_str());
        let joined = base_url.join(target.as_str());
        if !keeps_css_reference(kind, target.as_str(), &joined, base_url) {
            match link_path(&joined, base_url, file_path, output_dir) {
                Some(path) => {
                    let edit = Edit {
                        old: reference.whole.clone(),
                        new: write_css_reference(kind, path.as_str()),
                    };
                    proof {
                        lemma_edit_texts_push(edits@, edit);
                    }
                    edits.push(edit);
                },
                None => {},
            }
        }
        i += 1;
    }
    assert(all.take(i as int) =~= all);
    edits
}

/// Replaces every occurrence of each edit's old text, edit by edit.
pub fn apply_everywhere(content: &str, edits: &Vec<Edit>) -> (r: String)
    requires
        replace_something(edits@),
    ensures
        r@ == replace_each(content@, edit_texts(edits@)),
{
    let ghost all = edit_texts(edits@);
    let mut text = content.to_owned();
    let mut i: usize = 0;
    while i < edits.len()
        invariant
            i <= edits@.len(),
            all == edit_texts(edits@),
            replace_something(edits@),
            text@ == replace_each(content@, all.take(i as int)),
        decreases edits@.len() - i,
    {
        let edit = &edits[i];
        assert(all[i as int] == (edit.old@, edit.new@));
        assert(all.take(i + 1).drop_last() =~= all.take(i as int));
        text = replaced(text.as_str(), edit.old.as_str(), edit.new.as_str());
        i += 1;
    }
    assert(all.take(i as int) =~= all);
    text
}

/// Makes edits one behind the other, each at the first place where its old text stands.
pub fn apply_in_order(content: &str, edits: &Vec<Edit>) -> (r: String)
    ensures
        r@ == edit_in_order(content@, edit_texts(edits@)).0,
{
    let ghost all = edit_texts(edits@);
    let mut text = to_chars(content);
    let mut from: usize = 0;
    let mut i: usize = 0;
    while i < edits.len()
        invariant
            i <= edits@.len(),
            all == edit_texts(edits@),
            from <= text@.len(),
            edit_in_order(content@, all.take(i as int)) == (text@, from as int),
        decreases edits@.len() - i,
    {
        let edit = &edits[i];
        let old_text = to_chars(edit.old.as_str());
        let new_text = to_chars(edit.new.as_str());
        proof {
            assert(all[i as int] == (edit.old@, edit.new@));
            assert(all.take(i + 1).drop_last() =~= all.take(i as int));
            lemma_first_occurrence(text@, old_text@, from as int);
        }
        match find(&text, &old_text, from) {
            Some(at) => {
                let len = text.len();
                let mut next: Vec<char> = Vec::new();
                push_range(&mut next, &text, 0, at);
                push_range(&mut next, &new_text, 0, new_text.len());
                let behind = next.len();
                push_range(&mut next, &text, at + old_text.len(), len);
                assert(next@ =~= text@.take(at as int) + new_text@ + text@.skip(
                    at + old_text@.len(),
                ));
                text = next;
                from = behind;
            },
            None => {},
        }
        i += 1;
    }
    assert(all.take(i as int) =~= all);
    let len = text.len();
    assert(text@.subrange(0, len as int) =~= text@);
    substring(&text, 0, len)
}

/// Converts links in HTML content for offline viewing. The content was fetched from `base_url`
/// and lies in the file `file_path` of a site in `output_dir`.
pub fn convert_html_links(
    content: &str,
    base_url: &WebUrl,
    file_path: &FilePath,
    output_dir: &FilePath,
) -> (r: Result<String, WgetError>)
    requires
        is_parsable(content@),
    ensures
        match page_edits(content@, base_url@, file_path@, output_dir@, LINK_TAGS as nat) {
            Ok(edits) => r matches Ok(text) && text@ == replace_each(content@, edits) && (
            edits_keep_apart(edits) ==> rewrites_by(content@, text@, edits)),
            Err(e) => r matches Err(error) && error@ == e,
        },
{
    let mut edits: Vec<Edit> = Vec::new();
    let mut i: usize = 0;
    assert(edit_texts(edits@) =~= Seq::empty());
    while i < LINK_TAGS
        invariant
            i <= LINK_TAGS,
            is_parsable(content@),
            replace_something(edits@),
            page_edits(content@, base_url@, file_path@, output_dir@, i as nat) == Ok::<
                Seq<(Seq<char>, Seq<char>)>,
                ErrorModel,
            >(edit_texts(edits@)),
        decreases LINK_TAGS - i,
    {
        let (tag_name, attr_name) = link_tag(i);
        match select_attributes(content, tag_name, attr_name) {
            Ok(values) => {
                let present = present_values(&values);
                push_attribute_edits(
                    &mut edits,
                    attr_name,
                    &present,
                    base_url,
                    file_path,
                    output_dir,
                );
            },
            Err(reason) => {
                proof {
                    lemma_page_edits_fail(
                        content@,
                        base_url@,
                        file_path@,
                        output_dir@,
                        (i + 1) as nat,
                        LINK_TAGS as nat,
                    );
                }
                return Err(WgetError::InvalidSelector(reason));
            },
        }
        i += 1;
    }
    proof {
        let planned = edit_texts(edits@);
        if edits_keep_apart(planned) {
            assert forall|i: int| 0 <= i < planned.len() implies (
            #[trigger] planned[i]).0.len() > 0 by {
                assert(planned[i] == (edits@[i].old@, edits@[i].new@));
            }
            replacing_links_keeps_the_rest(content@, planned);
        }
    }
    Ok(apply_everywhere(content, &edits))
}

/// Once a tag is no selector, no later tag mends it.
proof fn lemma_page_edits_fail(
    html: Seq<char>,
    base: UrlModel,
    file_path: Seq<Seq<char>>,
    output_dir: Seq<Seq<char>>,
    count: nat,
    all: nat,
)
    requires
        count <= all,
        page_edits(html, base, file_path, output_dir, count) is Err,
    ensures
        page_edits(html, base, file_path, output_dir, all) == page_edits(
            html,
            base,
            file_path,
            output_dir,
            count,
        ),
    decreases all,
{
    if count < all {
        lemma_page_edits_fail(html, base, file_path, output_dir, count, (all - 1) as nat);
    }
}

/// Converts links in CSS content for offline viewing. The content was fetched from `base_url`
/// and lies in the file `file_path` of a site in `output_dir`.
pub fn convert_css_links(
    content: &str,
    base_url: &WebUrl,
    file_path: &FilePath,
    output_dir: &FilePath,
) -> (r: String)
    ensures
        r@ == converted_css(content@, base_url@, file_path@, output_dir@),
        all_enclosed(regex_captures(CSS_URL@, content@)),
        ({
            let edits = css_edits(
                CssKind::Url,
                regex_captures(CSS_URL@, content@),
                base_url@,
                file_path@,
                output_dir@,
            );
            let imports = css_edits(
                CssKind::Import,
                regex_captures(CSS_IMPORT@, content@),
                base_url@,
                file_path@,
                output_dir@,
            );
            &&& applied_edits(content@, edits) == edits
            &&& stand_apart(content@, edits, imports) ==> applied_edits(
                edit_in_order(content@, edits).0,
                imports,
            ) == imports
            &&& exists|with_urls: Seq<char>| #[trigger]
                rewrites(content@, with_urls, old_texts(edits), new_texts(edits)) && (stand_apart(
                    content@,
                    edits,
                    imports,
                ) ==> rewrites(with_urls, r@, old_texts(imports), new_texts(imports)))
            &&& edits.len() == 0 ==> rewrites(
                content@,
                r@,
                old_texts(imports),
                new_texts(imports),
            )
        }),
{
    let urls = find_captures(CSS_URL, content);
    proof {
        references_in_order_are_all_rewritten(
            content@,
            CssKind::Url,
            reference_texts(urls@),
            base_url@,
            file_path@,
            output_dir@,
        );
    }
    let url_edits = plan_css_edits(CssKind::Url, &urls, base_url, file_path, output_dir);
    let imports = find_captures(CSS_IMPORT, content);
    let import_edits = plan_css_edits(CssKind::Import, &imports, base_url, file_path, output_dir);
    proof {
        let edits = edit_texts(url_edits@);
        let later = edit_texts(import_edits@);
        if stand_apart(content@, edits, later) {
            later_edits_all_apply(content@, edits, later);
        }
        style_sheets_are_rewritten(content@, base_url@, file_path@, output_dir@);
    }
    let with_urls = apply_in_order(content, &url_edits);
    apply_in_order(with_urls.as_str(), &import_edits)
}

/// How the links of a file are written.
#[derive(Clone, Copy, Debug)]
pub enum FileKind {
    Html,
    Css,
    Other,
}

/// What the extension of a file's name says of it.
pub open spec fn kind_of_file(file_path: Seq<Seq<char>>) -> FileKind {
    if file_path.len() == 0 {
        FileKind::Other
    } else {
        match extension(file_path.last()) {
            Some(ext) if ext == "html"@ || ext == "htm"@ => FileKind::Html,
            Some(ext) if ext == "css"@ => FileKind::Css,
            _ => FileKind::Other,
        }
    }
}

/// What the extension of a file's name says of it.
pub fn file_kind(file_path: &FilePath) -> (r: FileKind)
    ensures
        r == kind_of_file(file_path@),
{
    let len = file_path.components.len();
    if len == 0 {
        return FileKind::Other;
    }
    let name = &file_path.components[len - 1];
    assert(file_path@.last() == name@);
    match file_extension(name.as_str()) {
        Some(ext) => {
            if same_text(ext.as_str(), "html") || same_text(ext.as_str(), "htm") {
                FileKind::Html
            } else if same_text(ext.as_str(), "css") {
                FileKind::Css
            } else {
                FileKind::Other
            }
        },
        None => FileKind::Other,
    }
}

/// The content of a downloaded file with its links converted for offline viewing; a file that
/// is neither a page nor a style sheet is left alone. It was fetched from `base_url`.
pub fn convert_links_in_file(
    content: &str,
    base_url: &WebUrl,
    file_path: &FilePath,
    output_dir: &FilePath,
) -> (r: Result<Option<String>, WgetError>)
    requires
        kind_of_file(file_path@) is Html ==> is_parsable(content@),
    ensures
        match kind_of_file(file_path@) {
            FileKind::Html => match page_edits(
                content@,
                base_url@,
                file_path@,
                output_dir@,
                LINK_TAGS as nat,
            ) {
                Ok(edits) => r matches Ok(Some(text)) && text@ == replace_each(content@, edits),
                Err(e) => r matches Err(error) && error@ == e,
            },
            FileKind::Css => r matches Ok(Some(text)) && text@ == converted_css(
                content@,
                base_url@,
                file_path@,
                output_dir@,
            ),
            FileKind::Other => r matches Ok(None),
        },
{
    match file_kind(file_path) {
        FileKind::Html => match convert_html_links(content, base_url, file_path, output_dir) {
            Ok(text) => Ok(Some(text)),
            Err(e) => Err(e),
        },
        FileKind::Css => Ok(Some(convert_css_links(content, base_url, file_path, output_dir))),
        FileKind::Other => Ok(None),
    }
}

/// The edits that found their old text.
pub open spec fn applied_edits(text: Seq<char>, edits: Seq<(Seq<char>, Seq<char>)>) -> Seq<
    (Seq<char>, Seq<char>),
>
    decreases edits.len(),
{
    if edits.len() == 0 {
        Seq::empty()
    } else {
        let (before, from) = edit_in_order(text, edits.drop_last());
        let earlier = applied_edits(text, edits.drop_last());
        match first_occurrence(before, edits.last().0, from) {
            Some(_) => earlier.push(edits.last()),
            None => earlier,
        }
    }
}

/// The old texts of edits.
pub open spec fn old_texts(edits: Seq<(Seq<char>, Seq<char>)>) -> Seq<Seq<char>> {
    edits.map_values(|e: (Seq<char>, Seq<char>)| e.0)
}

/// The new texts of edits.
pub open spec fn new_texts(edits: Seq<(Seq<char>, Seq<char>)>) -> Seq<Seq<char>> {
    edits.map_values(|e: (Seq<char>, Seq<char>)| e.1)
}

/// Edits made in order replace old texts that stand one behind the other, and keep everything
/// else.
pub proof fn editing_keeps_the_rest(text: Seq<char>, edits: Seq<(Seq<char>, Seq<char>)>)
    ensures
        rewrites(
            text,
            edit_in_order(text, edits).0,
            old_texts(applied_edits(text, edits)),
            new_texts(applied_edits(text, edits)),
        ),
{
    let (kept, tail) = lemma_edits_rewrite(text, edits);
    assert(is_rewrite(
        text,
        edit_in_order(text, edits).0,
        old_texts(applied_edits(text, edits)),
        new_texts(applied_edits(text, edits)),
        kept,
        tail,
    ));
}

proof fn lemma_edits_rewrite(text: Seq<char>, edits: Seq<(Seq<char>, Seq<char>)>) -> (r: (
    Seq<Seq<char>>,
    Seq<char>,
))
    ensures
        is_rewrite(
            text,
            edit_in_order(text, edits).0,
            old_texts(applied_edits(text, edits)),
            new_texts(applied_edits(text, edits)),
            r.0,
            r.1,
        ),
        edit_in_order(text, edits).1 == weave(r.0, new_texts(applied_edits(text, edits))).len(),
    decreases edits.len(),
{
    let done = applied_edits(text, edits);
    if edits.len() == 0 {
        let none = Seq::<Seq<char>>::empty();
        assert(weave(none, old_texts(done)) + text =~= text);
        assert(weave(none, new_texts(done)) + text =~= text);
        (none, text)
    } else {
        let front = edits.drop_last();
        let (kept, tail) = lemma_edits_rewrite(text, front);
        let (before, from) = edit_in_order(text, front);
        let earlier = applied_edits(text, front);
        let (old_text, new_text) = edits.last();
        lemma_first_occurrence(before, old_text, from);
        match first_occurrence(before, old_text, from) {
            Some(i) => {
                let k = tail.take(i - from);
                let rest = tail.skip(i - from + old_text.len());
                let all_kept = kept.push(k);
                assert(old_texts(done) =~= old_texts(earlier).push(old_text));
                assert(new_texts(done) =~= new_texts(earlier).push(new_text));
                assert(all_kept.drop_last() =~= kept);
                assert(old_texts(done).drop_last() =~= old_texts(earlier));
                assert(new_texts(done).drop_last() =~= new_texts(earlier));
                let put = weave(kept, new_texts(earlier));
                assert(before.subrange(i, i + old_text.len()) == old_text);
                assert(tail =~= k + old_text + rest) by {
                    assert forall|j: int| 0 <= j < old_text.len() implies tail[i - from + j]
                        == old_text[j] by {
                        assert(before[i + j] == tail[i - from + j]);
                        assert(before.subrange(i, i + old_text.len())[j] == before[i + j]);
                    }
                }
                assert(before.take(i) =~= put + k);
                assert(before.skip(i + old_text.len()) =~= rest);
                assert(text =~= weave(all_kept, old_texts(done)) + rest);
                assert(edit_in_order(text, edits).0 =~= weave(all_kept, new_texts(done)) + rest);
                (all_kept, rest)
            },
            None => (kept, tail),
        }
    }
}

/// Edits whose old texts stand in the text one behind the other all find their place.
pub proof fn edits_in_order_all_apply(
    text: Seq<char>,
    edits: Seq<(Seq<char>, Seq<char>)>,
    positions: Seq<int>,
)
    requires
        stand_at(text, old_texts(edits), positions),
    ensures
        applied_edits(text, edits) == edits,
{
    lemma_edits_apply(text, edits, positions);
}

/// What an edit leaves untouched begins no later than behind the place of its old text.
proof fn lemma_edits_apply(
    text: Seq<char>,
    edits: Seq<(Seq<char>, Seq<char>)>,
    positions: Seq<int>,
)
    requires
        stand_at(text, old_texts(edits), positions),
    ensures
        applied_edits(text, edits) == edits,
        ({
            let (now, from) = edit_in_order(text, edits);
            let behind = text.len() - (now.len() - from);
            if edits.len() == 0 {
                behind == 0
            } else {
                behind <= positions.last() + edits.last().0.len()
            }
        }),
    decreases edits.len(),
{
    if edits.len() > 0 {
        let front = edits.drop_last();
        let places = positions.drop_last();
        let parts = old_texts(edits);
        let front_parts = old_texts(front);
        assert forall|i: int| 0 <= i < front_parts.len() implies occurs_at(
            text,
            #[trigger] front_parts[i],
            places[i],
        ) by {
            assert(front_parts[i] == parts[i]);
        }
        assert forall|i: int, j: int| 0 <= i < j < front_parts.len() implies (
        #[trigger] places[i]) + front_parts[i].len() <= #[trigger] places[j] by {
            assert(places[i] == positions[i] && places[j] == positions[j]);
        }
        lemma_edits_apply(text, front, places);
        let (kept, tail) = lemma_edits_rewrite(text, front);
        let (before, from) = edit_in_order(text, front);
        let behind = text.len() - (before.len() - from);
        let (old_text, new_text) = edits.last();
        let place = positions.last();
        if front.len() > 0 {
            assert(positions[front.len() - 1] + parts[front.len() - 1].len()
                <= positions[front.len() as int]);
        }
        assert(occurs_at(text, parts[edits.len() - 1], positions[edits.len() - 1]));
        assert(behind <= place);
        let at = from + (place - behind);
        assert(tail =~= text.skip(behind));
        assert(before.subrange(at, at + old_text.len()) =~= text.subrange(
            place,
            place + old_text.len(),
        )) by {
            let here = before.subrange(at, at + old_text.len());
            let there = text.subrange(place, place + old_text.len());
            assert forall|j: int| 0 <= j < old_text.len() implies #[trigger] here[j]
                == there[j] by {
                assert(before[at + j] == tail[place - behind + j]);
                assert(text.skip(behind)[place - behind + j] == text[place + j]);
            }
        }
        assert(occurs_at(before, old_text, at));
        lemma_first_occurrence(before, old_text, from);
        assert(edits =~= front.push(edits.last()));
    } else {
        assert(applied_edits(text, edits) =~= edits);
    }
}

/// The old texts of the edits for references stand in the text as the references do.
proof fn lemma_css_edits_stand(
    text: Seq<char>,
    kind: CssKind,
    references: Seq<(Seq<char>, Seq<char>)>,
    positions: Seq<int>,
    base: UrlModel,
    file_path: Seq<Seq<char>>,
    output_dir: Seq<Seq<char>>,
) -> (places: Seq<int>)
    requires
        stand_at(text, wholes(references), positions),
    ensures
        stand_at(
            text,
            old_texts(css_edits(kind, references, base, file_path, output_dir)),
            places,
        ),
        forall|i: int|
            0 <= i < places.len() ==> exists|j: int|
                0 <= j < positions.len() && (#[trigger] places[i]) == #[trigger] positions[j]
                    && old_texts(css_edits(kind, references, base, file_path, output_dir))[i]
                    == wholes(references)[j],
    decreases references.len(),
{
    if references.len() == 0 {
        Seq::empty()
    } else {
        let front = references.drop_last();
        let front_positions = positions.drop_last();
        let n = references.len() - 1;
        let parts = wholes(references);
        let front_parts = wholes(front);
        assert forall|i: int| 0 <= i < front_parts.len() implies occurs_at(
            text,
            #[trigger] front_parts[i],
            front_positions[i],
        ) by {
            assert(front_parts[i] == parts[i]);
        }
        assert forall|i: int, j: int| 0 <= i < j < front_parts.len() implies (
        #[trigger] front_positions[i]) + front_parts[i].len()
            <= #[trigger] front_positions[j] by {
            assert(front_positions[i] == positions[i] && front_positions[j] == positions[j]);
        }
        let before = lemma_css_edits_stand(
            text,
            kind,
            front,
            front_positions,
            base,
            file_path,
            output_dir,
        );
        let earlier = css_edits(kind, front, base, file_path, output_dir);
        let edits = css_edits(kind, references, base, file_path, output_dir);
        let olds = old_texts(edits);
        assert forall|i: int| 0 <= i < before.len() implies exists|j: int|
            0 <= j < n && (#[trigger] before[i]) == #[trigger] positions[j] && old_texts(
                earlier,
            )[i] == parts[j] by {
            let j = choose|j: int|
                0 <= j < front_positions.len() && before[i] == #[trigger] front_positions[j]
                    && old_texts(earlier)[i] == front_parts[j];
            assert(positions[j] == front_positions[j] && parts[j] == front_parts[j]);
        }
        if edits.len() == earlier.len() {
            assert(edits == earlier);
            before
        } else {
            let places = before.push(positions[n]);
            assert(olds =~= old_texts(earlier).push(parts[n]));
            assert forall|i: int| 0 <= i < olds.len() implies occurs_at(
                text,
                #[trigger] olds[i],
                places[i],
            ) by {
                if i < before.len() {
                    assert(old_texts(earlier)[i] == olds[i]);
                } else {
                    assert(occurs_at(text, parts[n], positions[n]));
                }
            }
            assert forall|i: int, j: int| 0 <= i < j < olds.len() implies (
            #[trigger] places[i]) + olds[i].len() <= #[trigger] places[j] by {
                assert(places[i] == before[i]);
                assert(old_texts(earlier)[i] == olds[i]);
                if j < before.len() {
                    assert(places[j] == before[j]);
                } else {
                    let k = choose|k: int|
                        0 <= k < n && before[i] == #[trigger] positions[k] && old_texts(
                            earlier,
                        )[i] == parts[k];
                    assert(positions[k] + parts[k].len() <= positions[n]);
                }
            }
            assert forall|i: int| 0 <= i < places.len() implies exists|j: int|
                0 <= j < positions.len() && (#[trigger] places[i]) == #[trigger] positions[j]
                    && olds[i] == parts[j] by {
                if i < before.len() {
                    assert(places[i] == before[i]);
                } else {
                    assert(places[i] == positions[n]);
                }
            }
            places
        }
    }
}

/// Every edit for the references of a style sheet finds its place, where the references stand
/// in the style sheet one behind the other.
pub proof fn references_in_order_are_all_rewritten(
    css: Seq<char>,
    kind: CssKind,
    references: Seq<(Seq<char>, Seq<char>)>,
    base: UrlModel,
    file_path: Seq<Seq<char>>,
    output_dir: Seq<Seq<char>>,
)
    requires
        stand_in_order(css, wholes(references)),
    ensures
        applied_edits(css, css_edits(kind, references, base, file_path, output_dir)) == css_edits(
            kind,
            references,
            base,
            file_path,
            output_dir,
        ),
{
    let positions = choose|positions: Seq<int>| stand_at(css, wholes(references), positions);
    let places = lemma_css_edits_stand(
        css,
        kind,
        references,
        positions,
        base,
        file_path,
        output_dir,
    );
    edits_in_order_all_apply(
        css,
        css_edits(kind, references, base, file_path, output_dir),
        places,
    );
}

/// Whether a path that is put in place of a link leads from the file `file_path` to the file
/// for a URL.
pub open spec fn leads_to_file(
    link: Seq<char>,
    url: UrlModel,
    file_path: Seq<Seq<char>>,
    output_dir: Seq<Seq<char>>,
) -> bool {
    walk(file_path.drop_last(), segments(link)) == site_path(output_dir, url.path)
}

/// Every link of a page that is no anchor and leads to a file of the page's own site is
/// rewritten, and what is put in its place leads to that file; for a page, a URL and a directory
/// whose paths are made of names.
pub proof fn links_of_the_site_are_rewritten(
    name: Seq<char>,
    values: Seq<Seq<char>>,
    i: int,
    page: UrlModel,
    output_dir: Seq<Seq<char>>,
)
    requires
        0 <= i < values.len(),
        all_names(output_dir),
        all_names(segments(page.path)),
    ensures
        ({
            let file_path = site_path(output_dir, page.path);
            let edits = attribute_edits(name, values, page, file_path, output_dir);
            let joined = url_join(page.text, values[i]);
            joined matches Ok(url) ==> !html_link_stays(values[i], joined, page) && all_names(
                segments(url.path),
            ) ==> exists|j: int, link: Seq<char>|
                0 <= j < edits.len() && #[trigger] edits[j] == (
                    attribute_text(name, values[i]),
                    #[trigger] attribute_text(name, link),
                ) && leads_to_file(link, url, file_path, output_dir)
        }),
    decreases values.len(),
{
    let file_path = site_path(output_dir, page.path);
    let edits = attribute_edits(name, values, page, file_path, output_dir);
    let front = values.drop_last();
    let earlier = attribute_edits(name, front, page, file_path, output_dir);
    let joined = url_join(page.text, values[i]);
    if let Ok(url) = joined {
        if !html_link_stays(values[i], joined, page) && all_names(segments(url.path)) {
            if i < front.len() {
                links_of_the_site_are_rewritten(name, front, i, page, output_dir);
                assert(front[i] == values[i]);
                let (j, link) = choose|j: int, link: Seq<char>|
                    0 <= j < earlier.len() && #[trigger] earlier[j] == (
                        attribute_text(name, values[i]),
                        #[trigger] attribute_text(name, link),
                    ) && leads_to_file(link, url, file_path, output_dir);
                assert(edits[j] == (attribute_text(name, values[i]), attribute_text(name, link)));
            } else {
                relative_links_lead_to_files(url, page, output_dir);
                let link = relative_link(url, page, file_path, output_dir)->0;
                let j = edits.len() - 1;
                assert(edits[j] == (attribute_text(name, values[i]), attribute_text(name, link)));
            }
        }
    }
}

/// Every reference of a style sheet that leads to a file of the sheet's own site is rewritten,
/// and what is put in its place leads to that file; for a sheet, a URL and a directory whose
/// paths are made of names.
pub proof fn references_of_the_site_are_rewritten(
    kind: CssKind,
    references: Seq<(Seq<char>, Seq<char>)>,
    i: int,
    sheet: UrlModel,
    output_dir: Seq<Seq<char>>,
)
    requires
        0 <= i < references.len(),
        all_names(output_dir),
        all_names(segments(sheet.path)),
    ensures
        ({
            let file_path = site_path(output_dir, sheet.path);
            let edits = css_edits(kind, references, sheet, file_path, output_dir);
            let target = unquote(references[i].1);
            let joined = url_join(sheet.text, target);
            joined matches Ok(url) ==> !css_reference_stays(kind, target, joined, sheet)
                && all_names(segments(url.path)) ==> exists|j: int, link: Seq<char>|
                0 <= j < edits.len() && #[trigger] edits[j] == (
                    references[i].0,
                    #[trigger] css_reference_text(kind, link),
                ) && leads_to_file(link, url, file_path, output_dir)
        }),
    decreases references.len(),
{
    let file_path = site_path(output_dir, sheet.path);
    let edits = css_edits(kind, references, sheet, file_path, output_dir);
    let front = references.drop_last();
    let earlier = css_edits(kind, front, sheet, file_path, output_dir);
    let (whole, written) = references[i];
    let target = unquote(written);
    let joined = url_join(sheet.text, target);
    if let Ok(url) = joined {
        if !css_reference_stays(kind, target, joined, sheet) && all_names(segments(url.path)) {
            if i < front.len() {
                references_of_the_site_are_rewritten(kind, front, i, sheet, output_dir);
                assert(front[i] == references[i]);
                let (j, link) = choose|j: int, link: Seq<char>|
                    0 <= j < earlier.len() && #[trigger] earlier[j] == (
                        whole,
                        #[trigger] css_reference_text(kind, link),
                    ) && leads_to_file(link, url, file_path, output_dir);
                assert(edits[j] == (whole, css_reference_text(kind, link)));
            } else {
                relative_links_lead_to_files(url, sheet, output_dir);
                let link = relative_link(url, sheet, file_path, output_dir)->0;
                let j = edits.len() - 1;
                assert(edits[j] == (whole, css_reference_text(kind, link)));
            }
        }
    }
}

/// A page whose links all stay as they are is not edited.
pub proof fn links_that_stay_are_not_edited(
    name: Seq<char>,
    values: Seq<Seq<char>>,
    base: UrlModel,
    file_path: Seq<Seq<char>>,
    output_dir: Seq<Seq<char>>,
)
    requires
        forall|i: int|
            0 <= i < values.len() ==> html_link_stays(
                #[trigger] values[i],
                url_join(base.text, values[i]),
                base,
            ),
    ensures
        attribute_edits(name, values, base, file_path, output_dir).len() == 0,
    decreases values.len(),
{
    if values.len() > 0 {
        let front = values.drop_last();
        assert forall|i: int| 0 <= i < front.len() implies html_link_stays(
            #[trigger] front[i],
            url_join(base.text, front[i]),
            base,
        ) by {
            assert(front[i] == values[i]);
        }
        links_that_stay_are_not_edited(name, front, base, file_path, output_dir);
        let last = values[values.len() - 1];
        assert(html_link_stays(last, url_join(base.text, last), base));
    }
}

/// A style sheet whose references all stay as they are is not edited.
pub proof fn references_that_stay_are_not_edited(
    kind: CssKind,
    references: Seq<(Seq<char>, Seq<char>)>,
    base: UrlModel,
    file_path: Seq<Seq<char>>,
    output_dir: Seq<Seq<char>>,
)
    requires
        forall|i: int|
            0 <= i < references.len() ==> {
                let target = unquote((#[trigger] references[i]).1);
                css_reference_stays(kind, target, url_join(base.text, target), base)
            },
    ensures
        css_edits(kind, references, base, file_path, output_dir).len() == 0,
    decreases references.len(),
{
    if references.len() > 0 {
        let front = references.drop_last();
        assert forall|i: int| 0 <= i < front.len() implies {
            let target = unquote((#[trigger] front[i]).1);
            css_reference_stays(kind, target, url_join(base.text, target), base)
        } by {
            assert(front[i] == references[i]);
        }
        references_that_stay_are_not_edited(kind, front, base, file_path, output_dir);
        let last = unquote(references[references.len() - 1].1);
        assert(css_reference_stays(kind, last, url_join(base.text, last), base));
    }
}

} // verus!
