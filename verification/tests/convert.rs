use wget::convert::{
    apply_everywhere, apply_in_order, convert_css_links, convert_html_links, convert_links_in_file,
    file_kind, keeps_css_reference, keeps_html_link, CssKind, Edit, FileKind,
};
use wget::paths::FilePath;
use wget::weburl::WebUrl;

fn edit(old: &str, new: &str) -> Edit {
    Edit { old: old.to_string(), new: new.to_string() }
}

fn site() -> (WebUrl, FilePath) {
    (WebUrl::parse("http://a.com/").unwrap(), FilePath::relative("a.com"))
}

#[test]
fn links_of_a_page_become_relative() {
    let (base, out) = site();
    let page = FilePath::relative("a.com/d/p.html");
    let html = r##"<a href="/x.html">x</a> <a href="#top">t</a> <a href="http://b.com/">b</a>
<a href="http://a.com/d/y.html">y</a> <img src="i.png"> <a href='/z'>z</a> href="/x.html""##;
    let expected = r##"<a href="../x.html">x</a> <a href="#top">t</a> <a href="http://b.com/">b</a>
<a href="y.html">y</a> <img src="../i.png"> <a href='/z'>z</a> href="../x.html""##;
    assert_eq!(convert_html_links(html, &base, &page, &out).unwrap(), expected);
}

#[test]
fn a_page_without_links_stays() {
    let (base, out) = site();
    let page = FilePath::relative("a.com/index.html");
    let html = "<p>nothing here</p> <a href=\"#a\">a</a> <a href=\"https://b.com\">b</a>";
    assert_eq!(convert_html_links(html, &base, &page, &out).unwrap(), html);
}

#[test]
fn references_of_a_style_sheet_become_relative() {
    let (base, out) = site();
    let file = FilePath::relative("a.com/css/s.css");
    let css = "@import '/base.css';\n.a { b: url( '/i.png' ) }\n.c { d: url(\"data:x\") }\n.e { f: url('http://b.com/i') }\n.g { h: url('/i.png') }";
    let expected = "@import \"../base.css\";\n.a { b: url(\"../i.png\") }\n.c { d: url(\"data:x\") }\n.e { f: url('http://b.com/i') }\n.g { h: url(\"../i.png\") }";
    assert_eq!(convert_css_links(css, &base, &file, &out), expected);
}

#[test]
fn each_reference_is_rewritten_by_itself() {
    let base = WebUrl::parse("http://h.test/").unwrap();
    let out = FilePath::relative("h.test");
    let file = FilePath::relative("h.test/m.css");
    let css = "a{background:url(/a.png)}b{background:url(/b.png)}";
    let expected = "a{background:url(\"a.png\")}b{background:url(\"b.png\")}";
    assert_eq!(convert_css_links(css, &base, &file, &out), expected);
    let css = ".a { b: url( /x ) } .c { d: url('/y(1)') } .e { f: url(data:z) }";
    let expected = ".a { b: url(\"x\") } .c { d: url(\"y(1)\") } .e { f: url(data:z) }";
    assert_eq!(convert_css_links(css, &base, &file, &out), expected);
}

#[test]
fn only_urls_of_another_host_stay_absolute() {
    let base = WebUrl::parse("http://h.test/docs/").unwrap();
    let out = FilePath::relative("h.test");
    let page = FilePath::relative("h.test/index.html");
    for (html, expected) in [
        ("<link href=\"http://h.test/a.css\">", "<link href=\"a.css\">"),
        ("<a href=\"https://h.test/docs/b\">", "<a href=\"docs/b\">"),
        ("<a href=\"c.html\">", "<a href=\"docs/c.html\">"),
        ("<a href=\"httpd.html\">", "<a href=\"docs/httpd.html\">"),
        ("<a href=\"http://h.test/\">", "<a href=\"index.html\">"),
        ("<a href=\"http://h.test.example/\">", "<a href=\"http://h.test.example/\">"),
        ("<a href=\"//b.com/x\">", "<a href=\"//b.com/x\">"),
        ("<a href=\"mailto:x@h.test\">", "<a href=\"mailto:x@h.test\">"),
        ("<a href=\"#top\">", "<a href=\"#top\">"),
    ] {
        assert_eq!(convert_html_links(html, &base, &page, &out).unwrap(), expected);
    }
    let css = "a{b:url('http://h.test/i.png')} @import 'http://h.test/c.css';";
    let expected = "a{b:url(\"i.png\")} @import \"c.css\";";
    let file = FilePath::relative("h.test/s.css");
    assert_eq!(convert_css_links(css, &base, &file, &out), expected);
}

#[test]
fn links_that_stay() {
    let base = WebUrl::parse("http://a.com/d/").unwrap();
    for (link, html, url, import) in [
        ("#x", true, false, false),
        ("http://b.com/", true, true, true),
        ("http://:80", true, true, true),
        ("mailto:x", true, true, true),
        ("data:x", true, true, true),
        ("httpd.html", false, false, false),
        ("http://a.com/x", false, false, false),
        ("https://a.com/", false, false, false),
        ("/x", false, false, false),
    ] {
        let joined = base.join(link);
        assert_eq!(keeps_html_link(link, &joined, &base), html, "{}", link);
        assert_eq!(keeps_css_reference(CssKind::Url, link, &joined, &base), url, "{}", link);
        assert_eq!(keeps_css_reference(CssKind::Import, link, &joined, &base), import, "{}", link);
    }
    let page = WebUrl::parse("mailto:y").unwrap();
    let joined = WebUrl::parse("data:x");
    assert!(keeps_css_reference(CssKind::Url, "data:x", &joined, &page));
    assert!(!keeps_css_reference(CssKind::Import, "data:x", &joined, &page));
}

#[test]
fn edits_everywhere_and_in_order() {
    let text = "a b a b";
    assert_eq!(apply_everywhere(text, &vec![edit("a", "bb"), edit("b", "c")]), "cc c cc c");
    assert_eq!(apply_in_order(text, &vec![edit("a", "bb"), edit("b", "c")]), "bb c a b");
    assert_eq!(apply_in_order(text, &vec![edit("b", "c"), edit("a", "d"), edit("a", "e")]), "a c d b");
    assert_eq!(apply_in_order(text, &vec![edit("x", "c")]), text);
    assert_eq!(apply_in_order(text, &vec![]), text);
}

#[test]
fn files_are_told_by_their_extension() {
    let (base, out) = site();
    for (name, html, css) in [
        ("a.com/p.html", true, false),
        ("a.com/p.htm", true, false),
        ("a.com/p.HTML", false, false),
        ("a.com/s.css", false, true),
        ("a.com/html", false, false),
        ("a.com/.css", false, false),
        ("a.com/i.png", false, false),
        ("", false, false),
    ] {
        let path = FilePath::relative(name);
        let kind = file_kind(&path);
        assert_eq!(matches!(kind, FileKind::Html), html, "{}", name);
        assert_eq!(matches!(kind, FileKind::Css), css, "{}", name);
        let outcome = convert_links_in_file("<a href=\"/x\">", &base, &path, &out).unwrap();
        assert_eq!(outcome.is_some(), html || css);
    }
    let page = FilePath::relative("a.com/d/p.html");
    assert_eq!(
        convert_links_in_file("<a href=\"/x\">", &base, &page, &out).unwrap(),
        Some("<a href=\"../x\">".to_string())
    );
}

#[test]
fn imports_are_rewritten_behind_references() {
    let (base, out) = site();
    let file = FilePath::relative("a.com/css/s.css");
    let css = "@import \"/a.css\"; b{c:url(/d.png)} @import '/e.css'; f{g:url('/h.png')}";
    let expected = "@import \"../a.css\"; b{c:url(\"../d.png\")} @import \"../e.css\"; f{g:url(\"../h.png\")}";
    assert_eq!(convert_css_links(css, &base, &file, &out), expected);
}

#[test]
fn links_are_rewritten_and_the_rest_is_kept() {
    let base = WebUrl::parse("http://a.com/d/p.html").unwrap();
    let out = FilePath::relative("a.com");
    let page = FilePath::relative("a.com/d/p.html");
    let html = "x<a href=\"/y\">/y</a><a href=\"../y\">y</a><a href=\"q\">q</a><a href=\"/d/q\">q</a><img src=\"/y\">";
    let expected = "x<a href=\"../y\">/y</a><a href=\"../y\">y</a><a href=\"q\">q</a><a href=\"q\">q</a><img src=\"../y\">";
    let once = convert_html_links(html, &base, &page, &out).unwrap();
    assert_eq!(once, expected);
    assert_eq!(convert_html_links(&once, &base, &page, &out).unwrap(), expected);
}
