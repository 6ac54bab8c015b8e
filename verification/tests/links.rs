use wget::links::{
    extract_links_from_tag, extract_urls_from_css, page_fits, present_values, push_resolved,
    PAGE_LIMIT,
};
use wget::mirror::{find_page_links, read_links};
use wget::weburl::WebUrl;

fn texts(urls: &[WebUrl]) -> Vec<&str> {
    urls.iter().map(|u| u.text.as_str()).collect()
}

const PAGE: &str = r#"<html><head><link rel="stylesheet" href="s.css"><script src="/j.js"></script>
</head><body><a href="x.html">x</a><a name="n">no link</a><img src="i.png">
<a href="http://:80">bad</a><A HREF='//b.com/y'>y</A></body></html>"#;

#[test]
fn links_of_one_tag() {
    let base = WebUrl::parse("http://a.com/d/p.html").unwrap();
    let mut urls = Vec::new();
    extract_links_from_tag(PAGE, "a", "href", &mut urls, &base).unwrap();
    assert_eq!(texts(&urls), vec!["http://a.com/d/x.html", "http://b.com/y"]);
    extract_links_from_tag(PAGE, "img", "src", &mut urls, &base).unwrap();
    assert_eq!(urls.len(), 3);
    assert_eq!(urls[2].text, "http://a.com/d/i.png");
}

#[test]
fn a_tag_that_is_no_selector() {
    let base = WebUrl::parse("http://a.com/").unwrap();
    let mut urls = Vec::new();
    let error = extract_links_from_tag(PAGE, "<", "href", &mut urls, &base).unwrap_err();
    assert!(error.message().starts_with("Invalid selector: "));
    assert!(error.message().len() > "Invalid selector: ".len());
    assert!(urls.is_empty());
}

#[test]
fn tags_may_be_combined() {
    let base = WebUrl::parse("http://a.com/").unwrap();
    let page = "<ul><li><a href='1'></a><li class='x'><b><a href='2'></a></b></ul><a href='3'></a>";
    for (tag, found) in [
        ("ul a", vec!["http://a.com/1", "http://a.com/2"]),
        ("li > a", vec!["http://a.com/1"]),
        ("ul + a", vec!["http://a.com/3"]),
        ("li:not(.x) a", vec!["http://a.com/1"]),
        ("li:nth-child(2) a", vec!["http://a.com/2"]),
        (":is(b, body) > a", vec!["http://a.com/2", "http://a.com/3"]),
    ] {
        let mut urls = Vec::new();
        extract_links_from_tag(page, tag, "href", &mut urls, &base).unwrap();
        assert_eq!(texts(&urls), found, "{}", tag);
    }
    let mut urls = Vec::new();
    assert!(extract_links_from_tag(page, "li >", "href", &mut urls, &base).is_err());
    assert!(extract_links_from_tag(page, "li:not(", "href", &mut urls, &base).is_err());
    assert!(urls.is_empty());
}

#[test]
fn a_page_can_be_too_large() {
    assert!(page_fits(PAGE));
    let base = WebUrl::parse("http://a.com/").unwrap();
    let bytes = vec![0xffu8; PAGE_LIMIT / 3 + 1];
    let error = read_links(&base, &None, &bytes).unwrap_err();
    assert_eq!(error.message(), "The page is too large");
    let plain = Some("text/plain".to_string());
    assert!(read_links(&base, &plain, &bytes[..9].to_vec()).unwrap().is_empty());
    assert_eq!(read_links(&base, &None, &b"<a href=x>".to_vec()).unwrap().len(), 1);
}

#[test]
fn links_of_a_page_come_tag_by_tag() {
    let base = WebUrl::parse("http://a.com/d/p.html").unwrap();
    let urls = find_page_links(PAGE, &base).unwrap();
    assert_eq!(
        texts(&urls),
        vec![
            "http://a.com/d/x.html",
            "http://b.com/y",
            "http://a.com/d/s.css",
            "http://a.com/d/i.png",
            "http://a.com/j.js",
        ]
    );
}

#[test]
fn references_of_a_style_sheet() {
    let base = WebUrl::parse("http://a.com/css/s.css").unwrap();
    let css = "@import 'first.css';\n.a { background: url( \"../i.png\" ) }\n.b { background: url('j.png') }";
    let urls = extract_urls_from_css(css, &base);
    assert_eq!(
        texts(&urls),
        vec!["http://a.com/i.png", "http://a.com/css/j.png", "http://a.com/css/first.css"]
    );
    assert!(extract_urls_from_css("body { color: red }", &base).is_empty());
}

#[test]
fn each_reference_without_quotes_ends_at_its_bracket() {
    let base = WebUrl::parse("http://h.test/").unwrap();
    let css = "a{background:url(a.png)}b{background:url(b.png)}";
    assert_eq!(
        texts(&extract_urls_from_css(css, &base)),
        vec!["http://h.test/a.png", "http://h.test/b.png"]
    );
    let css = "a{b:url( c.png )} d{e:url('f(1).png')} g{h:url(\"i).png\")} j{k:url(l)}";
    assert_eq!(
        texts(&extract_urls_from_css(css, &base)),
        vec![
            "http://h.test/c.png",
            "http://h.test/f(1).png",
            "http://h.test/i).png",
            "http://h.test/l",
        ]
    );
    let css = "a{b:url(\"c.png)} d{e:url(f.png')} @import \"g.css\";";
    assert_eq!(
        texts(&extract_urls_from_css(css, &base)),
        vec!["http://h.test/c.png", "http://h.test/f.png", "http://h.test/g.css"]
    );
}

#[test]
fn only_urls_are_kept() {
    let mut urls = Vec::new();
    push_resolved(&mut urls, WebUrl::parse("http://a.com/"));
    push_resolved(&mut urls, WebUrl::parse("nothing"));
    assert_eq!(texts(&urls), vec!["http://a.com/"]);
    let values = vec![Some("a".to_string()), None, Some("b".to_string())];
    assert_eq!(present_values(&values), vec!["a", "b"]);
}
