use wget::paths::{
    calculate_directory_path, file_extension, get_file_path, is_within, is_within_any, join_path,
    path_components, FilePath,
};
use wget::relative::url_to_relative_path;
use wget::weburl::{is_same_domain, UrlHost, WebUrl};

fn url(text: &str) -> WebUrl {
    WebUrl::parse(text).unwrap()
}

fn dir(text: &str) -> FilePath {
    FilePath::relative(text)
}

#[test]
fn urls_are_taken_apart() {
    let u = url("HTTP://User@Example.COM:80/a/../b%20c/?q=1#f");
    assert_eq!(u.text, "http://User@example.com/b%20c/?q=1#f");
    assert_eq!(u.path, "/b%20c/");
    assert_eq!(u.host_text, Some("example.com".to_string()));
    assert!(matches!(u.host, Some(UrlHost::Domain(ref name)) if name == "example.com"));
    let v4 = url("http://127.1/");
    assert!(matches!(v4.host, Some(UrlHost::Ipv4(0x7f000001))));
    assert_eq!(v4.host_text, Some("127.0.0.1".to_string()));
    let v6 = url("http://[::2]/");
    assert!(matches!(v6.host, Some(UrlHost::Ipv6(2))));
    assert_eq!(v6.host_text, Some("[::2]".to_string()));
    let none = url("data:text/plain,x");
    assert!(none.host.is_none());
    assert_eq!(none.host_text, None);
    assert_eq!(none.path, "text/plain,x");
}

#[test]
fn what_is_no_url_is_refused() {
    assert_eq!(WebUrl::parse("no url").unwrap_err(), "relative URL without a base");
    assert_eq!(WebUrl::parse("http://").unwrap_err(), "empty host");
    assert_eq!(WebUrl::parse("http://a:x/").unwrap_err(), "invalid port number");
}

#[test]
fn references_are_joined() {
    let base = url("http://a.com/dir/page.html");
    assert_eq!(base.join("x.png").unwrap().text, "http://a.com/dir/x.png");
    assert_eq!(base.join("/x").unwrap().text, "http://a.com/x");
    assert_eq!(base.join("../../x").unwrap().text, "http://a.com/x");
    assert_eq!(base.join("//b.com").unwrap().text, "http://b.com/");
    assert_eq!(base.join("#top").unwrap().text, "http://a.com/dir/page.html#top");
    assert_eq!(base.join("http://:80").unwrap_err(), "empty host");
}

#[test]
fn domains_are_compared_by_host() {
    assert!(is_same_domain(&url("http://a.com/x"), &url("https://A.com:8080/")));
    assert!(!is_same_domain(&url("http://a.com/"), &url("http://www.a.com/")));
    assert!(!is_same_domain(&url("http://1.2.3.4/"), &url("foo://1.2.3.4/")));
    assert!(is_same_domain(&url("http://[::1]/"), &url("http://[0:0::1]/")));
    assert!(is_same_domain(&url("data:a"), &url("mailto:b")));
}

#[test]
fn files_lie_below_their_directories() {
    let site = dir("a.com");
    for (text, name, path) in [
        ("http://a.com", "index.html", "a.com/index.html"),
        ("http://a.com/", "index.html", "a.com/index.html"),
        ("http://a.com/x.html", "x.html", "a.com/x.html"),
        ("http://a.com/d/x.html?q", "x.html", "a.com/d/x.html"),
        ("http://a.com/d//e/", "index.html", "a.com/d/e/index.html"),
        ("http://a.com/d//x", "x", "a.com/d/x"),
        ("http://a.com///", "index.html", "a.com/index.html"),
    ] {
        let (found_name, found_path) = get_file_path(&url(text), &site);
        assert_eq!(found_name, name);
        assert_eq!(found_path.text(), path);
    }
}

#[test]
fn directories_of_urls() {
    let base = url("http://a.com/start/page.html");
    let here = dir("a.com/here");
    for (text, path) in [
        ("http://a.com/start/page.html", "a.com/here"),
        ("http://a.com/", "a.com/here"),
        ("http://a.com/d/e/", "a.com/here/d/e"),
        ("http://a.com/d//e/x.html", "a.com/here/d/e"),
        ("http://a.com/x.html", "a.com/here"),
    ] {
        let directory = calculate_directory_path(&url(text), &base, &here);
        assert_eq!(directory.text(), path);
        if text != base.text {
            let (_, file) = get_file_path(&url(text), &here);
            assert_eq!(file.parent().unwrap().text(), path);
        }
    }
}

#[test]
fn paths_lie_within_directories() {
    for (path, directory, within) in [
        ("/assets", "/assets", true),
        ("/assets/", "/assets", true),
        ("/assets/a/b.png", "/assets", true),
        ("/assets-list.html", "/assets", false),
        ("/assets2/x", "/assets", false),
        ("/", "/assets", false),
        ("/x/assets/y", "/assets", false),
        ("/assets/x", "/assets/", true),
        ("/assets", "/assets/", true),
        ("/assets-list.html", "/assets/", false),
        ("/x", "assets", false),
        ("/x", "/", true),
        ("/a/b/c", "/a/b", true),
        ("/a/bc", "/a/b", false),
    ] {
        assert_eq!(is_within(path, directory), within, "{} {}", path, directory);
        if within {
            assert!(path_components(path).starts_with(&path_components(directory)));
        }
    }
    let directories = vec!["/css".to_string(), "/assets".to_string()];
    assert!(is_within_any("/assets/x", &directories));
    assert!(!is_within_any("/x", &directories));
    assert!(!is_within_any("/x", &Vec::new()));
}

#[test]
fn paths_of_the_web_hold_no_dot_segments() {
    let base = url("http://a.com/d/p.html");
    for reference in [
        "../../x", "./x", "a/..", "..", "/%2e%2e/x", "/a/%2E/b", "..\\x", "/C:/../x", "a/./../b/.",
        ".\t./x", "//b.com/../y", "//u:p%2F@b.com:81/q;r?a/b#c/d", "https:/../z", "?q=/../", "#/../",
    ] {
        let joined = base.join(reference).unwrap();
        let behind = joined.text.find("://").unwrap() + 3;
        let path = joined.text[behind + joined.text[behind..].find('/').unwrap()..].to_string();
        assert_eq!(joined.path, path.split(|c| c == '?' || c == '#').next().unwrap());
        for component in path_components(&joined.path) {
            assert!(component != "." && component != "..", "{} {}", reference, joined.text);
        }
    }
}

#[test]
fn paths_are_made_of_components() {
    assert_eq!(path_components("//a//b/"), vec!["a", "b"]);
    assert_eq!(path_components(""), Vec::<String>::new());
    assert_eq!(dir("a/b").parent().unwrap().text(), "a");
    assert_eq!(dir("a").parent().unwrap().text(), "");
    assert!(dir("").parent().is_none());
}

#[test]
fn extensions_agree_with_the_standard_library() {
    for name in ["a.html", "a", ".a", "a.", ".a.b", "a.tar.gz", "..", "..a", "...", "a..b"] {
        let expected = std::path::Path::new(name).extension().map(|e| e.to_str().unwrap().to_string());
        assert_eq!(file_extension(name), expected, "{}", name);
    }
}

#[test]
fn joining_agrees_with_the_standard_library() {
    for base in ["", "/", "d", "d/", "d/e"] {
        for rest in ["", "x", "x/y", "/abs", "../x"] {
            let expected = std::path::Path::new(base).join(rest);
            assert_eq!(join_path(base, rest), expected.to_str().unwrap());
        }
    }
}

#[test]
fn links_lead_from_page_to_target() {
    let base = url("http://a.com/");
    let out = dir("a.com");
    for (page, target, link) in [
        ("a.com/index.html", "http://a.com/x/y.html", "x/y.html"),
        ("a.com/d/e/page.html", "http://a.com/x.html", "../../x.html"),
        ("a.com/d/page.html", "http://a.com/d/x.html", "x.html"),
        ("a.com/d/page.html", "http://a.com/d/", "index.html"),
        ("a.com/d/page.html", "http://a.com/", "../index.html"),
        ("a.com/x.html", "http://a.com/", "index.html"),
        ("a.com/x.html", "http://a.com/d/e/", "d/e/index.html"),
        ("a.com/d/e/page.html", "http://a.com/d/f//x", "../f/x"),
        ("elsewhere/page.html", "http://a.com/x", "../a.com/x"),
    ] {
        let found = url_to_relative_path(&url(target), &base, &dir(page), &out);
        assert_eq!(found, Some(link.to_string()), "{} {}", page, target);
        let mut place: Vec<String> = dir(page).parent().unwrap().components;
        for step in path_components(link) {
            if step == ".." {
                place.pop();
            } else {
                place.push(step);
            }
        }
        let (_, wanted) = get_file_path(&url(target), &out);
        assert_eq!(place, wanted.components);
    }
}

#[test]
fn links_to_other_hosts_have_no_path() {
    let base = url("http://a.com/");
    let page = dir("a.com/index.html");
    let out = dir("a.com");
    assert_eq!(url_to_relative_path(&url("http://b.com/"), &base, &page, &out), None);
    assert_eq!(url_to_relative_path(&url("http://a.com/x"), &base, &dir(""), &out), None);
    assert_eq!(url_to_relative_path(&url("http://a.com/x"), &base, &dir("../p.html"), &out), None);
}
