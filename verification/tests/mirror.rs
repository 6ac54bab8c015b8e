use wget::cli::WgetArgs;
use wget::convert::{convert_html_links, convert_links_in_file, FileKind};
use wget::mirror::{classify_content, find_links, Crawl, Job, Step};
use wget::paths::{path_components, FilePath};
use wget::relative::url_to_relative_path;
use wget::weburl::WebUrl;

fn args_for(url: Option<&str>) -> WgetArgs {
    WgetArgs {
        url: url.map(|u| u.to_string()),
        background: false,
        output_file: None,
        directory: None,
        rate_limit: None,
        input_file: None,
        mirror: true,
        reject: Some("jpg, gif".to_string()),
        exclude: Some("/private,/tmp".to_string()),
        convert_links: false,
    }
}

fn next_job(crawl: &mut Crawl) -> Job {
    match crawl.next_step() {
        Step::Fetch { job } => job,
        other => panic!("{:?}", other),
    }
}

fn html() -> Option<String> {
    Some("text/html; charset=utf-8".to_string())
}

#[test]
fn a_crawl_begins_with_its_url() {
    let mut crawl = Crawl::start(&args_for(Some("http://a.com/d/p.html"))).unwrap();
    assert_eq!(crawl.base_url().text, "http://a.com/d/p.html");
    assert_eq!(crawl.output_dir().text(), "a.com");
    assert_eq!(*crawl.reject_patterns(), vec!["jpg", "gif"]);
    assert_eq!(*crawl.exclude_paths(), vec!["/private", "/tmp"]);
    assert_eq!(crawl.waiting(), 1);
    assert!(crawl.is_unfinished(0));
    let job = next_job(&mut crawl);
    assert_eq!(job.url.text, "http://a.com/d/p.html");
    assert_eq!(crawl.target(&job).unwrap().text(), "a.com/d/p.html");
    assert!(matches!(crawl.next_step(), Step::Idle));
    assert!(!crawl.is_unfinished(0));
    assert!(crawl.is_unfinished(1));
    assert!(crawl.must_wait(1));
    assert!(!crawl.must_wait(0));
}

#[test]
fn what_cannot_be_mirrored() {
    let missing = Crawl::start(&args_for(None)).err().unwrap();
    assert_eq!(missing.message(), "URL is required for mirroring");
    let invalid = Crawl::start(&args_for(Some("a.com"))).err().unwrap();
    assert_eq!(invalid.message(), "relative URL without a base");
    let no_host = Crawl::start(&args_for(Some("data:x"))).err().unwrap();
    assert_eq!(no_host.message(), "Invalid URL: no host found");
}

#[test]
fn links_are_followed_on_the_host_only_and_once() {
    let mut crawl = Crawl::start(&args_for(Some("http://a.com/"))).unwrap();
    let job = next_job(&mut crawl);
    let page = b"<a href='/d/x.html'></a><a href='http://b.com/'></a><a href='/'></a>
        <a href='/private/s'></a><a href='/d/x.html'></a><img src='/i.jpg'>";
    crawl.page_saved(&job, &html(), &page.to_vec()).unwrap();
    assert_eq!(crawl.waiting(), 3);
    assert_eq!(crawl.downloaded_files().len(), 1);
    assert_eq!(crawl.downloaded_files()[0].path.text(), "a.com/index.html");
    assert_eq!(crawl.downloaded_files()[0].url.text, "http://a.com/");
    let first = next_job(&mut crawl);
    assert_eq!(first.url.text, "http://a.com/d/x.html");
    assert_eq!(crawl.target(&first).unwrap().text(), "a.com/d/x.html");
    assert!(matches!(
        crawl.next_step(),
        Step::AlreadyVisited { url } if url == "http://a.com/d/x.html"
    ));
    let image = next_job(&mut crawl);
    assert!(crawl.target(&image).is_none());
    assert!(matches!(crawl.next_step(), Step::Idle));
}

#[test]
fn an_excluded_start_is_not_fetched() {
    let mut crawl = Crawl::start(&args_for(Some("http://a.com/private/x"))).unwrap();
    assert!(matches!(crawl.next_step(), Step::Excluded { path } if path == "/private/x"));
    assert!(matches!(crawl.next_step(), Step::Idle));
}

#[test]
fn style_sheets_and_other_files() {
    let mut crawl = Crawl::start(&args_for(Some("http://a.com/s.css"))).unwrap();
    let job = next_job(&mut crawl);
    let css = b"@import 'b.css'; .x { y: url('/i.png') }".to_vec();
    crawl.page_saved(&job, &Some("text/css".to_string()), &css).unwrap();
    assert_eq!(crawl.waiting(), 2);
    crawl.page_saved(&job, &Some("text/plain".to_string()), &css).unwrap();
    assert_eq!(crawl.waiting(), 2);
    assert_eq!(crawl.downloaded_files().len(), 2);
    assert_eq!(next_job(&mut crawl).url.text, "http://a.com/i.png");
    assert_eq!(next_job(&mut crawl).url.text, "http://a.com/b.css");
}

#[test]
fn bytes_that_are_no_text_are_replaced() {
    let mut crawl = Crawl::start(&args_for(Some("http://a.com/"))).unwrap();
    let job = next_job(&mut crawl);
    let page = b"<a href='/x\xff'></a><a href='/\xc3\xa9'></a>".to_vec();
    crawl.page_saved(&job, &None, &page).unwrap();
    assert_eq!(next_job(&mut crawl).url.text, "http://a.com/x%EF%BF%BD");
    assert_eq!(next_job(&mut crawl).url.text, "http://a.com/%C3%A9");
}

#[test]
fn content_types() {
    assert!(matches!(classify_content(&None), FileKind::Html));
    assert!(matches!(classify_content(&html()), FileKind::Html));
    assert!(matches!(classify_content(&Some("text/css".to_string())), FileKind::Css));
    assert!(matches!(classify_content(&Some("TEXT/HTML".to_string())), FileKind::Other));
    assert!(matches!(classify_content(&Some(String::new())), FileKind::Other));
    let base = WebUrl::parse("http://a.com/").unwrap();
    assert!(find_links(FileKind::Other, "<a href='x'>", &base).unwrap().is_empty());
    assert_eq!(find_links(FileKind::Html, "<a href='x'>", &base).unwrap().len(), 1);
}

#[test]
fn a_whole_crawl_fetches_each_url_once_and_stays_in_its_directory() {
    let mut crawl = Crawl::start(&args_for(Some("http://a.com/"))).unwrap();
    let page = b"<a href='x/'></a><a href='/y'></a><a href='/tmp/z'></a><a href='http://c/'></a>";
    let mut fetched: Vec<String> = Vec::new();
    while crawl.is_unfinished(0) && fetched.len() < 50 {
        if let Step::Fetch { job } = crawl.next_step() {
            assert!(!fetched.contains(&job.url.text));
            assert_eq!(job.url.host_text, Some("a.com".to_string()));
            assert!(!job.url.path.starts_with("/tmp"));
            fetched.push(job.url.text.clone());
            if fetched.len() < 8 {
                crawl.page_saved(&job, &html(), &page.to_vec()).unwrap();
            }
        }
    }
    assert!(fetched.len() >= 8);
    for file in crawl.downloaded_files() {
        assert_eq!(file.path.components[0], "a.com");
        assert!(file.path.components.len() > 1);
        assert!(!file.path.components.contains(&"..".to_string()));
    }
}

#[test]
fn a_site_of_three_pages_takes_three_requests() {
    let mut crawl = Crawl::start(&args_for(Some("http://a.com/1"))).unwrap();
    let page = b"<a href='/1'></a><a href='/2'></a><a href='/3'></a><a href='/2'></a>";
    let mut requests = 0;
    while crawl.is_unfinished(0) {
        if let Step::Fetch { job } = crawl.next_step() {
            requests += 1;
            crawl.page_saved(&job, &html(), &page.to_vec()).unwrap();
        }
    }
    assert_eq!(requests, 3);
    assert_eq!(crawl.downloaded_files().len(), 3);
}

#[test]
fn empty_filters_filter_nothing() {
    let mut args = args_for(Some("http://a.com/x.html"));
    args.reject = Some(" , ".to_string());
    args.exclude = Some(",".to_string());
    let mut crawl = Crawl::start(&args).unwrap();
    assert!(crawl.reject_patterns().is_empty());
    let job = next_job(&mut crawl);
    assert_eq!(crawl.target(&job).unwrap().text(), "a.com/x.html");
}

#[test]
fn links_of_the_start_page_lead_to_the_files_beside_it() {
    let mut crawl = Crawl::start(&args_for(Some("http://a.com/"))).unwrap();
    let job = next_job(&mut crawl);
    let page = crawl.target(&job).unwrap();
    let html_page = "<a href=\"http://a.com/x.html\">x</a>";
    crawl.page_saved(&job, &html(), &html_page.as_bytes().to_vec()).unwrap();
    let linked = next_job(&mut crawl);
    let file = crawl.target(&linked).unwrap();
    assert_eq!(file.text(), "a.com/x.html");
    let base = crawl.base_url();
    let out = crawl.output_dir();
    assert_eq!(
        convert_html_links(html_page, base, &page, out).unwrap(),
        "<a href=\"x.html\">x</a>"
    );
    assert_eq!(
        url_to_relative_path(&job.url, base, &FilePath::relative("a.com/d/p.html"), out),
        Some("../index.html".to_string())
    );
}

#[test]
fn links_are_added_by_hand() {
    let mut crawl = Crawl::start(&args_for(Some("http://a.com/"))).unwrap();
    let links = vec![
        WebUrl::parse("http://a.com/").unwrap(),
        WebUrl::parse("https://a.com/q/").unwrap(),
        WebUrl::parse("http://b.com/").unwrap(),
    ];
    crawl.add_links(&links);
    assert_eq!(crawl.waiting(), 3);
    next_job(&mut crawl);
    assert!(matches!(crawl.next_step(), Step::AlreadyVisited { .. }));
    assert_eq!(next_job(&mut crawl).url.text, "https://a.com/q/");
}

#[test]
fn excluded_directories_are_not_prefixes() {
    let mut args = args_for(Some("http://h.test/assets-list.html"));
    args.exclude = Some("/assets".to_string());
    let mut crawl = Crawl::start(&args).unwrap();
    let job = next_job(&mut crawl);
    assert_eq!(crawl.target(&job).unwrap().text(), "h.test/assets-list.html");
    let page = b"<a href='/assets/x'></a><a href='/assets'></a><a href='/assets.html'></a>";
    crawl.page_saved(&job, &html(), &page.to_vec()).unwrap();
    assert_eq!(crawl.waiting(), 1);
    assert_eq!(next_job(&mut crawl).url.text, "http://h.test/assets.html");
}

/// The pages of a small site, by URL.
fn site_page(url: &str) -> &'static str {
    match url {
        "http://h.test/" => "<link href=\"/css/a.css\"><a href=\"d/p.html\">p</a>",
        "http://h.test/d/p.html" => {
            "<a href=\"q.html\">q</a><a href=\"/\">top</a><a href=\"../e/\">e</a>"
        }
        "http://h.test/d/q.html" => "<a href=\"http://h.test/d/p.html\">p</a>",
        "http://h.test/e/" => "<a href=\"/d/q.html\">q</a><a href=\"http://b.test/\">b</a>",
        "http://h.test/css/a.css" => "b{c:url(i.png)}",
        "http://h.test/css/i.png" => "",
        other => panic!("{}", other),
    }
}

#[test]
fn nothing_is_left_behind_and_links_lead_to_files() {
    let mut args = args_for(Some("http://h.test/"));
    args.convert_links = true;
    let mut crawl = Crawl::start(&args).unwrap();
    let mut fetched: Vec<String> = Vec::new();
    while crawl.is_unfinished(0) {
        if let Step::Fetch { job } = crawl.next_step() {
            let body = site_page(&job.url.text).as_bytes().to_vec();
            let kind = if job.url.path.ends_with(".css") {
                Some("text/css".to_string())
            } else if job.url.path.ends_with(".png") {
                Some("image/png".to_string())
            } else {
                html()
            };
            crawl.page_saved(&job, &kind, &body).unwrap();
            fetched.push(job.url.text);
        }
    }
    fetched.sort();
    assert_eq!(
        fetched,
        vec![
            "http://h.test/",
            "http://h.test/css/a.css",
            "http://h.test/css/i.png",
            "http://h.test/d/p.html",
            "http://h.test/d/q.html",
            "http://h.test/e/",
        ]
    );
    let files: Vec<String> = crawl.downloaded_files().iter().map(|f| f.path.text()).collect();
    let out = crawl.output_dir();
    for file in crawl.downloaded_files() {
        let content = site_page(&file.url.text);
        let converted = convert_links_in_file(content, &file.url, &file.path, out).unwrap();
        let expected = match file.path.text().as_str() {
            "h.test/index.html" => Some("<link href=\"css/a.css\"><a href=\"d/p.html\">p</a>"),
            "h.test/d/p.html" => Some(
                "<a href=\"q.html\">q</a><a href=\"../index.html\">top</a><a href=\"../e/index.html\">e</a>",
            ),
            "h.test/d/q.html" => Some("<a href=\"p.html\">p</a>"),
            "h.test/e/index.html" => {
                Some("<a href=\"../d/q.html\">q</a><a href=\"http://b.test/\">b</a>")
            }
            "h.test/css/a.css" => Some("b{c:url(\"i.png\")}"),
            _ => None,
        };
        assert_eq!(converted, expected.map(|t| t.to_string()));
        for link in find_links(FileKind::Html, content, &file.url).unwrap() {
            if let Some(path) = url_to_relative_path(&link, &file.url, &file.path, out) {
                let mut place = file.path.parent().unwrap().components;
                for step in path_components(&path) {
                    if step == ".." {
                        place.pop();
                    } else {
                        place.push(step);
                    }
                }
                assert!(files.contains(&place.join("/")), "{}", path);
            }
        }
    }
}
