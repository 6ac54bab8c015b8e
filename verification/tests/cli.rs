use wget::cli::{
    choose_command, complete_args, parse_rate_limit, split_comma_separated, trailing_url, Command,
    WgetArgs,
};

fn no_args() -> WgetArgs {
    WgetArgs {
        url: None,
        background: false,
        output_file: None,
        directory: None,
        rate_limit: None,
        input_file: None,
        mirror: false,
        reject: None,
        exclude: None,
        convert_links: false,
    }
}

fn words(list: &[&str]) -> Vec<String> {
    list.iter().map(|w| w.to_string()).collect()
}

#[test]
fn rate_limits_are_read() {
    assert_eq!(parse_rate_limit("200k"), Some(204800));
    assert_eq!(parse_rate_limit("2M"), Some(2097152));
    assert_eq!(parse_rate_limit("2m"), Some(2097152));
    assert_eq!(parse_rate_limit(" 7K\t"), Some(7168));
    assert_eq!(parse_rate_limit("3\u{212a}"), Some(3072));
    assert_eq!(parse_rate_limit("500"), Some(500));
    assert_eq!(parse_rate_limit("+500"), Some(500));
    assert_eq!(parse_rate_limit("0"), Some(0));
    assert_eq!(parse_rate_limit("18446744073709551615"), Some(u64::MAX));
}

#[test]
fn what_is_no_rate_limit_is_none() {
    for text in ["", "k", "M", "abc", "-1", "1.5k", "12kk", "1 k", "+", "+k", "1g", "18446744073709551616"] {
        assert_eq!(parse_rate_limit(text), None, "{}", text);
    }
}

#[test]
fn rate_limits_can_be_too_large() {
    assert_eq!(parse_rate_limit("18014398509481983k"), Some(18446744073709550592));
    assert_eq!(parse_rate_limit("18014398509481984k"), None);
    assert_eq!(parse_rate_limit("18446744073709551615k"), None);
    assert_eq!(parse_rate_limit("17592186044415M"), Some(18446744073708503040));
    assert_eq!(parse_rate_limit("17592186044416M"), None);
}

/// A rate limit read by way of the lower case of the text.
fn rate_by_lower_case(text: &str) -> Option<u64> {
    let lower = text.trim().to_lowercase();
    if lower.ends_with('k') {
        lower[..lower.len() - 1].parse::<u64>().ok().map(|n| n * 1024)
    } else if lower.ends_with('m') {
        lower[..lower.len() - 1].parse::<u64>().ok().map(|n| n * 1024 * 1024)
    } else {
        lower.parse().ok()
    }
}

#[test]
fn every_character_as_unit_or_digit() {
    for n in 0..=0x10ffffu32 {
        if let Some(c) = char::from_u32(n) {
            for text in [format!("1{}", c), format!("{}1", c), format!("{}2k", c)] {
                assert_eq!(parse_rate_limit(&text), rate_by_lower_case(&text), "{:?}", text);
            }
        }
    }
}

#[test]
fn lists_are_split_at_commas() {
    assert_eq!(split_comma_separated("jpg,gif"), vec!["jpg", "gif"]);
    assert_eq!(split_comma_separated(" /assets , /css,"), vec!["/assets", "/css"]);
    assert_eq!(split_comma_separated("a b,\t,c\n"), vec!["a b", "c"]);
    assert_eq!(split_comma_separated(""), Vec::<String>::new());
    assert_eq!(split_comma_separated(" , ,"), Vec::<String>::new());
    assert_eq!(split_comma_separated("\u{3000}x\u{a0}"), vec!["x"]);
}

#[test]
fn the_last_word_may_be_the_url() {
    assert_eq!(trailing_url(&words(&["wget", "http://a/"])), Some("http://a/".to_string()));
    assert_eq!(trailing_url(&words(&["wget", "x", "http://a/"])), Some("http://a/".to_string()));
    assert_eq!(trailing_url(&words(&["wget", "-O", "name"])), None);
    assert_eq!(trailing_url(&words(&["wget", "-B"])), None);
    assert_eq!(trailing_url(&words(&["wget", "a=b"])), None);
    assert_eq!(trailing_url(&words(&["a=b"])), None);
    assert_eq!(trailing_url(&words(&["-x"])), None);
    assert_eq!(trailing_url(&words(&[])), None);
}

#[test]
fn the_program_name_is_no_url() {
    assert_eq!(trailing_url(&words(&["wget"])), None);
    let filled = complete_args(no_args(), &words(&["wget"]));
    assert_eq!(filled.url, None);
    assert!(!filled.background && !filled.mirror && !filled.convert_links);
    assert!(matches!(choose_command(&filled), Command::MissingUrl));
}

#[test]
fn a_missing_url_is_filled_in() {
    let line = words(&["wget", "http://a/"]);
    let filled = complete_args(no_args(), &line);
    assert_eq!(filled.url, Some("http://a/".to_string()));
    let mut given = no_args();
    given.url = Some("http://b/".to_string());
    given.background = true;
    let kept = complete_args(given, &line);
    assert_eq!(kept.url, Some("http://b/".to_string()));
    assert!(kept.background);
}

#[test]
fn mirroring_goes_before_a_list_and_a_list_before_a_url() {
    assert!(matches!(choose_command(&no_args()), Command::MissingUrl));
    let mut args = no_args();
    args.url = Some("http://a/".to_string());
    assert!(matches!(choose_command(&args), Command::Single { url } if url == "http://a/"));
    args.input_file = Some("urls.txt".to_string());
    assert!(matches!(choose_command(&args), Command::Batch { list } if list == "urls.txt"));
    args.mirror = true;
    assert!(matches!(choose_command(&args), Command::Mirror));
}
