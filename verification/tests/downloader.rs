use wget::cli::WgetArgs;
use wget::downloader::{
    choose_file_name, choose_save_path, content_size_message, read_url_list, save_path, Transfer,
};
use wget::progress::{draw_bar, format_progress, progress_line, Measures};
use wget::weburl::WebUrl;

fn download_args() -> WgetArgs {
    WgetArgs {
        url: None,
        background: true,
        output_file: None,
        directory: None,
        rate_limit: None,
        input_file: None,
        mirror: false,
        reject: None,
        exclude: None,
        convert_links: false,
    }
}

#[test]
fn url_lists_have_one_on_a_line() {
    let list = "http://a/\r\n\n  http://b/ \n\t\nhttp://c/";
    assert_eq!(read_url_list(list), vec!["http://a/", "http://b/", "http://c/"]);
    let by_lines: Vec<String> =
        list.lines().map(|l| l.trim().to_string()).filter(|l| !l.is_empty()).collect();
    assert_eq!(read_url_list(list), by_lines);
    assert!(read_url_list("\n \n").is_empty());
}

#[test]
fn file_names_come_from_the_url() {
    for (text, name) in [
        ("http://a.com/d/x.zip?v=1", "x.zip"),
        ("http://a.com/", "index.html"),
        ("http://a.com/d/", "index.html"),
        ("http://a.com", "index.html"),
        ("data:x", "index.html"),
    ] {
        let url = WebUrl::parse(text).unwrap();
        assert_eq!(choose_file_name(&url, &None), name);
        assert_eq!(choose_file_name(&url, &Some("mine".to_string())), "mine");
    }
}

#[test]
fn files_are_saved_where_the_user_says() {
    let mut args = download_args();
    assert_eq!(save_path("http://a.com/x.zip", &args).unwrap(), "x.zip");
    assert_eq!(save_path("http://h.test/", &args).unwrap(), "index.html");
    args.directory = Some("/tmp/out".to_string());
    assert_eq!(save_path("http://a.com/x.zip", &args).unwrap(), "/tmp/out/x.zip");
    args.output_file = Some("/abs".to_string());
    assert_eq!(save_path("http://a.com/x.zip", &args).unwrap(), "/abs");
    assert_eq!(save_path("x.zip", &args).unwrap_err().message(), "relative URL without a base");
    assert_eq!(choose_save_path(&Some("d/".to_string()), "n"), "d/n");
    assert_eq!(choose_save_path(&None, "n"), "n");
}

#[test]
fn the_length_is_told_in_full_and_rounded() {
    assert_eq!(content_size_message(2048), "content size: 2048 [~2.00 KB]");
    assert_eq!(content_size_message(0), "content size: 0 [~0 bytes]");
}

#[test]
fn transfers_keep_to_their_limit() {
    let mut args = download_args();
    assert_eq!(Transfer::begin(&args).limit, None);
    args.rate_limit = Some("nothing".to_string());
    assert_eq!(Transfer::begin(&args).limit, None);
    args.rate_limit = Some("18446744073709551615k".to_string());
    assert_eq!(Transfer::begin(&args).limit, None);
    args.rate_limit = Some("1k".to_string());
    let mut transfer = Transfer::begin(&args);
    assert_eq!(transfer.limit, Some(1024));
    assert_eq!(transfer.bytes_ahead(0), None);
    assert!(!transfer.bytes_written(1000));
    assert_eq!(transfer.bytes_ahead(1000), None);
    assert_eq!(transfer.bytes_ahead(400), Some(600));
    assert!(transfer.bytes_written(1048576 - 1000));
    assert_eq!(transfer.downloaded, 1048576);
    transfer.limit = None;
    assert_eq!(transfer.bytes_ahead(0), None);
    transfer.background = false;
    assert!(!transfer.bytes_written(1048576));
}

#[test]
fn bars_are_drawn() {
    assert_eq!(draw_bar(0), format!("[>{}]", " ".repeat(49)));
    assert_eq!(draw_bar(20), format!("[{}>{}]", "=".repeat(20), " ".repeat(29)));
    assert_eq!(draw_bar(49), format!("[{}>]", "=".repeat(49)));
    assert_eq!(draw_bar(50), format!("[{}]", "=".repeat(50)));
    assert_eq!(draw_bar(60), draw_bar(50));
    assert_eq!(draw_bar(usize::MAX), draw_bar(50));
    for filled in 0..=70 {
        assert_eq!(draw_bar(filled).chars().count(), 52);
    }
}

#[test]
fn progress_is_told_in_a_line() {
    let mut measures = Measures {
        filled_width: 25,
        percent: "50.00".to_string(),
        complete: false,
        speed: 1500,
        eta_secs: 7,
    };
    let bar = draw_bar(25);
    assert_eq!(
        format_progress(1500, 1500000, &measures),
        format!("1.46 KiB / 1.43 MiB {} 50.00%  1.46 KiB/s 7s", bar)
    );
    measures.complete = true;
    measures.eta_secs = 0;
    assert_eq!(
        progress_line("a", "b", "c", &measures),
        format!("a / b {} 50.00% ✓ c/s 0s", bar)
    );
}

#[test]
fn progress_of_an_unknown_length() {
    let measures = Measures {
        filled_width: usize::MAX,
        percent: "0.00".to_string(),
        complete: false,
        speed: 0,
        eta_secs: 0,
    };
    assert_eq!(
        format_progress(1048576, 0, &measures),
        format!("1.00 MiB / 0 B [{}] 0.00%  0 B/s 0s", "=".repeat(50))
    );
}

/// The number of bytes as it is shown at the start of a line.
fn shown(bytes: u64) -> String {
    let measures = Measures {
        filled_width: 0,
        percent: "0.00".to_string(),
        complete: false,
        speed: 0,
        eta_secs: 0,
    };
    let line = format_progress(bytes, 0, &measures);
    line.split(" / ").next().unwrap().to_string()
}

#[test]
fn bytes_are_shown_in_binary_units() {
    let units = ["KiB", "MiB", "GiB", "TiB", "PiB", "EiB"];
    assert_eq!(shown(0), "0 B");
    assert_eq!(shown(1023), "1023 B");
    assert_eq!(shown(1024), "1.00 KiB");
    assert_eq!(shown(1152), "1.12 KiB");
    assert_eq!(shown(1408), "1.38 KiB");
    assert_eq!(shown((1 << 20) - 1), "1024.00 KiB");
    assert_eq!(shown((1 << 60) - 1), "1.00 EiB");
    assert_eq!(shown(u64::MAX), "16.00 EiB");
    let mut seed: u64 = 88172645463325252;
    for round in 0..20000u32 {
        seed ^= seed << 13;
        seed ^= seed >> 7;
        seed ^= seed << 17;
        let bytes = (seed >> (round % 54)).max(1024);
        let mut number = bytes as f64;
        let mut unit = 0;
        while number >= 1024.0 {
            number /= 1024.0;
            unit += 1;
        }
        assert_eq!(shown(bytes), format!("{:.2} {}", number, units[unit - 1]));
    }
}
