use wget::logger::{format_file_size, GB, KB, MB};

/// The same text, computed in floating point.
fn in_floats(size: u64) -> String {
    if size >= GB {
        format!("{:.2} GB", size as f64 / GB as f64)
    } else if size >= MB {
        format!("{:.2} MB", size as f64 / MB as f64)
    } else if size >= KB {
        format!("{:.2} KB", size as f64 / KB as f64)
    } else {
        format!("{} bytes", size)
    }
}

#[test]
fn sizes_are_shown_in_the_largest_unit() {
    assert_eq!(format_file_size(0), "0 bytes");
    assert_eq!(format_file_size(1023), "1023 bytes");
    assert_eq!(format_file_size(1024), "1.00 KB");
    assert_eq!(format_file_size(1536), "1.50 KB");
    assert_eq!(format_file_size(MB - 1), "1024.00 KB");
    assert_eq!(format_file_size(MB), "1.00 MB");
    assert_eq!(format_file_size(GB - 1), "1024.00 MB");
    assert_eq!(format_file_size(GB), "1.00 GB");
    assert_eq!(format_file_size(u64::MAX), "17179869184.00 GB");
}

#[test]
fn ties_go_to_the_even_digit() {
    assert_eq!(format_file_size(1152), "1.12 KB");
    assert_eq!(format_file_size(1408), "1.38 KB");
}

#[test]
fn sizes_agree_with_floating_point() {
    let mut size: u64 = 0;
    while size < 3 * MB {
        assert_eq!(format_file_size(size), in_floats(size));
        size += 64;
    }
    let mut seed: u64 = 88172645463325252;
    let mut round: u32 = 0;
    while round < 200000 {
        seed ^= seed << 13;
        seed ^= seed >> 7;
        seed ^= seed << 17;
        let wide = seed >> (round % 54);
        assert_eq!(format_file_size(wide), in_floats(wide));
        let tie = (seed >> 30) | 1 << 62;
        assert_eq!(format_file_size(tie), in_floats(tie));
        round += 1;
    }
}

/// The number that is shown, in hundredths of a byte.
fn shown_value(size: u64) -> u128 {
    let text = format_file_size(size);
    let (number, unit) = text.split_once(' ').unwrap();
    let unit = match unit {
        "bytes" => return number.parse::<u128>().unwrap() * 100,
        "KB" => KB,
        "MB" => MB,
        "GB" => GB,
        other => panic!("{}", other),
    };
    let (whole, part) = number.split_once('.').unwrap();
    let hundredths = whole.parse::<u128>().unwrap() * 100 + part.parse::<u128>().unwrap();
    hundredths * unit as u128
}

#[test]
fn larger_sizes_are_not_shown_smaller() {
    for middle in [KB, MB, GB, 5 * KB, 1 << 53, 1 << 54, 1 << 63, u64::MAX - 5000] {
        for size in middle - 1000..middle + 4000 {
            assert!(shown_value(size) <= shown_value(size + 1), "{}", size);
        }
    }
    assert_eq!(shown_value(MB - 1), shown_value(MB));
}
