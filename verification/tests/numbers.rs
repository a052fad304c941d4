use minara::numbers::{decimal_text, format_bytes, parse_number, NumberFault};
use minara::order::{sort_stable, sorted_once, text_is_at_most};

#[test]
fn numbers_parse_as_in_the_standard_library() {
    let samples = [
        "0", "7", "007", "+5", "-5", "", "+", "-", "12x", "x12", " 1", "1 ",
        "18446744073709551615", "18446744073709551616", "99999999999999999999x", "+-1",
    ];
    for s in samples {
        match (parse_number(s, u64::MAX), s.parse::<u64>()) {
            (Ok(a), Ok(b)) => assert_eq!(a, b, "{}", s),
            (Err(a), Err(b)) => assert_eq!(a.message(), b.to_string(), "{}", s),
            (a, b) => panic!("{}: {:?} {:?}", s, a, b),
        }
        match (parse_number(s, 255), s.parse::<u8>()) {
            (Ok(a), Ok(b)) => assert_eq!(a, b as u64, "{}", s),
            (Err(a), Err(b)) => assert_eq!(a.message(), b.to_string(), "{}", s),
            (a, b) => panic!("{}: {:?} {:?}", s, a, b),
        }
    }
}

#[test]
fn each_fault_of_a_number() {
    assert_eq!(parse_number("", 9), Err(NumberFault::Empty));
    assert_eq!(parse_number("1a", 99), Err(NumberFault::InvalidDigit));
    assert_eq!(parse_number("100", 99), Err(NumberFault::TooLarge));
    assert_eq!(parse_number("99", 99), Ok(99));
}

#[test]
fn decimals_read_back() {
    for n in [0u64, 9, 10, 1024, 4_294_967_296, u64::MAX] {
        assert_eq!(decimal_text(n), n.to_string());
        assert_eq!(parse_number(&decimal_text(n), u64::MAX), Ok(n));
    }
}

fn float_size(size: u64) -> String {
    let kb = 1024.0f64;
    let mb = kb * 1024.0;
    let gb = mb * 1024.0;
    let f = size as f64;
    if f < kb {
        format!("{} B", size)
    } else if f < mb {
        format!("{:.1} KB", f / kb)
    } else if f < gb {
        format!("{:.1} MB", f / mb)
    } else {
        format!("{:.1} GB", f / gb)
    }
}

#[test]
fn sizes_as_a_person_reads_them() {
    assert_eq!(format_bytes(0), "0 B");
    assert_eq!(format_bytes(1023), "1023 B");
    assert_eq!(format_bytes(1024), "1.0 KB");
    assert_eq!(format_bytes(1536), "1.5 KB");
    assert_eq!(format_bytes(1024 * 1024), "1.0 MB");
    assert_eq!(format_bytes(5 * 1024 * 1024 * 1024 + 512 * 1024 * 1024), "5.5 GB");
}

#[test]
fn sizes_agree_with_floating_point() {
    let mut seed: u64 = 88172645463325252;
    let mut i = 0;
    while i < 20000 {
        seed ^= seed << 13;
        seed ^= seed >> 7;
        seed ^= seed << 17;
        let size = seed >> (i % 64);
        assert_eq!(format_bytes(size), float_size(size), "{}", size);
        i += 1;
    }
    for size in [1075u64, 1126, 1127, 1177, 1178, 104857, 104858, 1048575, 1073741823, u64::MAX] {
        assert_eq!(format_bytes(size), float_size(size), "{}", size);
    }
    let mut size = 1024u64;
    while size < 6000 {
        assert_eq!(format_bytes(size), float_size(size), "{}", size);
        size += 1;
    }
}

#[test]
fn sorting_is_stable_and_complete() {
    let list: Vec<String> = ["b", "", "ab", "a", "b", "é", "z"].iter().map(|s| s.to_string()).collect();
    let mut expected = list.clone();
    expected.sort();
    let sorted = sort_stable(list);
    assert_eq!(sorted, expected);
    assert_eq!(sort_stable(sorted), expected);
    assert_eq!(sorted_once(vec![5, 3, 5, -1, 3]), vec![-1, 3, 5]);
    assert_eq!(sorted_once(Vec::new()), Vec::<i32>::new());
}

#[test]
fn texts_are_ordered_as_in_the_standard_library() {
    let list = ["", "a", "ab", "b", "B", "é", "\u{10000}", "\u{ffff}", "z"];
    for a in list {
        for b in list {
            assert_eq!(text_is_at_most(a, b), a <= b, "{:?} {:?}", a, b);
        }
    }
}
