use servio::list::{
    escape, folder_at, readable_size, seconds_since_1970, utc_minute, written_at, SinceEpoch,
};
use servio::percent::in_a_link;
use std::time::{Duration, SystemTime, UNIX_EPOCH};

/// The parts of a moment the library reads, as the system gives them.
fn since(time: SystemTime) -> SinceEpoch {
    match time.duration_since(UNIX_EPOCH) {
        Ok(after) => SinceEpoch::After {
            seconds: after.as_secs(),
            nanos: after.subsec_nanos(),
        },
        Err(before) => SinceEpoch::Before {
            seconds: before.duration().as_secs(),
            nanos: before.duration().subsec_nanos(),
        },
    }
}

#[test]
fn a_name_on_the_page_stays_text() {
    assert_eq!(
        escape(r#"<a href="x">'&'</a>"#),
        "&lt;a href=&quot;x&quot;&gt;&#39;&amp;&#39;&lt;/a&gt;"
    );
}

#[test]
fn sizes_read_as_a_person_would_say_them() {
    assert_eq!(readable_size(0), "0 B");
    assert_eq!(readable_size(1023), "1023 B");
    assert_eq!(readable_size(1024), "1.0 KB");
    assert_eq!(readable_size(1536), "1.5 KB");
    assert_eq!(readable_size(1024 * 1024 - 1), "1.0 MB");
    assert_eq!(readable_size(5 * 1024 * 1024 * 1024), "5.0 GB");
}

#[test]
fn a_time_before_1970_falls_in_the_second_before_it() {
    let before = |millis| since(UNIX_EPOCH - Duration::from_millis(millis));
    assert_eq!(seconds_since_1970(before(500)), -1);
    assert_eq!(seconds_since_1970(before(1_000)), -1);
    assert_eq!(seconds_since_1970(before(60_500)), -61);
    assert_eq!(
        seconds_since_1970(since(UNIX_EPOCH + Duration::from_millis(1_500))),
        1
    );
    assert_eq!(utc_minute(seconds_since_1970(before(500))).1, "23:59");
}

#[test]
fn times_are_written_in_utc_to_the_minute() {
    for (seconds, date, minute) in [
        (0, "1970-01-01", "00:00"),
        (951_868_740, "2000-02-29", "23:59"),
        (1_789_397_460, "2026-09-14", "14:51"),
        (-60, "1969-12-31", "23:59"),
    ] {
        assert_eq!(
            utc_minute(seconds),
            (date.to_string(), minute.to_string()),
            "{seconds}"
        );
    }
}

/// What the size was written as with `f64` arithmetic.
fn sized_with_floats(bytes: u64) -> String {
    const UNITS: [&str; 4] = ["KB", "MB", "GB", "TB"];
    if bytes < 1024 {
        return format!("{bytes} B");
    }
    let mut size = bytes as f64 / 1024.0;
    let mut unit = 0;
    while size >= 1023.95 && unit < UNITS.len() - 1 {
        size /= 1024.0;
        unit += 1;
    }
    format!("{size:.1} {}", UNITS[unit])
}

#[test]
fn sizes_match_what_floating_point_writes() {
    let mut cases: Vec<u64> = vec![
        1024, 1280, 1331, 1332, 2560, 1048524, 1048525, 1048575, 1048576, 1_073_741_823,
        (1 << 53) - 1, 1 << 53, (1 << 53) + 1, (1 << 53) + 3, u64::MAX, u64::MAX - 1,
        1 << 63, (1 << 40) * 1023, 1_099_511_627_775, 1_125_899_906_842_624,
    ];
    let mut seed: u64 = 0x9E37_79B9_7F4A_7C15;
    for shift in 10..64 {
        for _ in 0..200 {
            seed ^= seed << 13;
            seed ^= seed >> 7;
            seed ^= seed << 17;
            cases.push(seed >> (64 - shift));
        }
    }
    // Exact halves of a tenth of a unit.
    for k in 0..4000u64 {
        cases.push(1024 * k + 512 / 10 * 10);
        cases.push(k * 1024 * 5 / 10 + 1024);
        cases.push(128 * k + 1024);
    }
    for bytes in cases {
        assert_eq!(readable_size(bytes), sized_with_floats(bytes), "{bytes}");
    }
}

#[test]
fn a_time_tag_says_the_minute_twice() {
    let tag = written_at(SinceEpoch::After { seconds: 1_789_397_460, nanos: 7 });
    assert_eq!(
        tag,
        r#"<time datetime="2026-09-14T14:51Z">2026-09-14 14:51 UTC</time>"#
    );
}

#[test]
fn far_years_are_written_whole_and_signed() {
    assert_eq!(utc_minute(-62_167_219_200).0, "0000-01-01");
    assert_eq!(utc_minute(-62_167_219_201).0, "-001-12-31");
    assert_eq!(utc_minute(253_402_300_799), ("9999-12-31".to_string(), "23:59".to_string()));
    assert_eq!(utc_minute(253_402_300_800).0, "10000-01-01");
    let _ = utc_minute(i64::MAX);
    let _ = utc_minute(i64::MIN);
}

#[test]
fn an_address_names_a_folder_only_inside_the_served_directory() {
    let root = "/site";

    assert_eq!(folder_at(root, "/").as_deref(), Some("/site"));
    assert_eq!(folder_at(root, "/docs/api/").as_deref(), Some("/site/docs/api"));
    assert_eq!(folder_at(root, "/./docs/").as_deref(), Some("/site/docs"));
    assert_eq!(folder_at(root, "/caf%C3%A9/").as_deref(), Some("/site/café"));

    // Leading out, plainly or encoded; an encoded slash; invalid UTF-8.
    for address in ["/../", "/docs/../../", "/%2e%2e/", "/%2Fetc/", "/%FF/"] {
        assert_eq!(folder_at(root, address), None, "{address}");
    }
}

#[test]
fn a_name_in_a_link_stays_one_name() {
    let link = |name: &str| in_a_link(name);

    assert_eq!(link("a b#c?d:e%f"), "a%20b%23c%3Fd%3Ae%25f");
    assert_eq!(link("café"), "caf%C3%A9");
    assert_eq!(link("A-z_0.9~"), "A-z_0.9~");
}

#[test]
fn a_link_leads_to_its_name() {
    for name in ["a b&c #1 100%.txt", "café", "A-z_0.9~", "?:#/%"] {
        let address = format!("/{}/", in_a_link(name));
        let folder = folder_at("/site", &address).expect("a name leads below the site");
        assert_eq!(folder, format!("/site/{name}").trim_end_matches('/'), "{name}");
    }
}

fn read_back(escaped: &str) -> String {
    let mut out = String::new();
    let mut rest = escaped;
    while let Some(c) = rest.chars().next() {
        let mut taken = false;
        for (reference, stands_for) in [("&amp;", '&'), ("&lt;", '<'), ("&gt;", '>'), ("&quot;", '"'), ("&#39;", '\'')] {
            if rest.starts_with(reference) {
                out.push(stands_for);
                rest = &rest[reference.len()..];
                taken = true;
                break;
            }
        }
        if !taken {
            out.push(c);
            rest = &rest[c.len_utf8()..];
        }
    }
    out
}

#[test]
fn escaped_text_reads_back_as_the_text() {
    for text in ["Tom & Jerry's <b>\"show\"</b>", "&amp;", "a&lt;b", "plain", "", "&&&#39;"] {
        let escaped = escape(text);
        assert_eq!(read_back(&escaped), text);
        for (i, c) in escaped.char_indices() {
            if c == '&' {
                let rest = &escaped[i..];
                assert!(
                    ["&amp;", "&lt;", "&gt;", "&quot;", "&#39;"].iter().any(|r| rest.starts_with(r)),
                    "{escaped}"
                );
            }
        }
    }
    assert_eq!(escape("Tom & Jerry's"), "Tom &amp; Jerry&#39;s");
    assert_eq!(escape("plain name.txt"), "plain name.txt");
}
