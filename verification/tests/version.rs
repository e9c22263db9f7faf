use servio::list::SinceEpoch;
use servio::serve::{app_page_answer, keep_assets, PageAnswer};
use servio::version::{
    answer_by_version, file_for_version, names_a_tag, without_weak_mark, FileIdentity, Version,
};

fn written(seconds: u64, nanos: u32) -> Option<SinceEpoch> {
    Some(SinceEpoch::After { seconds, nanos })
}

fn identity() -> Option<FileIdentity> {
    Some(FileIdentity::Inode {
        device_id: 2049,
        inode_number: 131_077,
    })
}

#[test]
fn a_version_is_a_weak_tag_of_sixteen_hex_digits() {
    let version = Version::of(identity(), 120, written(1_789_397_460, 5)).expect("written after 1970");
    let tag = version.tag();
    assert!(tag.starts_with("W/\"") && tag.ends_with('"'), "{tag}");
    assert_eq!(tag.len(), 20, "{tag}");
    assert!(
        tag[3..19].chars().all(|c| c.is_ascii_hexdigit() && !c.is_ascii_uppercase()),
        "{tag}"
    );
    assert_eq!(version.written_second, 1_789_397_460);
}

#[test]
fn the_same_parts_give_the_same_tag_and_any_change_another() {
    let tag = |identity, len, modified| Version::of(identity, len, modified).unwrap().tag();
    let first = tag(identity(), 120, written(1_789_397_460, 5));
    assert_eq!(first, tag(identity(), 120, written(1_789_397_460, 5)));
    assert_ne!(first, tag(identity(), 121, written(1_789_397_460, 5)));
    assert_ne!(first, tag(identity(), 120, written(1_789_397_460, 6)));
    assert_ne!(first, tag(identity(), 120, written(1_789_397_461, 5)));
    assert_ne!(first, tag(None, 120, written(1_789_397_460, 5)));
}

#[test]
fn a_file_with_no_write_time_after_1970_has_no_version() {
    assert!(Version::of(identity(), 1, None).is_none());
    assert!(Version::of(
        identity(),
        1,
        Some(SinceEpoch::Before {
            seconds: 1,
            nanos: 0
        })
    )
    .is_none());
}

#[test]
fn tags_are_compared_without_their_weak_mark() {
    assert_eq!(without_weak_mark("W/\"abc\""), "\"abc\"");
    assert_eq!(without_weak_mark("\"abc\""), "\"abc\"");
    assert!(names_a_tag("\"abc\"", "W/\"abc\""));
    assert!(names_a_tag("W/\"x\", W/\"abc\"", "W/\"abc\""));
    assert!(names_a_tag("  W/\"abc\"  ", "W/\"abc\""));
    assert!(names_a_tag("*", "W/\"abc\""));
    assert!(!names_a_tag("\"abcd\"", "W/\"abc\""));
    assert!(!names_a_tag("", "W/\"abc\""));
}

#[test]
fn the_tag_decides_and_a_date_names_its_second() {
    let version = Version::of(identity(), 120, written(1_445_412_480, 0)).unwrap();
    let tag = version.tag();

    let answer = answer_by_version(&version, Some(Some(tag.as_str())), None, None);
    assert!(answer.unchanged);

    // The tag decides where both are sent.
    let answer = answer_by_version(
        &version,
        Some(Some("\"other\"")),
        Some(Some("Wed, 21 Oct 2015 07:28:00 GMT")),
        None,
    );
    assert!(!answer.unchanged);

    let answer = answer_by_version(&version, None, Some(Some("Wed, 21 Oct 2015 07:28:00 GMT")), None);
    assert!(answer.unchanged);
    let answer = answer_by_version(&version, None, Some(Some("Wed, 21 Oct 2015 07:28:01 GMT")), None);
    assert!(!answer.unchanged);
    let answer = answer_by_version(&version, None, Some(Some("not a date")), None);
    assert!(!answer.unchanged);
    let answer = answer_by_version(&version, Some(None), None, None);
    assert!(!answer.unchanged, "a header that is not text names nothing");
}

#[test]
fn part_of_a_file_as_it_was_is_not_sent_for_one_that_changed() {
    let version = Version::of(identity(), 120, written(1_445_412_480, 0)).unwrap();
    let same = answer_by_version(&version, None, None, Some(Some("Wed, 21 Oct 2015 07:28:00 GMT")));
    assert!(!same.drop_range);
    let other = answer_by_version(&version, None, None, Some(Some("Wed, 21 Oct 2015 07:28:09 GMT")));
    assert!(other.drop_range);
    let none = answer_by_version(&version, None, None, None);
    assert!(!none.drop_range && !none.unchanged);
}

#[test]
fn a_version_is_taken_from_the_file_the_address_is_answered_with() {
    assert_eq!(
        file_for_version("/site/docs", true, "/docs/").as_deref(),
        Some("/site/docs/index.html")
    );
    assert_eq!(file_for_version("/site/docs", true, "/docs"), None);
    assert_eq!(
        file_for_version("/site/app.js", false, "/app.js").as_deref(),
        Some("/site/app.js")
    );
}

#[test]
fn the_app_page_is_tagged_only_where_versions_are_checked() {
    let version = Version::of(identity(), 120, written(1_445_412_480, 0)).unwrap();
    let tag = version.tag();
    assert_eq!(
        app_page_answer(true, Some(&version), Some(Some(tag.as_str()))),
        PageAnswer::NotModified
    );
    assert_eq!(
        app_page_answer(true, Some(&version), None),
        PageAnswer::Page { tagged: true }
    );
    assert_eq!(
        app_page_answer(false, Some(&version), Some(Some(tag.as_str()))),
        PageAnswer::Page { tagged: false }
    );
    assert_eq!(
        app_page_answer(true, None, Some(Some(tag.as_str()))),
        PageAnswer::Page { tagged: false }
    );
}

#[test]
fn a_browser_that_already_has_the_file_is_told_so() {
    // Asked by the date it was sent with, a file under /assets/ is answered
    // "not modified", and that answer keeps the year.
    let version = Version::of(identity(), 7, written(1_445_412_480, 0)).unwrap();
    let answer = answer_by_version(&version, None, Some(Some("Wed, 21 Oct 2015 07:28:00 GMT")), None);
    assert!(answer.unchanged);
    assert_eq!(
        keep_assets("/assets/app-abc123.css", 304),
        "public, max-age=31536000, immutable"
    );
}

#[test]
fn with_production_an_unchanged_file_is_not_sent_again() {
    let version = Version::of(identity(), 20, written(1_445_412_480, 0)).unwrap();
    let answer = answer_by_version(&version, None, Some(Some("Wed, 21 Oct 2015 07:28:00 GMT")), None);
    assert!(answer.unchanged);
}

#[test]
fn a_tag_sent_back_names_its_version() {
    let version = Version::of(identity(), 120, written(1_789_397_460, 5)).unwrap();
    let tag = version.tag();
    assert!(version.is_named_in(Some(&tag)));
    assert!(version.is_named_in(Some(&tag[2..])), "without its weak mark");
    assert!(names_a_tag(&tag, &tag));
    let other = Version::of(identity(), 121, written(1_789_397_460, 5)).unwrap();
    assert!(!other.is_named_in(Some(&tag)));
}
