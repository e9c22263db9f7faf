use servio::banner::{banner, Bound, Host, Style};
use servio::guard::{may_be_served, names_a_hidden_file};
use servio::list::SinceEpoch;
use servio::serve::{
    after_looking, after_passing, answers_with_the_app, app_page_answer, could_be_a_route,
    layers, wants_page, Caching, Layer, PageAnswer, PageLook,
};
use servio::settings::Settings;
use servio::version::Version;

const PAGE: &str = "text/html,application/xhtml+xml,application/xml;q=0.9,*/*;q=0.8";

/// Whether the app answers an address nothing else was found at.
fn gets_the_app(accept: &str, path: &str) -> bool {
    answers_with_the_app(404, wants_page(Some(accept)), could_be_a_route(path))
}

#[test]
fn an_address_with_no_file_behind_it_gets_the_app() {
    assert!(gets_the_app(PAGE, "/users/123"));
}

#[test]
fn the_app_page_still_gets_the_reload_script() {
    let plan = layers(true, true, Caching::Off, true);
    let at = |layer: Layer| plan.iter().position(|it| *it == layer).unwrap();
    assert!(at(Layer::AppShell) < at(Layer::LiveReload));
}

#[test]
fn a_missing_script_or_image_is_still_not_found() {
    assert!(!gets_the_app("*/*", "/assets/typo.js"));
    assert!(!gets_the_app("image/*", "/photo.png"));
}

#[test]
fn real_files_are_still_served() {
    for status in [200, 304, 206] {
        assert!(!answers_with_the_app(status, true, true));
    }
}

#[test]
fn the_app_page_carries_none_of_the_index_files_own_details() {
    // While working nothing is kept, so the page goes out untagged whatever
    // the browser asks.
    let version = Version::of(
        None,
        20,
        Some(SinceEpoch::After {
            seconds: 4_070_908_800,
            nanos: 0,
        }),
    )
    .unwrap();
    let tag = version.tag();
    assert_eq!(
        app_page_answer(false, Some(&version), Some(Some(tag.as_str()))),
        PageAnswer::Page { tagged: false }
    );
    let plan = layers(true, true, Caching::Off, true);
    assert!(plan.contains(&Layer::AlwaysAnswerInFull));
}

#[test]
fn a_missing_file_stays_missing_however_it_is_asked_for() {
    assert!(!gets_the_app("*/*", "/gone.js"));
    assert!(!gets_the_app("*/*", "/clip.mp4"));
}

#[test]
fn hidden_files_stay_hidden() {
    assert!(names_a_hidden_file("/.env"));
    let plan = layers(true, true, Caching::Off, true);
    let at = |layer: Layer| plan.iter().position(|it| *it == layer).unwrap();
    assert!(at(Layer::AppShell) < at(Layer::RefuseHiddenFiles));
}

#[test]
fn without_the_flag_a_missing_address_is_not_found() {
    assert!(!layers(false, true, Caching::Off, true).contains(&Layer::AppShell));
}

#[test]
fn says_so_when_there_is_no_index_to_fall_back_on() {
    let mut spa = Settings {
        port: None,
        host: Host::V4([127, 0, 0, 1]),
        spa: true,
        production: false,
        no_list: false,
        no_reload: false,
        poll: false,
        cache_assets: false,
        open: false,
        ignore: Vec::new(),
    };
    spa.settle();
    let bound = Bound {
        host: Host::V4([127, 0, 0, 1]),
        port: 3030,
        shown: "127.0.0.1:3030".to_string(),
    };
    let said = banner(Style::new(false, None), &bound, &spa, "/site", true, 0);
    assert!(said.contains("Warning"), "{said}");

    // The banner already said it; the first request should not say it again.
    let mut missing = true;
    assert_eq!(after_looking(&mut missing, PageLook::Gone), None);
}

#[test]
fn a_page_that_cannot_be_read_is_reported_once_like_a_missing_one() {
    let mut missing = false;
    assert!(after_looking(&mut missing, PageLook::CannotBeRead)
        .is_some_and(|line| line.contains("cannot be read")));
    // Another file answering does not make the page come back.
    after_passing(&mut missing, false);
    assert_eq!(after_looking(&mut missing, PageLook::CannotBeRead), None);
}

#[test]
fn says_so_each_time_the_app_page_goes_missing() {
    let mut missing = false;
    let mut said = 0;
    let mut look = |missing: &mut bool, found: PageLook| {
        if after_looking(missing, found).is_some() {
            said += 1;
        }
    };
    look(&mut missing, PageLook::Gone);
    // Back for a moment, seen on a request some other file answers.
    after_passing(&mut missing, true);
    look(&mut missing, PageLook::Gone);
    look(&mut missing, PageLook::Gone);
    assert_eq!(said, 2, "said for each address");
}

#[test]
fn an_app_page_leading_out_of_the_directory_is_never_served() {
    assert!(!may_be_served("/site", Some("/tmp/elsewhere/secret.html")));
    let mut missing = false;
    assert!(after_looking(&mut missing, PageLook::LeadsOut)
        .is_some_and(|line| line.contains("leads to a file that is never served")));
}

#[test]
fn an_app_page_linked_from_inside_the_directory_is_served() {
    assert!(may_be_served("/site", Some("/site/build/app.html")));
}
