use servio::banner::{banner, Bound, Host, Style};
use servio::guard::{may_be_served, names_a_hidden_file, on_disk};
use servio::serve::{
    after_looking, after_passing, answers_with_the_app, collapse_leading_slashes,
    could_be_a_route, keep_assets, layers, wants_page, Caching, Layer, PageLook,
    CHECK_BEFORE_USE, KEEP_FOR_A_YEAR,
};
use servio::settings::Settings;

const NOTHING: &str = "no-store";
const CHECKED: &str = "no-cache";
const YEAR: &str = "public, max-age=31536000, immutable";

/// What a browser is told it may keep of the answer at `path`, in the given
/// mode, as the layers of that mode say it.
fn cache_control(caching: Caching, path: &str, status: u16) -> &'static str {
    let plan = layers(false, true, caching, true);
    if plan.contains(&Layer::NoStore) {
        NOTHING
    } else if plan.contains(&Layer::CheckBeforeUse) {
        CHECK_BEFORE_USE
    } else {
        assert!(plan.contains(&Layer::KeepAssets));
        keep_assets(path, status)
    }
}

fn settings(production: bool, cache_assets: bool) -> Settings {
    let mut settings = Settings {
        port: None,
        host: Host::V4([127, 0, 0, 1]),
        spa: false,
        production,
        no_list: false,
        no_reload: false,
        poll: false,
        cache_assets,
        open: false,
        ignore: Vec::new(),
    };
    settings.settle();
    settings
}

#[test]
fn hashed_assets_are_kept_and_everything_else_is_checked() {
    let kept = Caching::AssetsForAYear;
    assert_eq!(cache_control(kept, "/assets/app-abc123.css", 200), YEAR);
    assert_eq!(cache_control(kept, "/", 200), CHECKED);
    assert_eq!(cache_control(kept, "/nowhere.png", 404), CHECKED);
    assert_eq!(KEEP_FOR_A_YEAR, YEAR);
    assert_eq!(CHECK_BEFORE_USE, CHECKED);
}

#[test]
fn a_file_that_is_not_there_is_never_kept() {
    assert_eq!(
        keep_assets("/assets/not-copied-yet-abc123.js", 404),
        CHECKED
    );
    assert_eq!(keep_assets("/assets/app.js", 500), CHECKED);
}

#[test]
fn a_page_at_a_folders_own_address_under_assets_is_not_kept() {
    assert_eq!(keep_assets("/assets/docs/", 200), CHECKED);
}

#[test]
fn a_missing_asset_is_never_answered_with_the_app() {
    let page = "text/html,application/xhtml+xml,application/xml;q=0.9,*/*;q=0.8";
    let address = "/assets/not-copied-yet-abc123.js";
    assert!(!answers_with_the_app(404, wants_page(Some(page)), could_be_a_route(address)));
    assert_eq!(keep_assets(address, 404), CHECKED);
}

#[test]
fn a_refused_file_is_answered_like_anything_else() {
    // Refused inside the headers, so the answer gets them all the same.
    assert!(names_a_hidden_file("/.env"));
    assert_eq!(keep_assets("/.env", 404), CHECKED);
    let plan = layers(false, true, Caching::AssetsForAYear, true);
    let at = |layer: Layer| plan.iter().position(|it| *it == layer).unwrap();
    assert!(at(Layer::RefuseHiddenFiles) < at(Layer::KeepAssets));
    assert!(at(Layer::RefuseHiddenFiles) < at(Layer::NoSniff));
}

#[test]
fn without_the_flag_nothing_is_kept() {
    let working = settings(false, false);
    assert_eq!(
        cache_control(working.caching(), "/assets/app-abc123.css", 200),
        NOTHING
    );
}

#[test]
fn each_mode_tells_the_browser_what_it_may_keep() {
    let addresses = [
        ("/", 200),
        ("/assets/app-abc123.css", 200),
        ("/assets/logo.png", 200),
        ("/assets/not-copied-yet-abc123.js", 404),
        ("/assets/docs/", 200),
    ];
    let assets = "files under /assets/ for a year, the rest checked each time";
    let modes: [((bool, bool), &str, [&str; 5]); 4] = [
        ((false, false), "off", [NOTHING; 5]),
        (
            (true, false),
            "on, checked for changes each time",
            [CHECKED; 5],
        ),
        ((false, true), assets, [CHECKED, YEAR, YEAR, CHECKED, CHECKED]),
        ((true, true), assets, [CHECKED, YEAR, YEAR, CHECKED, CHECKED]),
    ];

    let bound = Bound {
        host: Host::V4([127, 0, 0, 1]),
        port: 3030,
        shown: "127.0.0.1:3030".to_string(),
    };
    for ((production, cache_assets), said, kept) in modes {
        let mode = settings(production, cache_assets);
        let text = banner(Style::new(false, None), &bound, &mode, "/site", false, 0);
        assert!(
            text.contains(&format!("Caching        : {said}")),
            "{production} {cache_assets}:\n{text}"
        );
        for ((address, status), kept) in addresses.into_iter().zip(kept) {
            assert_eq!(
                cache_control(mode.caching(), address, status),
                kept,
                "{address} with {production} {cache_assets}"
            );
        }
    }
}

#[test]
fn nothing_is_cached() {
    // No question of a kept copy, and no tag to ask it by.
    let plan = layers(false, true, Caching::Off, true);
    assert!(plan.contains(&Layer::NoStore));
    assert!(plan.contains(&Layer::DropFileServiceTags));
    assert!(!plan.contains(&Layer::AnswerByVersion));
}

#[test]
fn a_browser_is_never_told_that_nothing_changed() {
    let plan = layers(false, true, Caching::Off, true);
    assert!(plan.contains(&Layer::AlwaysAnswerInFull));
    assert!(!plan.contains(&Layer::AnswerByVersion));
}

#[test]
fn sends_the_security_headers() {
    for caching in [Caching::Off, Caching::Checked, Caching::AssetsForAYear] {
        let plan = layers(true, true, caching, true);
        for header in [Layer::NoSniff, Layer::SameOrigin, Layer::ReferrerPolicy] {
            assert!(plan.contains(&header), "{header:?} with {caching:?}");
        }
    }
}

#[test]
fn refuses_to_climb_out_of_the_directory() {
    // Where the address leads on disk, before and after following it.
    assert_eq!(on_disk("/site", "/../../etc/passwd"), "/site/../../etc/passwd");
    assert_eq!(on_disk("/site", "/%2e%2e/%2e%2e/etc/passwd"), "/site/../../etc/passwd");
    assert!(!may_be_served("/site", Some("/etc/passwd")));
}

#[test]
fn a_folder_named_like_a_site_is_never_a_way_to_that_site() {
    for (path, query, collapsed) in [
        ("//example.com", None, "/example.com"),
        ("///example.com", None, "/example.com"),
        ("//example.com", Some("page=2"), "/example.com?page=2"),
    ] {
        assert_eq!(
            collapse_leading_slashes(path, query).as_deref(),
            Some(collapsed),
            "for {path}"
        );
    }
    assert_eq!(collapse_leading_slashes("/example.com/", None), None);
}

#[test]
fn slashes_in_front_do_not_get_past_the_refusals() {
    // Leading slashes are collapsed before the refusals run.
    let plan = layers(false, true, Caching::Off, true);
    let at = |layer: Layer| plan.iter().position(|it| *it == layer).unwrap();
    assert!(at(Layer::RefuseHiddenFiles) < at(Layer::CollapseLeadingSlashes));
    assert!(at(Layer::RefusePathsOutside) < at(Layer::CollapseLeadingSlashes));

    let collapsed = |path| collapse_leading_slashes(path, None).unwrap();
    assert!(names_a_hidden_file(&collapsed("//.env")));
    assert!(names_a_hidden_file(&collapsed("///.env")));
    assert_eq!(on_disk("/site", &collapsed("//../../etc/passwd")), "/site/../../etc/passwd");
    assert_eq!(
        on_disk("/site", &collapsed("//%2e%2e/%2e%2e/etc/passwd")),
        "/site/../../etc/passwd"
    );
}

#[test]
fn a_backslash_among_the_slashes_in_front_is_no_way_to_another_site_either() {
    for path in ["/\\example.com", "//\\example.com", "/\\/example.com"] {
        let collapsed = collapse_leading_slashes(path, None).unwrap();
        assert!(
            !collapsed.starts_with("//") && !collapsed.starts_with("/\\"),
            "for {path}: {collapsed}"
        );
        assert_eq!(collapsed, "/example.com");
    }
}

#[test]
fn hidden_files_are_not_served() {
    for path in ["/.env", "/.git/config", "/%2e%65nv", "/sub/.env", "/sub%2f.env", "/sub%2F.env", "/sub%2f.git%2fconfig"] {
        assert!(names_a_hidden_file(path), "{path}");
    }
    assert!(!names_a_hidden_file("/.well-known/token"));
    assert_eq!(cache_control(Caching::Off, "/.env", 404), NOTHING);
}

#[test]
fn slashes_in_front_collapse_into_one() {
    assert_eq!(
        collapse_leading_slashes("/\\example.com/a", Some("list")).as_deref(),
        Some("/example.com/a?list")
    );
    assert_eq!(collapse_leading_slashes("///", None).as_deref(), Some("/"));
    assert_eq!(collapse_leading_slashes("/a//b", None), None);
    assert_eq!(collapse_leading_slashes("/", None), None);
    assert_eq!(collapse_leading_slashes("", None), None);
}

#[test]
fn only_a_page_request_gets_the_app() {
    assert!(wants_page(Some("text/html,application/xhtml+xml")));
    assert!(wants_page(Some("application/xml;q=0.9, text/html")));
    assert!(!wants_page(Some("image/avif,image/webp")));
    assert!(!wants_page(Some("text/htm")));
    assert!(!wants_page(None));
}

#[test]
fn a_missing_app_page_is_said_once_each_time_it_goes() {
    let mut missing = false;
    assert_eq!(
        after_looking(&mut missing, PageLook::Gone).as_deref(),
        Some("  index.html is gone, so the app will not load")
    );
    assert!(missing);
    assert_eq!(after_looking(&mut missing, PageLook::CannotBeRead), None);
    assert_eq!(after_looking(&mut missing, PageLook::Found), None);
    assert!(!missing);
    assert_eq!(
        after_looking(&mut missing, PageLook::CannotBeRead).as_deref(),
        Some("  index.html cannot be read, so the app will not load")
    );
    after_passing(&mut missing, false);
    assert!(missing);
    after_passing(&mut missing, true);
    assert!(!missing);
    assert_eq!(
        after_looking(&mut missing, PageLook::LeadsOut).as_deref(),
        Some("  index.html leads to a file that is never served, so the app will not load")
    );
}

#[test]
fn each_mode_puts_its_layers_in_order() {
    assert_eq!(
        layers(false, true, Caching::Off, true),
        [
            Layer::DropFileServiceTags,
            Layer::RefuseIndexPagesOutside,
            Layer::FileLists,
            Layer::LiveReload,
            Layer::Compression,
            Layer::RefuseHiddenFiles,
            Layer::RefusePathsOutside,
            Layer::AlwaysAnswerInFull,
            Layer::NoStore,
            Layer::NoSniff,
            Layer::SameOrigin,
            Layer::ReferrerPolicy,
            Layer::CollapseLeadingSlashes,
        ]
    );
    assert_eq!(
        layers(true, false, Caching::Checked, false),
        [
            Layer::DropFileServiceTags,
            Layer::AnswerByVersion,
            Layer::RefuseIndexPagesOutside,
            Layer::AppShell,
            Layer::Compression,
            Layer::RefuseHiddenFiles,
            Layer::RefusePathsOutside,
            Layer::CheckBeforeUse,
            Layer::NoSniff,
            Layer::SameOrigin,
            Layer::ReferrerPolicy,
            Layer::CollapseLeadingSlashes,
        ]
    );
    assert_eq!(
        layers(true, true, Caching::AssetsForAYear, true),
        [
            Layer::DropFileServiceTags,
            Layer::AnswerByVersion,
            Layer::RefuseIndexPagesOutside,
            Layer::AppShell,
            Layer::FileLists,
            Layer::LiveReload,
            Layer::Compression,
            Layer::RefuseHiddenFiles,
            Layer::RefusePathsOutside,
            Layer::KeepAssets,
            Layer::NoSniff,
            Layer::SameOrigin,
            Layer::ReferrerPolicy,
            Layer::CollapseLeadingSlashes,
        ]
    );
}

#[test]
fn production_turns_off_reload_and_lists() {
    let published = settings(true, false);
    assert!(!published.watches() && !published.lists());
    let plan = layers(false, published.lists(), published.caching(), published.watches());
    assert!(!plan.contains(&Layer::FileLists));
    assert!(!plan.contains(&Layer::LiveReload));

    let bound = Bound {
        host: Host::V4([127, 0, 0, 1]),
        port: 3030,
        shown: "127.0.0.1:3030".to_string(),
    };
    let said = banner(Style::new(false, None), &bound, &published, "/site", false, 0);
    assert!(said.contains("Live reload    : off"), "{said}");
    assert!(said.contains("File lists     : off"), "{said}");
}

#[test]
fn no_reload_leaves_the_page_alone() {
    let mut quiet = settings(false, false);
    quiet.no_reload = true;
    assert!(!quiet.watches());
    assert!(!layers(false, quiet.lists(), quiet.caching(), quiet.watches()).contains(&Layer::LiveReload));
    let bound = Bound {
        host: Host::V4([127, 0, 0, 1]),
        port: 3030,
        shown: "127.0.0.1:3030".to_string(),
    };
    let said = banner(Style::new(false, None), &bound, &quiet, "/site", false, 0);
    assert!(said.contains("Live reload    : off"), "{said}");
}

#[test]
fn a_published_site_still_refuses_hidden_files_and_serves_its_routes() {
    let mut published = settings(true, true);
    published.spa = true;
    published.host = Host::V4([0, 0, 0, 0]);
    assert!(names_a_hidden_file("/.env"));
    let page = "text/html,application/xhtml+xml,application/xml;q=0.9,*/*;q=0.8";
    assert!(answers_with_the_app(404, wants_page(Some(page)), could_be_a_route("/users/123")));
    let plan = layers(published.spa, published.lists(), published.caching(), published.watches());
    assert!(plan.contains(&Layer::AppShell) && plan.contains(&Layer::RefuseHiddenFiles));
    assert!(!plan.contains(&Layer::LiveReload));
}
