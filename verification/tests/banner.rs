use servio::banner::{
    authority, banner, hyperlink, ignoring, live_reload, on_off, reachable_from_elsewhere, row,
    url, Bound, Host, Style,
};
use servio::settings::Settings;

fn v4(a: u8, b: u8, c: u8, d: u8) -> Host {
    Host::V4([a, b, c, d])
}

fn settings() -> Settings {
    Settings {
        port: None,
        host: v4(127, 0, 0, 1),
        spa: false,
        production: false,
        no_list: false,
        no_reload: false,
        poll: false,
        cache_assets: false,
        open: false,
        ignore: Vec::new(),
    }
}

fn local(port: u16) -> Bound {
    Bound {
        host: v4(127, 0, 0, 1),
        port,
        shown: format!("127.0.0.1:{port}"),
    }
}

#[test]
fn only_loopback_keeps_the_lists_to_this_machine() {
    // 127.0.0.1, 127.0.0.2, ::1, ::ffff:127.0.0.1
    for local in [
        v4(127, 0, 0, 1),
        v4(127, 0, 0, 2),
        Host::V6([0, 0, 0, 0, 0, 0, 0, 1]),
        Host::V6([0, 0, 0, 0, 0, 0xffff, 0x7f00, 0x0001]),
    ] {
        assert!(!reachable_from_elsewhere(&local), "{local:?}");
    }
    // 0.0.0.0, ::, 192.168.1.20, ::ffff:192.168.1.20
    for open in [
        v4(0, 0, 0, 0),
        Host::V6([0; 8]),
        v4(192, 168, 1, 20),
        Host::V6([0, 0, 0, 0, 0, 0xffff, 0xc0a8, 0x0114]),
    ] {
        assert!(reachable_from_elsewhere(&open), "{open:?}");
    }
}

#[test]
fn only_a_terminal_gets_colour_and_links() {
    let terminal = Style::new(true, None);
    assert!(terminal.colour && terminal.links);

    let elsewhere = Style::new(false, None);
    assert!(!elsewhere.colour && !elsewhere.links);
}

#[test]
fn no_color_turns_colour_off_but_leaves_links_unless_it_is_empty() {
    let set = Style::new(true, Some("1"));
    assert!(!set.colour && set.links);

    let empty = Style::new(true, Some(""));
    assert!(empty.colour && empty.links);
}

#[test]
fn what_is_ignored_is_listed_and_the_file_is_counted() {
    let given = ["*.map".to_string()];

    assert_eq!(ignoring(&[], 0), None);
    assert_eq!(ignoring(&given, 0).as_deref(), Some("*.map"));
    assert_eq!(
        ignoring(&given, 1).as_deref(),
        Some("*.map, 1 pattern in .servioignore")
    );
    assert_eq!(
        ignoring(&[], 2).as_deref(),
        Some("2 patterns in .servioignore")
    );
}

#[test]
fn several_patterns_are_listed_in_order() {
    let given = ["*.map".to_string(), "cache".to_string()];
    assert_eq!(
        ignoring(&given, 3).as_deref(),
        Some("*.map, cache, 3 patterns in .servioignore")
    );
}

#[test]
fn the_address_to_open_is_the_one_bound() {
    let bound = local(3030);
    assert_eq!(authority(&bound), "localhost:3030");
    assert_eq!(url(&bound), "http://localhost:3030");

    // Loopback too, but the name does not lead there.
    let other = Bound {
        host: v4(127, 0, 0, 2),
        port: 3030,
        shown: "127.0.0.2:3030".to_string(),
    };
    assert_eq!(url(&other), "http://127.0.0.2:3030");
    let ipv6 = Bound {
        host: Host::V6([0, 0, 0, 0, 0, 0, 0, 1]),
        port: 3030,
        shown: "[::1]:3030".to_string(),
    };
    assert_eq!(authority(&ipv6), "localhost:3030");

    // Listening everywhere, the address offered is one this machine can open.
    let everywhere = Bound {
        host: v4(0, 0, 0, 0),
        port: 8080,
        shown: "0.0.0.0:8080".to_string(),
    };
    assert_eq!(url(&everywhere), "http://localhost:8080");
}

#[test]
fn links_and_colours_are_only_for_a_terminal() {
    let plain = Style::new(false, None);
    assert_eq!(hyperlink(plain, "http://x", "x"), "x");
    assert_eq!(
        hyperlink(Style::new(true, None), "http://x", "x"),
        "\x1b]8;;http://x\x1b\\x\x1b]8;;\x1b\\"
    );
    assert_eq!(row(plain, "Open", "here"), "  Open           : here");
    assert_eq!(
        row(Style::new(true, None), "Open", "here"),
        "  Open           : \x1b[94mhere\x1b[0m"
    );
    assert_eq!(on_off(true), "on");
    assert_eq!(on_off(false), "off");
}

#[test]
fn live_reload_says_how_changes_are_found() {
    let mut watching = settings();
    assert_eq!(live_reload(&watching), "on");
    watching.poll = true;
    assert_eq!(live_reload(&watching), "on, looking at the files every 1s");
    watching.poll = false;
    watching.no_reload = true;
    assert_eq!(live_reload(&watching), "off");
}

#[test]
fn the_banner_says_where_and_how_it_serves() {
    let plain = Style::new(false, None);
    let said = banner(plain, &local(3031), &settings(), "/site", false, 0);
    assert_eq!(
        said,
        "-----------------------------------------------\n\
         \x20 Serving        : /site\n\
         \x20 Note           : port 3030 was busy, using 3031\n\
         \x20 Live reload    : on\n\
         \x20 Single-page app: off\n\
         \x20 File lists     : where a folder has no index.html, or with ?list\n\
         \x20 Caching        : off\n\
         \x20 Open           : localhost:3031\n\
         -----------------------------------------------\n\n"
    );
}

#[test]
fn the_banner_warns_when_other_devices_can_list_the_files() {
    let plain = Style::new(false, None);
    let mut open = settings();
    open.host = v4(0, 0, 0, 0);
    let bound = Bound {
        host: v4(0, 0, 0, 0),
        port: 3030,
        shown: "0.0.0.0:3030".to_string(),
    };
    let said = banner(plain, &bound, &open, "/site", true, 0);
    assert!(said.contains("  Warning        : other devices can list the files here; --no-list turns that off\n"), "{said}");
    assert!(said.contains("  Warning        : there is no index.html here, so the app will not load\n"), "{said}");
    assert!(!said.contains("Note"), "{said}");

    open.no_list = true;
    let said = banner(plain, &bound, &open, "/site", false, 0);
    assert!(!said.contains("Warning"), "{said}");
    assert!(said.contains("  File lists     : off\n"), "{said}");
}

fn said(bound: &Bound, settings: &Settings, from_ignore_file: usize) -> String {
    banner(Style::new(false, None), bound, settings, "/site", false, from_ignore_file)
}

#[test]
fn offers_localhost_when_listening_everywhere() {
    // 0.0.0.0 is not an address a browser can open.
    let mut everywhere = settings();
    everywhere.host = v4(0, 0, 0, 0);
    let bound = Bound {
        host: v4(0, 0, 0, 0),
        port: 3030,
        shown: "0.0.0.0:3030".to_string(),
    };
    assert!(said(&bound, &everywhere, 0).contains("localhost"));
}

#[test]
fn offers_the_real_address_when_it_is_not_localhost() {
    let mut other = settings();
    other.host = v4(127, 0, 0, 2);
    let bound = Bound {
        host: v4(127, 0, 0, 2),
        port: 3030,
        shown: "127.0.0.2:3030".to_string(),
    };
    let text = said(&bound, &other, 0);
    assert!(text.contains("127.0.0.2"), "{text}");
}

#[test]
fn says_what_it_is_doing_on_the_way_up() {
    let text = said(&local(3030), &settings(), 0);
    for part in ["Serving", "Live reload", "Single-page app", "File lists"] {
        assert!(text.contains(part), "{part}:\n{text}");
    }
}

#[test]
fn a_banner_not_shown_in_a_terminal_has_no_colours_or_links() {
    let text = said(&local(3030), &settings(), 0);
    assert!(text.contains("Open"), "{text}");
    assert!(!text.contains('\x1b'), "{text:?}");

    let terminal = banner(Style::new(true, None), &local(3030), &settings(), "/site", false, 0);
    assert!(terminal.contains('\x1b'), "{terminal:?}");
}

#[test]
fn warns_when_other_devices_can_list_the_files() {
    let everywhere = Bound {
        host: v4(0, 0, 0, 0),
        port: 3030,
        shown: "0.0.0.0:3030".to_string(),
    };
    let mut reachable = settings();
    reachable.host = v4(0, 0, 0, 0);
    assert!(said(&everywhere, &reachable, 0).contains("other devices can list the files here"));

    let mut turned_off = settings();
    turned_off.host = v4(0, 0, 0, 0);
    turned_off.no_list = true;
    let text = said(&everywhere, &turned_off, 0);
    assert!(
        !text.contains("other devices can list") && text.contains("File lists     : off"),
        "{text}"
    );

    let text = said(&local(3030), &settings(), 0);
    assert!(!text.contains("other devices can list"), "{text}");
}

#[test]
fn says_when_it_is_looking_at_the_files_rather_than_being_told() {
    let mut polling = settings();
    polling.poll = true;
    let text = said(&local(3030), &polling, 0);
    assert!(text.contains("looking at the files"), "{text}");
}

#[test]
fn says_how_many_patterns_the_ignore_file_added() {
    let mut ignoring = settings();
    ignoring.ignore = vec!["*.map".to_string()];
    let text = said(&local(3030), &ignoring, 2);
    assert!(text.contains("*.map, 2 patterns in .servioignore"), "{text}");
}

#[test]
fn says_what_it_is_ignoring_on_the_way_up() {
    let mut ignoring = settings();
    ignoring.ignore = vec!["*.log".to_string(), "cache".to_string()];
    let text = said(&local(3030), &ignoring, 0);
    assert!(text.contains("Ignoring") && text.contains("*.log, cache"), "{text}");
}

#[test]
fn a_dumb_terminal_or_none_named_gets_plain_text() {
    assert!(servio::banner::shows_codes(true, Some("xterm-256color"), false));
    assert!(!servio::banner::shows_codes(true, Some("dumb"), false));
    assert!(!servio::banner::shows_codes(true, None, false));
    assert!(servio::banner::shows_codes(true, None, true));
    assert!(!servio::banner::shows_codes(false, Some("xterm"), false));
}
