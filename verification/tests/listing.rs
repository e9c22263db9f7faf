use servio::guard::{index_page_on_disk, may_be_served, names_a_hidden_file, on_disk};
use servio::list::{folder_at, SinceEpoch};
use servio::listing::{
    list_page, list_way, may_be_listed, page, read, Details, Entry, Found, ListWay, LOCAL_TIME,
    STYLE,
};
use servio::serve::{keep_assets, layers, Caching, Layer, CHECK_BEFORE_USE};

const ROOT: &str = "/site";

/// A file or folder as reading a folder finds it.
fn found(name: &str, is_dir: bool, size: u64) -> Found {
    Found {
        name: Some(name.to_string()),
        is_link: false,
        resolved: None,
        details: Some(Details {
            is_dir,
            is_file: !is_dir,
            size,
            modified: None,
        }),
    }
}

fn file(name: &str) -> Found {
    found(name, false, 1)
}

fn folder(name: &str) -> Found {
    found(name, true, 0)
}

/// A link to `target`, which is a folder or a file there.
fn link(name: &str, target: &str, is_dir: bool) -> Found {
    Found {
        is_link: true,
        resolved: Some(target.to_string()),
        ..found(name, is_dir, 1)
    }
}

/// A link that leads nowhere.
fn broken(name: &str) -> Found {
    Found {
        name: Some(name.to_string()),
        is_link: true,
        resolved: None,
        details: None,
    }
}

/// The top of the site: index.html, about.html, and docs/ with guide.html
/// and api/ (which has its own index.html).
fn top() -> Vec<Found> {
    vec![file("index.html"), file("about.html"), folder("docs")]
}

fn docs() -> Vec<Found> {
    vec![file("guide.html"), folder("api")]
}

/// The list at `address`, given what its folder holds and whether it has a
/// page of its own; `None` where the page is shown instead.
fn list_at(address: &str, asked: bool, has_a_page: bool, holds: &Vec<Found>) -> Option<String> {
    let folder = folder_at(ROOT, address)?;
    let entries = read(ROOT, holds);
    list_page(ROOT, address, &folder, asked, has_a_page, Some(&entries))
}

fn names(entries: &[Entry]) -> Vec<String> {
    entries
        .iter()
        .map(|entry| {
            if entry.is_folder {
                format!("{}/", entry.name)
            } else {
                entry.name.clone()
            }
        })
        .collect()
}

#[test]
fn a_folder_with_no_page_of_its_own_lists_what_is_in_it() {
    assert_eq!(list_way(true, "/docs/", None), ListWay::PageFirst);
    let list = list_at("/docs/", false, false, &docs()).expect("no page, so a list");
    assert!(list.contains("Index of /docs/"), "{list}");
    assert!(list.contains(r#"href="guide.html""#), "{list}");
    assert!(list.contains(r#"href="api/""#), "{list}");
}

#[test]
fn a_folder_with_a_page_of_its_own_still_shows_the_page() {
    assert_eq!(list_at("/", false, true, &top()), None);
    assert_eq!(list_at("/docs/api/", false, true, &vec![file("index.html")]), None);
}

#[test]
fn asking_for_the_list_shows_it_where_there_is_a_page() {
    assert_eq!(list_way(true, "/", Some("list")), ListWay::ListFirst);
    let list = list_at("/", true, true, &top()).expect("asked for");
    for link in [
        r#"href="index.html""#,
        r#"href="about.html""#,
        r#"href="docs/?list""#,
    ] {
        assert!(list.contains(link), "no {link}:\n{list}");
    }
}

#[test]
fn only_a_bare_list_query_asks_for_the_list() {
    // `?list=groceries` belongs to the page, not to the file list.
    assert_eq!(list_way(true, "/", Some("list=groceries")), ListWay::PageFirst);
    assert_eq!(list_way(true, "/", Some("list")), ListWay::ListFirst);
    assert_eq!(list_way(true, "/docs/", None), ListWay::PageFirst);
}

#[test]
fn the_index_page_opens_from_the_list() {
    let list = list_at("/", true, true, &top()).expect("asked for");
    assert!(list.contains(r#"href="index.html""#), "{list}");
}

#[test]
fn folders_come_first_then_files_by_name() {
    let list = list_at("/", false, false, &vec![file("b.txt"), file("A.txt"), folder("zebra")])
        .expect("no page, so a list");
    let place = |name: &str| {
        list.find(&format!(r#"href="{name}""#))
            .unwrap_or_else(|| panic!("no {name}:\n{list}"))
    };
    assert!(place("zebra/") < place("A.txt"), "{list}");
    assert!(place("A.txt") < place("b.txt"), "{list}");
}

#[test]
fn case_is_set_aside_before_names_decide() {
    let entries = read(
        ROOT,
        &vec![
            file("b.txt"),
            folder("Zeta"),
            file("a.txt"),
            file("B.txt"),
            folder("alpha"),
            file("C.txt"),
        ],
    );
    assert_eq!(
        names(&entries),
        ["alpha/", "Zeta/", "a.txt", "B.txt", "b.txt", "C.txt"]
    );
}

#[test]
fn a_list_shows_each_files_size_and_when_it_was_written() {
    let written = SinceEpoch::After {
        seconds: 1_789_397_460,
        nanos: 0,
    };
    let mut small = found("small.txt", false, 5);
    small.details = Some(Details {
        is_dir: false,
        is_file: true,
        size: 5,
        modified: Some(written),
    });
    let holds = vec![small, found("large.txt", false, 1536), folder("folder")];
    let list = list_at("/", false, false, &holds).expect("no page, so a list");

    for row in [
        r#"<a href="small.txt">small.txt</a></td><td class="size">5 B</td><td><time datetime="2026-09-14T14:51Z">2026-09-14 14:51 UTC</time></td>"#,
        r#"<a href="large.txt">large.txt</a></td><td class="size">1.5 KB</td>"#,
        // Folders show no size.
        r#"<a href="folder/">folder/</a></td><td class="size"></td>"#,
    ] {
        assert!(list.contains(row), "no {row}:\n{list}");
    }
}

#[test]
fn a_folder_with_nothing_to_serve_says_it_is_empty() {
    // Hidden files don't count, so this folder shows as empty.
    let list = list_at("/nothing/", false, false, &vec![file(".DS_Store")]).expect("a list");
    assert!(list.contains("This folder is empty"), "{list}");
}

#[test]
fn once_asked_for_a_walk_through_the_folders_stays_on_the_lists() {
    let top = list_at("/", true, true, &top()).expect("asked for");
    assert!(!top.contains(r#"href="../"#), "nothing is above the top:\n{top}");

    let docs = list_at("/docs/", true, false, &docs()).expect("asked for");
    assert!(docs.contains(r#"href="api/?list""#), "{docs}");
    assert!(docs.contains(r#"href="../?list""#), "{docs}");
}

#[test]
fn unasked_the_links_lead_to_pages_as_usual() {
    let docs = list_at("/docs/", false, false, &docs()).expect("no page, so a list");
    assert!(docs.contains(r#"href="api/""#), "{docs}");
    assert!(docs.contains(r#"href="../""#), "{docs}");
}

#[test]
fn a_folder_named_without_its_slash_is_sent_to_the_address_with_it() {
    // Relative links need the address to end in `/`: the list leaves the
    // address to the file service, which sends it on to the one with it.
    assert_eq!(list_way(true, "/docs", Some("list")), ListWay::PassOn);
    assert_eq!(list_way(true, "/docs", None), ListWay::PassOn);
}

#[test]
fn only_a_folder_has_a_list() {
    assert_eq!(list_way(true, "/about.html", Some("list")), ListWay::PassOn);
    // Nothing at /nowhere/: not a folder, so no list and the 404 stands.
    let nowhere = folder_at(ROOT, "/nowhere/").expect("inside the site");
    assert!(!may_be_listed(ROOT, false, None), "{nowhere}");
}

#[test]
fn what_is_never_served_is_never_listed() {
    let mut holds = top();
    holds.push(file(".env"));
    holds.push(folder(".git"));
    holds.push(folder(".well-known"));
    let list = list_at("/", true, true, &holds).expect("asked for");
    assert!(!list.contains(".env"), "{list}");
    assert!(!list.contains(".git"), "{list}");
    assert!(list.contains(r#"href=".well-known/?list""#), "{list}");

    assert!(names_a_hidden_file("/.git/"));
}

#[test]
fn what_a_list_leaves_off() {
    let not_utf8 = Found {
        name: None,
        ..file("x")
    };
    let socket = Found {
        details: Some(Details {
            is_dir: false,
            is_file: false,
            size: 0,
            modified: None,
        }),
        ..file("socket")
    };
    let entries = read(
        ROOT,
        &vec![
            file(".env"),
            folder(".git"),
            folder(".well-known"),
            link("leads-out", "/etc/passwd", false),
            link("leads-in", "/site/real.txt", false),
            link("innocent", "/site/.env", false),
            broken("broken"),
            socket,
            not_utf8,
            found("index.html", false, 10),
        ],
    );
    assert_eq!(names(&entries), [".well-known/", "index.html", "leads-in"]);
}

#[test]
fn a_name_with_signs_in_it_reads_as_it_is_and_leads_to_its_file() {
    // Unescaped, `&` would break the HTML and `#` would cut the link short.
    let list = list_at("/", false, false, &vec![file("a b&c #1 100%.txt"), file("café.txt")])
        .expect("no page, so a list");
    assert!(
        list.contains(r#"<a href="a%20b%26c%20%231%20100%25.txt">a b&amp;c #1 100%.txt</a>"#),
        "{list}"
    );
    assert!(list.contains(r#"href="caf%C3%A9.txt""#), "{list}");

    assert_eq!(
        on_disk(ROOT, "/a%20b%26c%20%231%20100%25.txt"),
        "/site/a b&c #1 100%.txt"
    );
    assert_eq!(on_disk(ROOT, "/caf%C3%A9.txt"), "/site/café.txt");
}

#[test]
fn a_name_that_looks_like_markup_stays_text() {
    let list = list_at("/", false, false, &vec![file("<img src=x onerror=alert(1)>.txt")])
        .expect("no page, so a list");
    assert!(!list.contains("<img"), "{list}");
    assert!(
        list.contains("&lt;img src=x onerror=alert(1)&gt;.txt"),
        "{list}"
    );
}

#[test]
fn no_list_lists_nothing() {
    assert!(!layers(false, false, Caching::Off, true).contains(&Layer::FileLists));
    assert!(layers(false, true, Caching::Off, true).contains(&Layer::FileLists));
}

#[test]
fn with_spa_a_folder_gets_the_app_unless_its_list_is_asked_for() {
    // The lists sit outside the app, so the app answers a folder first; asked
    // for, the list answers before the app is reached.
    let plan = layers(true, true, Caching::Off, true);
    let at = |layer: Layer| plan.iter().position(|it| *it == layer).unwrap();
    assert!(at(Layer::AppShell) < at(Layer::FileLists));
    assert_eq!(list_way(true, "/docs/", None), ListWay::PageFirst);
    assert_eq!(list_way(true, "/docs/", Some("list")), ListWay::ListFirst);
}

#[test]
fn a_list_gets_the_reload_script() {
    let plan = layers(false, true, Caching::Off, true);
    let at = |layer: Layer| plan.iter().position(|it| *it == layer).unwrap();
    assert!(at(Layer::FileLists) < at(Layer::LiveReload));
}

#[test]
fn a_list_is_answered_like_a_page() {
    // HEAD reads as GET does; anything else is left to the file service.
    assert_eq!(list_way(true, "/docs/", None), ListWay::PageFirst);
    assert_eq!(list_way(false, "/docs/", Some("list")), ListWay::PassOn);
}

#[test]
fn a_list_under_assets_is_never_kept() {
    for address in ["/assets/", "/assets/?list"] {
        let path = address.split('?').next().unwrap();
        assert_eq!(keep_assets(path, 200), CHECK_BEFORE_USE, "for {address}");
    }
}

#[test]
fn a_folder_that_cannot_be_read_has_no_list() {
    assert_eq!(list_page(ROOT, "/docs/", "/site/docs", true, false, None), None);
    assert_eq!(list_page(ROOT, "/docs/", "/site/docs", false, false, None), None);
}

#[test]
fn a_folder_whose_index_page_cannot_be_read_is_not_listed_in_its_place() {
    // The page is there, so only the list that was asked for is shown.
    let mut holds = docs();
    holds.push(file("index.html"));
    assert_eq!(list_at("/docs/", false, true, &holds), None);
    let asked = list_at("/docs/", true, true, &holds).expect("asked for");
    assert!(asked.contains(r#"href="guide.html""#), "{asked}");
}

#[test]
fn a_link_leading_out_is_left_off_and_one_inside_is_listed() {
    let holds = vec![
        folder("real"),
        link("out", "/tmp/elsewhere", true),
        link("private.txt", "/tmp/elsewhere/private.txt", false),
        link("linked", "/site/real", true),
        broken("broken"),
    ];
    let list = list_at("/", false, false, &holds).expect("no page, so a list");

    assert!(!list.contains(r#"href="out/""#), "{list}");
    assert!(!list.contains("private.txt"), "{list}");
    assert!(!list.contains("broken"), "{list}");
    assert!(list.contains(r#"href="linked/""#), "{list}");
}

#[test]
fn a_folder_whose_index_page_is_broken_is_not_listed_in_its_place() {
    // A list would hide that the page is broken.
    let holds = vec![file("guide.html"), broken("index.html")];
    assert_eq!(list_at("/docs/", false, true, &holds), None);
    let asked = list_at("/docs/", true, true, &holds).expect("asked for");
    assert!(asked.contains(r#"href="guide.html""#), "{asked}");
}

#[test]
fn a_link_to_something_hidden_is_left_off_the_list() {
    let holds = vec![
        folder(".git"),
        file(".env"),
        file("readme.txt"),
        link("docs", "/site/.git", true),
        link("visible.txt", "/site/.env", false),
    ];
    let list = list_at("/", false, false, &holds).expect("no page, so a list");

    assert!(!list.contains(r#"href="docs/""#), "{list}");
    assert!(!list.contains("visible.txt"), "{list}");
    assert!(list.contains(r#"href="readme.txt""#), "{list}");
}

#[test]
fn a_folder_whose_index_page_leads_out_still_lists_when_asked() {
    // Only the page is refused; the folder can still be listed.
    let page = index_page_on_disk(ROOT, "/").expect("a folder's address");
    assert_eq!(page, "/site/index.html");
    assert!(!may_be_served(ROOT, Some("/tmp/elsewhere/secret.html")));

    let holds = vec![file("readme.txt"), link("index.html", "/tmp/elsewhere/secret.html", false)];
    let list = list_at("/", true, true, &holds).expect("asked for");
    assert!(list.contains(r#"href="readme.txt""#), "{list}");
    assert!(!list.contains(r#"href="index.html""#), "{list}");
}

#[test]
fn only_a_served_folder_is_listed() {
    assert!(may_be_listed(ROOT, true, Some("/site/docs")));
    assert!(!may_be_listed(ROOT, false, Some("/site/index.html")));
    assert!(!may_be_listed(ROOT, true, Some("/elsewhere")));
    assert!(!may_be_listed(ROOT, true, Some("/site/.git")));
}

fn entry(name: &str, is_folder: bool, size: u64, modified: Option<SinceEpoch>) -> Entry {
    Entry {
        name: name.to_string(),
        is_folder,
        size,
        modified,
    }
}

fn head(title: &str) -> String {
    format!(
        "<!doctype html>\n<html lang=\"en\">\n<head>\n<meta charset=\"utf-8\">\n<meta name=\"viewport\" content=\"width=device-width, initial-scale=1\">\n<title>Index of {title}</title>\n<style>{STYLE}</style>\n</head>\n<body>\n<h1>Index of {title}</h1>\n<table>\n<thead><tr><th>Name</th><th class=\"size\">Size</th><th>Modified</th></tr></thead>\n<tbody>\n"
    )
}

fn tail() -> String {
    format!("</tbody>\n</table>\n<script>{LOCAL_TIME}</script>\n</body>\n</html>\n")
}

#[test]
fn a_whole_page_reads_as_written() {
    let written = SinceEpoch::After {
        seconds: 1_789_397_460,
        nanos: 0,
    };
    let entries = vec![
        entry("docs", true, 4096, Some(written)),
        entry("a b.html", false, 1536, Some(written)),
        entry("<x>", false, 12, None),
    ];
    let html = page("/sub/", &entries, false, false);
    let expected = head("/sub/")
        + "<tr><td><a href=\"../\">../</a></td><td></td><td></td></tr>\n"
        + "<tr><td><a href=\"docs/\">docs/</a></td><td class=\"size\"></td><td><time datetime=\"2026-09-14T14:51Z\">2026-09-14 14:51 UTC</time></td></tr>\n"
        + "<tr><td><a href=\"a%20b.html\">a b.html</a></td><td class=\"size\">1.5 KB</td><td><time datetime=\"2026-09-14T14:51Z\">2026-09-14 14:51 UTC</time></td></tr>\n"
        + "<tr><td><a href=\"%3Cx%3E\">&lt;x&gt;</a></td><td class=\"size\">12 B</td><td></td></tr>\n"
        + &tail();
    assert_eq!(html, expected);

    let empty = page("/", &Vec::new(), true, false);
    assert_eq!(
        empty,
        head("/") + "<tr><td class=\"empty\" colspan=\"3\">This folder is empty</td></tr>\n" + &tail()
    );
}

#[test]
fn the_list_is_titled_with_the_address_as_it_reads() {
    let entries = Vec::new();
    let html = list_page(ROOT, "/caf%C3%A9/", "/site/café", false, false, Some(&entries))
        .expect("a folder with no page is listed");
    assert_eq!(html, page("/café/", &entries, false, false));
    let markup = page("/<b>/", &Vec::new(), false, false);
    assert!(markup.contains("<title>Index of /&lt;b&gt;/</title>"), "{markup}");
}
