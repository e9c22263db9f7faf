use servio::banner::Host;
use servio::serve::Caching;
use servio::settings::{Settings, DEFAULT_PORT};

fn settings() -> Settings {
    Settings {
        port: None,
        host: Host::V4([127, 0, 0, 1]),
        spa: false,
        production: false,
        no_list: false,
        no_reload: false,
        poll: false,
        cache_assets: false,
        open: false,
        ignore: Vec::new(),
    }
}

#[test]
fn production_stands_for_no_reload_and_no_list() {
    let mut published = settings();
    published.production = true;
    published.settle();
    assert!(!published.watches() && !published.lists());
    assert_eq!(published.caching(), Caching::Checked);

    let mut working = settings();
    working.settle();
    assert!(working.watches() && working.lists());
    assert_eq!(working.caching(), Caching::Off);
}

#[test]
fn cache_assets_keeps_assets_with_or_without_production() {
    let mut kept = settings();
    kept.cache_assets = true;
    assert_eq!(kept.caching(), Caching::AssetsForAYear);
    kept.production = true;
    assert_eq!(kept.caching(), Caching::AssetsForAYear);
}

#[test]
fn production_never_moves_to_another_port() {
    let mut published = settings();
    published.production = true;
    assert_eq!(published.exact_port(), Some(DEFAULT_PORT));
    assert_eq!(DEFAULT_PORT, 3030);

    published.port = Some(8080);
    assert_eq!(published.exact_port(), Some(8080));

    assert_eq!(settings().exact_port(), None, "free to move to the next port");
}

#[test]
fn the_banner_goes_up_first_only_while_polling() {
    let mut polling = settings();
    assert!(!polling.banner_goes_up_first());
    polling.poll = true;
    assert!(polling.banner_goes_up_first());
}

#[test]
fn a_port_that_was_asked_for_is_never_swapped_for_another() {
    let mut asked = settings();
    asked.port = Some(8080);
    assert_eq!(asked.ports_to_try(), [8080]);

    let mut published = settings();
    published.production = true;
    assert_eq!(published.ports_to_try(), [3030]);
}

#[test]
fn the_next_port_is_used_when_none_was_asked_for() {
    assert_eq!(
        settings().ports_to_try(),
        [3030, 3031, 3032, 3033, 3034, 3035, 3036, 3037, 3038, 3039]
    );
}
