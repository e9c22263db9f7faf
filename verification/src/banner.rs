//! What the server says on the way up.

use crate::serve::Caching;
use crate::settings::{Settings, DEFAULT_PORT};
use crate::text::{self, push_char, push_decimal};
use vstd::prelude::*;

verus! {

/// An address to listen on, as the system writes it out: four bytes, or eight
/// 16-bit groups.
#[derive(Clone, Copy, Debug, PartialEq, Eq)]
pub enum Host {
    V4([u8; 4]),
    V6([u16; 8]),
}

/// The address the server is listening on: the host, the port, and the whole
/// address as the system writes it (`192.168.1.20:3030`, `[fe80::1%2]:3030`).
pub struct Bound {
    pub host: Host,
    pub port: u16,
    pub shown: String,
}

/// Every network interface: 0.0.0.0 or `::`.
pub open spec fn unspecified(host: Host) -> bool {
    match host {
        Host::V4(octets) => octets@ == seq![0u8, 0, 0, 0],
        Host::V6(segments) => segments@ == seq![0u16, 0, 0, 0, 0, 0, 0, 0],
    }
}

/// `127.0.0.1` or `::1`: the addresses the name `localhost` leads to.
pub open spec fn named_localhost(host: Host) -> bool {
    match host {
        Host::V4(octets) => octets@ == seq![127u8, 0, 0, 1],
        Host::V6(segments) => segments@ == seq![0u16, 0, 0, 0, 0, 0, 0, 1],
    }
}

/// An IPv4 address written as IPv6 (`::ffff:a.b.c.d`) is that IPv4 address;
/// every other address is itself.
pub open spec fn canonical(host: Host) -> Host {
    match host {
        Host::V4(_) => host,
        Host::V6(s) => if s[0] == 0 && s[1] == 0 && s[2] == 0 && s[3] == 0 && s[4] == 0 && s[5]
            == 0xffff {
            Host::V4([(s[6] / 256) as u8, (s[6] % 256) as u8, (s[7] / 256) as u8, (s[7] % 256) as u8])
        } else {
            host
        },
    }
}

/// Loopback: 127.0.0.0/8, or `::1`.
pub open spec fn loopback(host: Host) -> bool {
    match host {
        Host::V4(octets) => octets[0] == 127,
        Host::V6(segments) => segments@ == seq![0u16, 0, 0, 0, 0, 0, 0, 1],
    }
}

fn is_unspecified(host: &Host) -> (answer: bool)
    ensures
        answer == unspecified(*host),
{
    match host {
        Host::V4(o) => {
            let answer = o[0] == 0 && o[1] == 0 && o[2] == 0 && o[3] == 0;
            assert(answer ==> o@ =~= seq![0u8, 0, 0, 0]);
            answer
        },
        Host::V6(s) => {
            let answer = s[0] == 0 && s[1] == 0 && s[2] == 0 && s[3] == 0 && s[4] == 0 && s[5] == 0
                && s[6] == 0 && s[7] == 0;
            assert(answer ==> s@ =~= seq![0u16, 0, 0, 0, 0, 0, 0, 0]);
            answer
        },
    }
}

fn is_named_localhost(host: &Host) -> (answer: bool)
    ensures
        answer == named_localhost(*host),
{
    match host {
        Host::V4(o) => {
            let answer = o[0] == 127 && o[1] == 0 && o[2] == 0 && o[3] == 1;
            assert(answer ==> o@ =~= seq![127u8, 0, 0, 1]);
            answer
        },
        Host::V6(s) => {
            let answer = s[0] == 0 && s[1] == 0 && s[2] == 0 && s[3] == 0 && s[4] == 0 && s[5] == 0
                && s[6] == 0 && s[7] == 1;
            assert(answer ==> s@ =~= seq![0u16, 0, 0, 0, 0, 0, 0, 1]);
            answer
        },
    }
}

/// Whether other machines can reach this address. `::ffff:127.0.0.1` counts
/// as local.
pub fn reachable_from_elsewhere(host: &Host) -> (reachable: bool)
    ensures
        reachable == !loopback(canonical(*host)),
{
    match host {
        Host::V4(o) => o[0] != 127,
        Host::V6(s) => {
            if s[0] == 0 && s[1] == 0 && s[2] == 0 && s[3] == 0 && s[4] == 0 && s[5] == 0xffff {
                s[6] / 256 != 127
            } else {
                let local = s[0] == 0 && s[1] == 0 && s[2] == 0 && s[3] == 0 && s[4] == 0 && s[5]
                    == 0 && s[6] == 0 && s[7] == 1;
                assert(local ==> s@ =~= seq![0u16, 0, 0, 0, 0, 0, 0, 1]);
                !local
            }
        },
    }
}

/// The host and port of the address a browser can open. 0.0.0.0 and `::`
/// mean every network interface, which a browser cannot open, so those become
/// localhost. So do 127.0.0.1 and `::1`, and nothing else: 127.0.0.2 is
/// loopback too, but the name does not lead there.
pub open spec fn authority_text(bound: Bound) -> Seq<char> {
    if unspecified(bound.host) || named_localhost(bound.host) {
        "localhost:"@ + text::decimal(bound.port as nat)
    } else {
        bound.shown@
    }
}

pub fn authority(bound: &Bound) -> (authority: String)
    ensures
        authority@ == authority_text(*bound),
{
    if is_unspecified(&bound.host) || is_named_localhost(&bound.host) {
        let mut authority = String::new();
        authority.append("localhost:");
        push_decimal(&mut authority, bound.port as u64);
        authority
    } else {
        bound.shown.clone()
    }
}

/// The address a browser can open.
pub fn url(bound: &Bound) -> (url: String)
    ensures
        url@ == "http://"@ + authority_text(*bound),
{
    let mut url = String::new();
    url.append("http://");
    let authority = authority(bound);
    url.append(authority.as_str());
    url
}

/// Whether the banner may colour its text and make links.
#[derive(Clone, Copy, Debug, PartialEq, Eq, Structural)]
pub struct Style {
    pub colour: bool,
    pub links: bool,
}

impl Style {
    /// Only a terminal shows colours and links; in a file or a pipe their codes
    /// are noise. A `NO_COLOR` that is not empty turns colour off in a terminal
    /// too.
    pub fn new(terminal: bool, no_color: Option<&str>) -> (style: Style)
        ensures
            style.links == terminal,
            style.colour == (terminal && !(no_color matches Some(value) && value@.len() > 0)),
    {
        let no_color = match no_color {
            Some(value) => !value.is_empty(),
            None => false,
        };
        Style { colour: terminal && !no_color, links: terminal }
    }
}

/// Whether the banner's output shows colours and links at all: a terminal
/// does, unless its `TERM` is `dumb`, as in some Emacs shells, or there is no
/// `TERM` on a system other than Windows.
pub fn shows_codes(is_terminal: bool, term: Option<&str>, windows: bool) -> (shown: bool)
    ensures
        shown == (is_terminal && match term {
            Some(term) => term@ != "dumb"@,
            None => windows,
        }),
{
    if !is_terminal {
        return false;
    }
    match term {
        Some(term) => {
            let dumb = "dumb";
            !text::same_chars(&text::chars_of(term), &text::chars_of(dumb))
        },
        None => windows,
    }
}

pub open spec fn on_off_text(enabled: bool) -> Seq<char> {
    if enabled {
        "on"@
    } else {
        "off"@
    }
}

pub fn on_off(enabled: bool) -> (said: &'static str)
    ensures
        said@ == on_off_text(enabled),
{
    if enabled {
        "on"
    } else {
        "off"
    }
}

/// `text` as a link to `url` in terminals that support it.
pub open spec fn linked(style: Style, url: Seq<char>, text: Seq<char>) -> Seq<char> {
    if style.links {
        "\x1b]8;;"@ + url + "\x1b\\"@ + text + "\x1b]8;;\x1b\\"@
    } else {
        text
    }
}

/// Makes `text` a clickable link to `url` in terminals that support it.
pub fn hyperlink(style: Style, url: &str, text: &str) -> (link: String)
    ensures
        link@ == linked(style, url@, text@),
{
    let mut link = String::new();
    if style.links {
        link.append("\x1b]8;;");
        link.append(url);
        link.append("\x1b\\");
        link.append(text);
        link.append("\x1b]8;;\x1b\\");
    } else {
        link.append(text);
    }
    link
}

/// Fits the longest label, so the colons line up.
pub const LABEL_WIDTH: usize = 15;

/// `count` spaces.
pub open spec fn spaces(count: int) -> Seq<char> {
    Seq::new(if count > 0 { count as nat } else { 0 }, |i: int| ' ')
}

/// One line of the banner: the label, padded so the colons line up, and the
/// value, coloured where colours are shown.
pub open spec fn row_text(style: Style, label: Seq<char>, value: Seq<char>) -> Seq<char> {
    "  "@ + label + spaces(LABEL_WIDTH - label.len()) + ": "@ + if style.colour {
        "\x1b[94m"@ + value + "\x1b[0m"@
    } else {
        value
    }
}

pub fn row(style: Style, label: &str, value: &str) -> (line: String)
    ensures
        line@ == row_text(style, label@, value@),
{
    let mut line = String::new();
    line.append("  ");
    line.append(label);
    let width = label.unicode_len();
    let ghost start = line@;
    let mut i = width;
    while i < LABEL_WIDTH
        invariant
            width <= i <= LABEL_WIDTH || (width > LABEL_WIDTH && i == width),
            width == label@.len(),
            line@ == start + spaces(i - width),
        decreases LABEL_WIDTH - i,
    {
        push_char(&mut line, ' ');
        assert(line@ =~= start + spaces(i + 1 - width));
        i = i + 1;
    }
    assert(line@ =~= "  "@ + label@ + spaces(LABEL_WIDTH - label@.len()));
    line.append(": ");
    if style.colour {
        line.append("\x1b[94m");
        line.append(value);
        line.append("\x1b[0m");
    } else {
        line.append(value);
    }
    line
}

/// The name of the ignore file in the served directory.
pub const IGNORE_FILE: &'static str = ".servioignore";

/// `parts` with `separator` between each two.
pub open spec fn joined_with(parts: Seq<Seq<char>>, separator: Seq<char>) -> Seq<char>
    decreases parts.len(),
{
    if parts.len() == 0 {
        Seq::empty()
    } else if parts.len() == 1 {
        parts[0]
    } else {
        joined_with(parts.drop_last(), separator) + separator + parts.last()
    }
}

/// What is being ignored: the patterns given, then how many the ignore file
/// added, if any.
pub open spec fn ignored_parts(given: Seq<String>, from_file: nat) -> Seq<Seq<char>> {
    let named = given.map_values(|pattern: String| pattern@);
    if from_file == 0 {
        named
    } else if from_file == 1 {
        named.push("1 pattern in "@ + IGNORE_FILE@)
    } else {
        named.push(text::decimal(from_file) + " patterns in "@ + IGNORE_FILE@)
    }
}

/// The patterns given, and how many the ignore file added, or nothing when
/// there were none of either.
pub fn ignoring(given: &[String], from_file: usize) -> (said: Option<String>)
    ensures
        ignored_parts(given@, from_file as nat).len() == 0 ==> said is None,
        ignored_parts(given@, from_file as nat).len() > 0 ==> (said matches Some(said) && said@
            == joined_with(ignored_parts(given@, from_file as nat), ", "@)),
{
    let ghost parts = ignored_parts(given@, from_file as nat);
    let ghost named = given@.map_values(|pattern: String| pattern@);
    let mut said = String::new();
    let mut count: usize = 0;
    while count < given.len()
        invariant
            count <= given@.len(),
            named == given@.map_values(|pattern: String| pattern@),
            said@ == joined_with(named.take(count as int), ", "@),
        decreases given@.len() - count,
    {
        assert(named.take(count + 1).drop_last() == named.take(count as int));
        if count > 0 {
            said.append(", ");
        }
        said.append(given[count].as_str());
        count = count + 1;
    }
    assert(named.take(given@.len() as int) == named);
    if from_file > 0 {
        if count > 0 {
            said.append(", ");
        }
        if from_file == 1 {
            said.append("1 pattern in ");
        } else {
            push_decimal(&mut said, from_file as u64);
            said.append(" patterns in ");
        }
        said.append(IGNORE_FILE);
        assert(parts.drop_last() == named);
    }
    if count == 0 && from_file == 0 {
        None
    } else {
        Some(said)
    }
}

/// Worth saying when the server is looking at the files rather than being told
/// about them: that notices later, and reads the whole directory each time.
pub open spec fn live_reload_text(settings: Settings) -> Seq<char> {
    if settings.no_reload {
        "off"@
    } else if settings.poll {
        "on, looking at the files every 1s"@
    } else {
        "on"@
    }
}

pub fn live_reload(settings: &Settings) -> (said: String)
    ensures
        said@ == live_reload_text(*settings),
{
    let mut said = String::new();
    if !settings.watches() {
        said.append("off");
    } else if settings.poll {
        said.append("on, looking at the files every 1s");
    } else {
        said.append("on");
    }
    said
}

pub const RULE: &'static str = "-----------------------------------------------";

pub open spec fn caching_text(caching: Caching) -> Seq<char> {
    match caching {
        Caching::Off => "off"@,
        Caching::Checked => "on, checked for changes each time"@,
        Caching::AssetsForAYear => "files under /assets/ for a year, the rest checked each time"@,
    }
}

pub open spec fn caching_of(settings: Settings) -> Caching {
    if settings.cache_assets {
        Caching::AssetsForAYear
    } else if settings.production {
        Caching::Checked
    } else {
        Caching::Off
    }
}

/// The banner's first lines: where it serves from, the port where it had to
/// move, live reload, and what is ignored.
pub open spec fn upper_rows(
    style: Style,
    bound: Bound,
    settings: Settings,
    static_dir: Seq<char>,
    from_ignore_file: nat,
) -> Seq<Seq<char>> {
    let serving = seq![row_text(style, "Serving"@, static_dir)];
    let note = if settings.port is None && !settings.production && bound.port != DEFAULT_PORT {
        seq![row_text(style, "Note"@, "port 3030 was busy, using "@ + text::decimal(bound.port as nat))]
    } else {
        Seq::empty()
    };
    let reload = seq![row_text(style, "Live reload"@, live_reload_text(settings))];
    let parts = ignored_parts(settings.ignore@, from_ignore_file);
    let ignoring = if parts.len() > 0 {
        seq![row_text(style, "Ignoring"@, joined_with(parts, ", "@))]
    } else {
        Seq::empty()
    };
    serving + note + reload + ignoring
}

/// The banner's last lines: the app, the lists, caching, the warnings, and
/// the address to open.
pub open spec fn lower_rows(style: Style, bound: Bound, settings: Settings, no_app_page: bool) -> Seq<Seq<char>> {
    let spa = seq![row_text(style, "Single-page app"@, on_off_text(settings.spa))];
    let lists = seq![row_text(style, "File lists"@, if !settings.no_list {
        "where a folder has no index.html, or with ?list"@
    } else {
        "off"@
    })];
    let caching = seq![row_text(style, "Caching"@, caching_text(caching_of(settings)))];
    let no_page = if no_app_page {
        seq![row_text(style, "Warning"@, "there is no index.html here, so the app will not load"@)]
    } else {
        Seq::empty()
    };
    let open_lists = if !settings.no_list && !loopback(canonical(settings.host)) {
        seq![row_text(style, "Warning"@, "other devices can list the files here; --no-list turns that off"@)]
    } else {
        Seq::empty()
    };
    let open = seq![row_text(style, "Open"@, linked(style, "http://"@ + authority_text(bound), authority_text(bound)))];
    spa + lists + caching + no_page + open_lists + open
}

/// The lines of the banner between its two rules.
pub open spec fn banner_rows(
    style: Style,
    bound: Bound,
    settings: Settings,
    static_dir: Seq<char>,
    no_app_page: bool,
    from_ignore_file: nat,
) -> Seq<Seq<char>> {
    upper_rows(style, bound, settings, static_dir, from_ignore_file) + lower_rows(style, bound, settings, no_app_page)
}

/// Lines, each followed by a line break.
pub open spec fn lines(rows: Seq<Seq<char>>) -> Seq<char>
    decreases rows.len(),
{
    if rows.len() == 0 {
        Seq::empty()
    } else {
        lines(rows.drop_last()) + rows.last() + seq!['\n']
    }
}

/// The whole banner: a rule, the rows, a rule and an empty line.
pub open spec fn banner_text(
    style: Style,
    bound: Bound,
    settings: Settings,
    static_dir: Seq<char>,
    no_app_page: bool,
    from_ignore_file: nat,
) -> Seq<char> {
    RULE@ + seq!['\n'] + lines(banner_rows(style, bound, settings, static_dir, no_app_page, from_ignore_file))
        + RULE@ + seq!['\n', '\n']
}

fn push_line(out: &mut String, rows: Ghost<Seq<Seq<char>>>, line: &str) -> (rows_after: Ghost<Seq<Seq<char>>>)
    requires
        old(out)@ == lines(rows@),
    ensures
        rows_after@ == rows@.push(line@),
        final(out)@ == lines(rows_after@),
{
    out.append(line);
    push_char(out, '\n');
    let rows_after = Ghost(rows@.push(line@));
    assert(rows_after@.drop_last() =~= rows@);
    rows_after
}

proof fn lemma_lines_concat(a: Seq<Seq<char>>, b: Seq<Seq<char>>)
    ensures
        lines(a + b) == lines(a) + lines(b),
    decreases b.len(),
{
    if b.len() == 0 {
        assert(a + b == a);
        assert(lines(b) == Seq::<char>::empty());
    } else {
        lemma_lines_concat(a, b.drop_last());
        assert((a + b).drop_last() == a + b.drop_last());
        assert((a + b).last() == b.last());
    }
}

#[verifier::rlimit(50)]
fn upper_lines(style: Style, bound: &Bound, settings: &Settings, static_dir: &str, from_ignore_file: usize) -> (out: String)
    ensures
        out@ == lines(upper_rows(style, *bound, *settings, static_dir@, from_ignore_file as nat)),
{
    let ghost expected = upper_rows(style, *bound, *settings, static_dir@, from_ignore_file as nat);
    let mut out = String::new();
    let rows = Ghost(Seq::<Seq<char>>::empty());
    assert(out@ == lines(rows@));

    let line = row(style, "Serving", static_dir);
    let rows = push_line(&mut out, rows, line.as_str());

    let rows = if settings.exact_port().is_none() && bound.port != DEFAULT_PORT {
        let mut note = String::new();
        note.append("port 3030 was busy, using ");
        push_decimal(&mut note, bound.port as u64);
        let line = row(style, "Note", note.as_str());
        push_line(&mut out, rows, line.as_str())
    } else {
        rows
    };

    let reload = live_reload(settings);
    let line = row(style, "Live reload", reload.as_str());
    let rows = push_line(&mut out, rows, line.as_str());

    let rows = match ignoring(settings.ignore.as_slice(), from_ignore_file) {
        Some(ignored) => {
            let line = row(style, "Ignoring", ignored.as_str());
            push_line(&mut out, rows, line.as_str())
        },
        None => rows,
    };
    assert(rows@ =~= expected);
    out
}

#[verifier::rlimit(50)]
fn lower_lines(style: Style, bound: &Bound, settings: &Settings, no_app_page: bool) -> (out: String)
    ensures
        out@ == lines(lower_rows(style, *bound, *settings, no_app_page)),
{
    let ghost expected = lower_rows(style, *bound, *settings, no_app_page);
    let mut out = String::new();
    let rows = Ghost(Seq::<Seq<char>>::empty());
    assert(out@ == lines(rows@));

    let line = row(style, "Single-page app", on_off(settings.spa));
    let rows = push_line(&mut out, rows, line.as_str());

    let line = row(style, "File lists", if settings.lists() {
        "where a folder has no index.html, or with ?list"
    } else {
        "off"
    });
    let rows = push_line(&mut out, rows, line.as_str());

    let line = row(style, "Caching", match settings.caching() {
        Caching::Off => "off",
        Caching::Checked => "on, checked for changes each time",
        Caching::AssetsForAYear => "files under /assets/ for a year, the rest checked each time",
    });
    let rows = push_line(&mut out, rows, line.as_str());

    let rows = if no_app_page {
        let line = row(style, "Warning", "there is no index.html here, so the app will not load");
        push_line(&mut out, rows, line.as_str())
    } else {
        rows
    };

    let rows = if settings.lists() && reachable_from_elsewhere(&settings.host) {
        let line = row(style, "Warning", "other devices can list the files here; --no-list turns that off");
        push_line(&mut out, rows, line.as_str())
    } else {
        rows
    };

    let address = url(bound);
    let shown = authority(bound);
    let link = hyperlink(style, address.as_str(), shown.as_str());
    let line = row(style, "Open", link.as_str());
    let rows = push_line(&mut out, rows, line.as_str());

    assert(rows@ =~= expected);
    out
}

/// What the server says on the way up: where it serves from, how, and the
/// address to open.
pub fn banner(
    style: Style,
    bound: &Bound,
    settings: &Settings,
    static_dir: &str,
    no_app_page: bool,
    from_ignore_file: usize,
) -> (said: String)
    ensures
        said@ == banner_text(style, *bound, *settings, static_dir@, no_app_page, from_ignore_file as nat),
{
    let upper = upper_lines(style, bound, settings, static_dir, from_ignore_file);
    let lower = lower_lines(style, bound, settings, no_app_page);
    proof {
        lemma_lines_concat(
            upper_rows(style, *bound, *settings, static_dir@, from_ignore_file as nat),
            lower_rows(style, *bound, *settings, no_app_page),
        );
    }
    let mut said = String::new();
    said.append(RULE);
    push_char(&mut said, '\n');
    said.append(upper.as_str());
    said.append(lower.as_str());
    said.append(RULE);
    push_char(&mut said, '\n');
    push_char(&mut said, '\n');
    said
}

} // verus!
